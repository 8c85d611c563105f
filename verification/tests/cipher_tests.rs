use pear_bot::cipher::{decrypt, encrypt, shifts_of_key};

/// The cipher as a plain loop, to compare against.
fn reference(message: &str, key: &str, forward: bool) -> String {
    let shifts: Vec<u8> = key.bytes().map(|b| b.saturating_sub(b'0')).collect();
    let mut out = String::new();
    let mut j = 0usize;
    for ch in message.chars() {
        if j == shifts.len() {
            j = 0;
        }
        if ch.is_ascii() {
            let chb = ch as u8;
            let shift = shifts[j] % 95;
            let shifted = if forward {
                (chb - b' ' + shift) % 95 + b' '
            } else {
                (chb - b' ' + 95 - shift) % 95 + b' '
            };
            out.push(shifted as char);
            j += 1;
        } else {
            out.push(ch);
        }
    }
    out
}

#[test]
fn encrypt_single_char() {
    assert_eq!(encrypt("a", "1"), "b");
}

#[test]
fn encrypt_wraps_within_band() {
    // '~' is the last printable character; one step forward gives the space.
    assert_eq!(encrypt("~", "1"), " ");
    assert_eq!(decrypt(" ", "1"), "~");
}

#[test]
fn encrypt_cycles_through_key() {
    // shifts 1, 2, 3, then 1 again
    assert_eq!(encrypt("aaaa", "123"), "bcdb");
}

#[test]
fn encrypt_skips_non_ascii_without_using_a_digit() {
    assert_eq!(encrypt("aéa", "12"), "béc");
}

#[test]
fn encrypt_matches_reference_loop() {
    let cases = [
        ("Hello, World!", "1000049981"),
        ("the quick brown fox ~~~", "98765432109"),
        ("ünïcödé and ascii", "5"),
        ("", "123"),
        ("only ascii", "0"),
    ];
    for (m, k) in cases {
        assert_eq!(encrypt(m, k), reference(m, k, true));
        assert_eq!(decrypt(m, k), reference(m, k, false));
    }
}

#[test]
fn decrypt_undoes_encrypt_on_printable_text() {
    let cases = [
        ("Hello, World!", "1000049981"),
        ("café ~ { } [ ] \\ \" '", "9"),
        ("ąść and more", "31415926535"),
        ("☃☃é", ""),
    ];
    for (m, k) in cases {
        let e = encrypt(m, k);
        assert_eq!(e.chars().count(), m.chars().count());
        assert_eq!(decrypt(&e, k), m);
    }
}

#[test]
fn delete_character_does_not_come_back() {
    // DEL (127) is ASCII but outside the printable band: it does not survive.
    let e = encrypt("\u{7f}", "1");
    assert_eq!(decrypt(&e, "1"), " ");
}

#[test]
fn key_bytes_become_shifts() {
    assert_eq!(shifts_of_key("09"), vec![0, 9]);
    assert_eq!(shifts_of_key("a "), vec![49, 0]);
    // é is two bytes in UTF-8: 0xC3 0xA9
    assert_eq!(shifts_of_key("é"), vec![0xC3 - 48, 0xA9 - 48]);
    assert_eq!(shifts_of_key(""), Vec::<u8>::new());
}

#[test]
fn large_key_bytes_are_reduced() {
    // the byte 'z' gives 74; 'a' (97) + 74 - 32 = 139, 139 % 95 = 44, + 32 = 76 'L'
    assert_eq!(encrypt("a", "z"), "L");
    assert_eq!(decrypt("L", "z"), "a");
}

#[test]
fn encryption_keeps_shape() {
    let m = "Grüße, ~friends~ \u{7f}!";
    let e = encrypt(m, "98765");
    assert_eq!(e.chars().count(), m.chars().count());
    for (a, b) in m.chars().zip(e.chars()) {
        if a.is_ascii() {
            assert!((' '..='~').contains(&b));
        } else {
            assert_eq!(a, b);
        }
    }
}
