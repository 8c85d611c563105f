use pear_bot::cipher::{decrypt, encrypt};
use pear_bot::envelope::{encrypted_reply, is_permitted, permitted_ids, split_reference, Data, ID_BYTES};

#[test]
fn reply_puts_id_before_ciphertext() {
    assert_eq!(encrypted_reply(42, "a", "1"), "42b");
}

#[test]
fn reply_of_nineteen_digit_id_splits_back() {
    let id: u64 = 1_234_567_890_123_456_789;
    let key = "1000049981";
    let message = "meet me at noon, ça va?";
    let reply = encrypted_reply(id, message, key);
    let (id_text, ciphertext) = split_reference(&reply).unwrap();
    assert_eq!(id_text, id.to_string());
    assert_eq!(ciphertext, encrypt(message, key));
    assert_eq!(decrypt(&ciphertext, key), message);
}

#[test]
fn split_of_short_text_is_none() {
    assert_eq!(ID_BYTES, 19);
    assert_eq!(split_reference("123"), None);
    assert_eq!(split_reference(""), None);
}

#[test]
fn split_at_exact_length() {
    let text = "1234567890123456789";
    assert_eq!(split_reference(text), Some((text.to_string(), String::new())));
}

#[test]
fn split_inside_a_character_is_none() {
    // 18 ASCII bytes then 'é' (2 bytes): byte 19 is inside the 'é'
    let text = "123456789012345678é rest";
    assert!(!text.is_char_boundary(19));
    assert_eq!(split_reference(text), None);
}

#[test]
fn split_after_multibyte_prefix() {
    // 17 ASCII bytes and 'é' make 19 bytes
    let text = "12345678901234567éxyz";
    assert_eq!(
        split_reference(text),
        Some(("12345678901234567é".to_string(), "xyz".to_string()))
    );
}

#[test]
fn permission_file_lines() {
    let text = "123\n  456 \r\nabc\n+7\n-1\n\n99999999999999999999\n18446744073709551615";
    assert_eq!(permitted_ids(text), vec![123, 456, 7, 18446744073709551615]);
}

#[test]
fn permission_file_matches_lines_trim_parse() {
    let texts = ["", "\n", "1\n2\n", " 3 \t\n\u{a0}4\u{3000}\r\n5x\n", "\r\n\r\n8"];
    for t in texts {
        let expected: Vec<u64> = t.lines().filter_map(|l| l.trim().parse::<u64>().ok()).collect();
        assert_eq!(permitted_ids(t), expected);
    }
}

#[test]
fn permission_lookup() {
    let ids = vec![5, 9, 12];
    assert!(is_permitted(&ids, 9));
    assert!(!is_permitted(&ids, 10));
    assert!(!is_permitted(&Vec::new(), 1));
}

#[test]
fn shared_data_is_empty() {
    let _data = Data {};
}

#[test]
fn listed_ids_are_read_back() {
    let ids = vec![5u64, 1203281930788012084, 0, u64::MAX];
    let text: String = ids.iter().map(|i| format!("{}\n", i)).collect();
    assert_eq!(permitted_ids(&text), ids);
}
