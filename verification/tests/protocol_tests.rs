use pear_bot::cipher::shifts_of_key;
use pear_bot::protocol::{generate_new_protocol, new_key, protocol_key, protocol_number};

#[test]
fn protocol_number_formula() {
    // (9999*2 + 9999/2 + 9999*9999) * 10 + 1
    assert_eq!(protocol_number(2, 9999, 1), 1000049981);
    assert_eq!(protocol_number(9, 99999, 9), (99999 * 9 + 99999 / 9 + 99999 * 99999) * 10 + 9);
}

#[test]
fn generated_numbers_are_in_range() {
    for _ in 0..200 {
        let n = generate_new_protocol();
        assert!(n >= 1000049981 && n <= 100_009_898_999);
        assert!(n % 10 >= 1);
    }
}

#[test]
fn key_text_drops_one_digit_when_long() {
    assert_eq!(protocol_key(1000049981), "1000049981");
    assert_eq!(protocol_key(12345678901), "1234567890");
    assert_eq!(protocol_key(100009898999), "10000989899");
    assert_eq!(protocol_key(7), "7");
}

#[test]
fn generated_keys_are_ten_or_eleven_digits() {
    for _ in 0..200 {
        let key = new_key();
        assert!(key.len() == 10 || key.len() == 11);
        assert!(key.chars().all(|c| c.is_ascii_digit()));
        assert!(shifts_of_key(&key).iter().all(|s| *s <= 9));
    }
}
