use pear_bot::decimal::{decimal_string, parse_u64, parse_usize};

#[test]
fn decimal_text() {
    for n in [0u64, 7, 10, 99, 1000049981, u64::MAX] {
        assert_eq!(decimal_string(n), n.to_string());
    }
}

#[test]
fn parse_matches_std() {
    let texts = [
        "0", "12", "+12", "+", "", "-1", "-0", " 1", "1 ", "007", "18446744073709551615",
        "18446744073709551616", "99999999999999999999999", "1a", "١٢", "++1",
    ];
    for t in texts {
        assert_eq!(parse_u64(t), t.parse::<u64>().ok(), "text {:?}", t);
        assert_eq!(parse_usize(t), t.parse::<usize>().ok(), "text {:?}", t);
    }
}

#[test]
fn decimal_reads_back() {
    for n in [0u64, 5, 123456, u64::MAX] {
        assert_eq!(parse_u64(&decimal_string(n)), Some(n));
    }
}
