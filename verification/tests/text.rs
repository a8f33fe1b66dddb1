use p2p_screenshare::text::{
    decimal_text, parse_byte, push_decimal, push_listed, push_padded, push_two_digits, truth_text,
};

#[test]
fn numbers_in_decimal() {
    for n in [0u64, 7, 10, 99, 100, 65535, u64::MAX] {
        assert_eq!(decimal_text(n), n.to_string());
    }
    let mut out = "n=".to_string();
    push_decimal(&mut out, 42);
    assert_eq!(out, "n=42");
}

#[test]
fn bytes_are_read_as_std_reads_them() {
    for s in ["0", "7", "+7", "007", "255", "256", "0000300", "", "+", "-1", "1 ", "++1", "1+", "x"] {
        assert_eq!(parse_byte(s), s.parse::<u8>().ok());
    }
    for n in 0..=255u8 {
        assert_eq!(parse_byte(&decimal_text(n as u64)), Some(n));
    }
}

#[test]
fn padding_on_the_left() {
    let mut out = ":".to_string();
    push_padded(&mut out, "ab", 4);
    push_padded(&mut out, "abcde", 4);
    assert_eq!(out, ":  ababcde");
}

#[test]
fn two_digits_at_least() {
    let mut out = String::new();
    for n in [0u64, 5, 10, 123] {
        push_two_digits(&mut out, n);
    }
    assert_eq!(out, "000510123");
}

#[test]
fn lists_with_separators() {
    let mut out = String::new();
    push_listed(&mut out, &vec![1, 20, 3], ", ");
    assert_eq!(out, "1, 20, 3");
    push_listed(&mut out, &vec![], ",");
    assert_eq!(out, "1, 20, 3");
    push_listed(&mut out, &vec![4], ",");
    assert_eq!(out, "1, 20, 34");
}

#[test]
fn truth_in_words() {
    assert_eq!(truth_text(true), "true");
    assert_eq!(truth_text(false), "false");
}
