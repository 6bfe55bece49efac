use redis_lite::decimal::{parse_decimal, parse_unsigned, push_decimal};

fn written(n: usize) -> String {
    let mut out = String::new();
    push_decimal(&mut out, n);
    out
}

#[test]
fn parse_decimal_reads_digits() {
    assert_eq!(parse_decimal(b"0", 0, 1), Some(0));
    assert_eq!(parse_decimal(b"7", 0, 1), Some(7));
    assert_eq!(parse_decimal(b"42", 0, 2), Some(42));
    assert_eq!(parse_decimal(b"007", 0, 3), Some(7));
    assert_eq!(parse_decimal(b"1234567890", 0, 10), Some(1_234_567_890));
}

#[test]
fn parse_decimal_reads_the_range_it_is_given() {
    assert_eq!(parse_decimal(b"$12\r\n", 1, 3), Some(12));
    assert_eq!(parse_decimal(b"$12\r\n", 1, 2), Some(1));
    assert_eq!(parse_decimal(b"$12\r\n", 2, 3), Some(2));
    assert_eq!(parse_decimal(b"$12\r\n", 0, 3), None);
    assert_eq!(parse_decimal(b"$12\r\n", 1, 4), None);
}

#[test]
fn parse_decimal_refuses_what_is_no_number() {
    assert_eq!(parse_decimal(b"", 0, 0), None);
    assert_eq!(parse_decimal(b"12", 1, 1), None);
    assert_eq!(parse_decimal(b"-1", 0, 2), None);
    assert_eq!(parse_decimal(b"+1", 0, 2), None);
    assert_eq!(parse_decimal(b"1a", 0, 2), None);
    assert_eq!(parse_decimal(b"a1", 0, 2), None);
    assert_eq!(parse_decimal(b"1 ", 0, 2), None);
    assert_eq!(parse_decimal(b"/", 0, 1), None);
    assert_eq!(parse_decimal(b":", 0, 1), None);
}

#[test]
fn parse_decimal_knows_the_limit_of_64_bits() {
    assert_eq!(
        parse_decimal(b"18446744073709551615", 0, 20),
        Some(u64::MAX)
    );
    assert_eq!(parse_decimal(b"18446744073709551616", 0, 20), None);
    assert_eq!(parse_decimal(b"18446744073709551620", 0, 20), None);
    assert_eq!(parse_decimal(b"99999999999999999999", 0, 20), None);
    assert_eq!(parse_decimal(b"184467440737095516150", 0, 21), None);
    assert_eq!(
        parse_decimal(b"00018446744073709551615", 0, 23),
        Some(u64::MAX)
    );
    assert_eq!(parse_decimal(b"1844674407370955161x", 0, 20), None);
}

#[test]
fn parse_unsigned_takes_one_plus_sign() {
    assert_eq!(parse_unsigned("100"), Some(100));
    assert_eq!(parse_unsigned("+100"), Some(100));
    assert_eq!(parse_unsigned("0"), Some(0));
    assert_eq!(parse_unsigned("+0"), Some(0));
    assert_eq!(parse_unsigned("18446744073709551615"), Some(u64::MAX));
    assert_eq!(parse_unsigned("+18446744073709551615"), Some(u64::MAX));
}

#[test]
fn parse_unsigned_refuses_what_is_no_number() {
    assert_eq!(parse_unsigned(""), None);
    assert_eq!(parse_unsigned("+"), None);
    assert_eq!(parse_unsigned("++1"), None);
    assert_eq!(parse_unsigned("-1"), None);
    assert_eq!(parse_unsigned("1+"), None);
    assert_eq!(parse_unsigned(" 1"), None);
    assert_eq!(parse_unsigned("1 "), None);
    assert_eq!(parse_unsigned("1_000"), None);
    assert_eq!(parse_unsigned("0x10"), None);
    assert_eq!(parse_unsigned("1.5"), None);
    assert_eq!(parse_unsigned("\u{661}"), None);
    assert_eq!(parse_unsigned("18446744073709551616"), None);
}

#[test]
fn parse_unsigned_agrees_with_the_standard_library() {
    for text in [
        "", "+", "-", "0", "+0", "-0", "00", "+00", "12", "+12", "++12", "1+2", "12a", "a12",
        " 12", "12 ", "1_2", "18446744073709551615", "18446744073709551616",
        "000000000000000000000000001", "\u{ff11}",
    ] {
        assert_eq!(parse_unsigned(text), text.parse::<u64>().ok(), "{:?}", text);
    }
}

#[test]
fn push_decimal_writes_digits() {
    assert_eq!(written(0), "0");
    assert_eq!(written(5), "5");
    assert_eq!(written(9), "9");
    assert_eq!(written(10), "10");
    assert_eq!(written(11), "11");
    assert_eq!(written(100), "100");
    assert_eq!(written(1_234_567_890), "1234567890");
    assert_eq!(written(usize::MAX), usize::MAX.to_string());
}

#[test]
fn push_decimal_appends() {
    let mut out = String::from("$");
    push_decimal(&mut out, 12);
    push_decimal(&mut out, 0);
    assert_eq!(out, "$120");
}

#[test]
fn what_is_written_is_read_back() {
    for n in [0usize, 1, 9, 10, 99, 100, 12_345, usize::MAX] {
        let text = written(n);
        assert_eq!(
            parse_decimal(text.as_bytes(), 0, text.len()),
            Some(n as u64)
        );
    }
}
