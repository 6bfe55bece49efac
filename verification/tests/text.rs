use redis_lite::text::{push_text, slice, str_eq};

#[test]
fn slice_cuts_between_byte_positions() {
    assert_eq!(slice("+PONG\r\n", 1, 5), "PONG");
    assert_eq!(slice("+PONG\r\n", 0, 7), "+PONG\r\n");
    assert_eq!(slice("+PONG\r\n", 3, 3), "");
    assert_eq!(slice("", 0, 0), "");
    assert_eq!(slice("abc", 3, 3), "");
}

#[test]
fn slice_counts_bytes_not_characters() {
    let text = "a\u{e9}\u{4e2d}\u{1f600}z";
    assert_eq!(text.len(), 11);
    assert_eq!(slice(text, 1, 3), "\u{e9}");
    assert_eq!(slice(text, 3, 6), "\u{4e2d}");
    assert_eq!(slice(text, 6, 10), "\u{1f600}");
    assert_eq!(slice(text, 1, 10), "\u{e9}\u{4e2d}\u{1f600}");
    assert_eq!(slice(text, 10, 11), "z");
}

#[test]
fn push_text_appends() {
    let mut out = String::new();
    push_text(&mut out, "");
    assert_eq!(out, "");
    push_text(&mut out, "+");
    push_text(&mut out, "h\u{e9}y");
    push_text(&mut out, "\r\n");
    assert_eq!(out, "+h\u{e9}y\r\n");
}

#[test]
fn str_eq_compares_text() {
    assert!(str_eq("", ""));
    assert!(str_eq("ping", "ping"));
    assert!(str_eq("h\u{e9}y", "h\u{e9}y"));
    assert!(!str_eq("ping", "pong"));
    assert!(!str_eq("ping", "pin"));
    assert!(!str_eq("pin", "ping"));
    assert!(!str_eq("ping", "PING"));
    assert!(!str_eq("", "a"));
    assert!(!str_eq("e\u{301}", "\u{e9}"));
}
