use rag_personal::text::{decimal_string, escape_single_quotes, preview, quote_literal};

#[test]
fn preview_cuts_long_text_with_ellipsis() {
    assert_eq!(preview("abcdef", 3), "abc…");
    assert_eq!(preview("abc", 3), "abc");
    assert_eq!(preview("", 0), "");
    assert_eq!(preview("中文測試", 2), "中文…");
}

#[test]
fn quoting_doubles_single_quotes() {
    assert_eq!(escape_single_quotes("a'b''c"), "a''b''''c");
    assert_eq!(quote_literal("x"), "'x'");
}

#[test]
fn decimal_strings() {
    assert_eq!(decimal_string(0), "0");
    assert_eq!(decimal_string(1203), "1203");
}
