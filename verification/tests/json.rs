use extension_scanner::json::json_string;

#[test]
fn strings_are_quoted_and_escaped() {
    assert_eq!(json_string(""), "\"\"");
    assert_eq!(json_string("plain é 日本"), "\"plain é 日本\"");
    assert_eq!(json_string("a\"b\\c"), "\"a\\\"b\\\\c\"");
    assert_eq!(json_string("\n\r\t"), "\"\\n\\r\\t\"");
    assert_eq!(json_string("\u{0}\u{1f}\u{7f}\u{9f}"), "\"\\u0000\\u001f\\u007f\\u009f\"");
    assert_eq!(json_string("\u{a0}"), "\"\u{a0}\"");
}

#[test]
fn control_characters_agree_with_std() {
    for code in 0..0x300u32 {
        let c = char::from_u32(code).unwrap();
        let shown = json_string(&c.to_string());
        if c.is_control() && c != '\n' && c != '\r' && c != '\t' {
            assert_eq!(shown, format!("\"\\u{:04x}\"", code));
        } else if c != '"' && c != '\\' && !c.is_control() {
            assert_eq!(shown, format!("\"{}\"", c));
        }
    }
}
