use extension_scanner::text::{chars_of, contains_text, decimal, same_text, text_less, trim, trim_dots};
use extension_scanner::text::white_space;

#[test]
fn decimal_of_numbers() {
    assert_eq!(decimal(0), "0");
    assert_eq!(decimal(u64::MAX), "18446744073709551615");
}

#[test]
fn decimal_agrees_with_std() {
    let mut n = 1u64;
    for _ in 0..64 {
        assert_eq!(decimal(n), n.to_string());
        assert_eq!(decimal(n - 1), (n - 1).to_string());
        n = n.wrapping_mul(3).wrapping_add(7);
    }
}

#[test]
fn white_space_agrees_with_std() {
    for code in 0..0x3100u32 {
        if let Some(c) = char::from_u32(code) {
            assert_eq!(white_space(c), c.is_whitespace());
        }
    }
}

#[test]
fn trim_agrees_with_std() {
    for s in ["", " ", "  a b\t", "\u{3000}x\u{a0}", "no", "\n\r\u{85}"] {
        assert_eq!(trim(s), s.trim());
    }
    for s in ["", ".", "..a.b..", "a.", " .a"] {
        assert_eq!(trim_dots(s), s.trim_matches('.'));
    }
}

#[test]
fn contains_agrees_with_std() {
    for hay in ["", "a", "abcabd", "aaab", "äöü"] {
        for needle in ["", "a", "ab", "abd", "aab", "ö", "abcabda"] {
            assert_eq!(contains_text(&chars_of(hay), &chars_of(needle)), hay.contains(needle));
        }
    }
}

#[test]
fn order_agrees_with_std() {
    let words = ["", "a", "ab", "b", "B", "é", "z", "\u{ffff}", "\u{10000}", "a\u{0}"];
    for a in words {
        for b in words {
            assert_eq!(text_less(&chars_of(a), &chars_of(b)), a < b);
            assert_eq!(same_text(a, b), a == b);
        }
    }
}
