use hq_lib::text::{is_blank_line, trim_chars};

#[test]
fn blank_lines_agree_with_std_white_space_on_every_char() {
    for code in 0u32..=0x10ffff {
        if let Some(c) = char::from_u32(code) {
            assert_eq!(is_blank_line(&vec![c]), c.is_whitespace(), "U+{code:04X}");
        }
    }
}

#[test]
fn trim_chars_agrees_with_str_trim() {
    let text = "\u{3000}\t .a > b \u{a0}\u{2028}\n";
    let trimmed: String = trim_chars(&text.chars().collect()).into_iter().collect();
    assert_eq!(trimmed, text.trim());
}
