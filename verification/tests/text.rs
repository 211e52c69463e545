use textutils::text::{char_is_space, chars_of};

#[test]
fn whitespace_table_matches_unicode() {
    for u in 0..=0x10ffffu32 {
        if let Some(c) = char::from_u32(u) {
            assert_eq!(char_is_space(c), c.is_whitespace(), "disagreement on U+{:04X}", u);
        }
    }
}

#[test]
fn chars_of_agrees_with_standard_iteration() {
    let samples = ["", "ascii", "caf\u{e9} \u{4f60}\u{597d}\n", "\r\n\t"];
    for text in samples {
        let mine = chars_of(text);
        let std_chars: Vec<char> = text.chars().collect();
        assert_eq!(mine, std_chars);
    }
}
