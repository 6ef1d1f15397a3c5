use rustkit_engine::text::{is_whitespace, split_whitespace, trimmed};

#[test]
fn whitespace_is_the_unicode_white_space_property() {
    for c in (0u32..=0x10FFFF).filter_map(char::from_u32) {
        assert_eq!(is_whitespace(c), c.is_whitespace(), "{:?}", c);
    }
}

#[test]
fn trimming_and_word_splitting_follow_str() {
    for s in ["  a b  ", "\u{3000}x\u{a0}y\t", "", "   ", "one", "\u{2028}z\u{85}"] {
        let cs: Vec<char> = s.chars().collect();
        let t: String = trimmed(&cs).into_iter().collect();
        assert_eq!(t, s.trim());
        let ws: Vec<String> =
            split_whitespace(&cs).into_iter().map(|w| w.into_iter().collect()).collect();
        let want: Vec<String> = s.split_whitespace().map(str::to_string).collect();
        assert_eq!(ws, want);
    }
}
