use pocket_tts::alignment::text::{
    indexed_name, is_whitespace, join, replace_char, split_whitespace, starts_with_space,
    to_ascii_lowercase, trim,
};

#[test]
fn white_space_is_that_of_unicode() {
    for c in '\0'..=char::MAX {
        assert_eq!(is_whitespace(c), c.is_whitespace(), "{:?}", c);
    }
}

#[test]
fn lowercase_is_that_of_ascii() {
    for c in '\0'..='\u{2ff}' {
        assert_eq!(to_ascii_lowercase(c), c.to_ascii_lowercase());
    }
}

#[test]
fn words_are_split_and_joined() {
    for text in ["", "  ", "a", " a\tb\u{2003}cd ", "\u{85}x\u{85}"] {
        let words = split_whitespace(text);
        assert_eq!(words, text.split_whitespace().collect::<Vec<_>>());
        assert_eq!(split_whitespace(&join(&words, " ")), words);
    }
    assert_eq!(join(&vec!["a".to_string(), "b".to_string()], "--"), "a--b");
}

#[test]
fn white_space_is_trimmed() {
    for text in ["", "  ", "a", " a b\n", "\u{a0}\u{e9}\u{3000}"] {
        assert_eq!(trim(text), text.trim());
        assert_eq!(starts_with_space(text), text.starts_with(' '));
    }
}

#[test]
fn characters_are_replaced() {
    assert_eq!(replace_char("a/b//c", '/', "--"), "a--b----c");
    assert_eq!(replace_char("abc", '/', "--"), "abc");
}

#[test]
fn numbers_are_written_in_decimal() {
    assert_eq!(indexed_name("layers.", 0, ".conv"), "layers.0.conv");
    assert_eq!(indexed_name("", 1905, ""), "1905");
    assert_eq!(indexed_name("", usize::MAX, ""), usize::MAX.to_string());
}
