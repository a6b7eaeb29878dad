use finalfusion_utils::text::{is_white_space, lex_less, same_chars, split_words, trim};

#[test]
fn split_words_skips_runs_of_white_space() {
    assert_eq!(split_words("  king\tman  woman \n"), vec!["king", "man", "woman"]);
}

#[test]
fn split_words_of_blank_line_is_empty() {
    assert!(split_words("   ").is_empty());
    assert!(split_words("").is_empty());
}

#[test]
fn split_words_keeps_non_ascii_tokens() {
    assert_eq!(split_words("Köln\u{a0}Düsseldorf"), vec!["Köln", "Düsseldorf"]);
}

#[test]
fn trim_strips_both_ends() {
    assert_eq!(trim("  new york \t"), "new york");
    assert_eq!(trim(" \t "), "");
    assert_eq!(trim("word"), "word");
}

#[test]
fn same_chars_compares_whole_strings() {
    assert!(same_chars("cosine", "cosine"));
    assert!(!same_chars("cosine", "cosines"));
    assert!(!same_chars("cosine", "Cosine"));
}

#[test]
fn lex_less_orders_as_strings_do() {
    let pairs = [("a", "b"), ("ab", "a"), ("", "a"), ("capital", "capital-world"), ("zebra", "Zebra"), ("é", "z")];
    for (a, b) in pairs.iter() {
        assert_eq!(lex_less(a, b), a < b, "{} {}", a, b);
        assert_eq!(lex_less(b, a), b < a, "{} {}", b, a);
    }
    assert!(!lex_less("same", "same"));
}

#[test]
fn white_space_agrees_with_std() {
    for u in 0..=0x10ffffu32 {
        if let Some(c) = char::from_u32(u) {
            assert_eq!(is_white_space(c), c.is_whitespace(), "U+{:04X}", u);
        }
    }
}
