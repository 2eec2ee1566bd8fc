use rust_llm_inference::text::{chars_of, decimal_string, is_space_char, join_range, split_words};

#[test]
fn white_space_matches_std() {
    for u in 0u32..=0x10FFFF {
        if let Some(c) = char::from_u32(u) {
            assert_eq!(is_space_char(c), c.is_whitespace(), "U+{u:04X}");
        }
    }
}

#[test]
fn split_words_matches_split_whitespace() {
    let samples = [
        "",
        "   ",
        "one",
        "  leading and trailing  ",
        "tabs\tand\nnew\r\nlines",
        "wide\u{3000}space\u{2029}para",
        "Ünïcödé wörds ok",
    ];
    for s in samples {
        let got = split_words(s);
        let want: Vec<String> = s.split_whitespace().map(|w| w.to_string()).collect();
        assert_eq!(got, want, "{s:?}");
    }
}

#[test]
fn chars_of_lists_characters() {
    assert_eq!(chars_of("aé€𝄞"), vec!['a', 'é', '€', '𝄞']);
    assert!(chars_of("").is_empty());
}

#[test]
fn join_range_uses_separator() {
    let ws: Vec<String> = ["a", "b", "c", "d"].iter().map(|s| s.to_string()).collect();
    assert_eq!(join_range(&ws, 1, 3, " "), "b c");
    assert_eq!(join_range(&ws, 0, 4, ", "), "a, b, c, d");
    assert_eq!(join_range(&ws, 2, 2, " "), "");
}

#[test]
fn decimal_numerals() {
    for n in [0usize, 7, 10, 99, 100, 12345, usize::MAX] {
        assert_eq!(decimal_string(n), n.to_string());
    }
}

#[test]
fn splitting_joined_words_gives_them_back() {
    let words: Vec<String> = ["alpha", "béta", "γ", "x-y"].iter().map(|s| s.to_string()).collect();
    let joined = join_range(&words, 0, words.len(), " ");
    assert_eq!(split_words(&joined), words);
    for w in split_words(" a\tbb  ccc\n") {
        assert!(!w.is_empty());
        assert!(!w.chars().any(|c| c.is_whitespace()));
    }
}
