use mdglimpse::search::{find_all, Haystack, Options};

fn found<'a>(haystack: &'a str, needle: &str, options: Options) -> Vec<&'a str> {
    find_all(haystack, needle, options).into_iter().map(|range| &haystack[range]).collect()
}

#[test]
fn empty_query_finds_nothing() {
    assert!(find_all("текст", "", Options::default()).is_empty());
    assert!(find_all("", "текст", Options::default()).is_empty());
}

#[test]
fn case_insensitive_by_default() {
    let hits = find_all("Ёжик и ёжик и ЁЖИК", "ёжик", Options::default());
    assert_eq!(hits.len(), 3);
    assert_eq!(
        found("Ёжик и ёжик и ЁЖИК", "ёжик", Options::default()),
        vec!["Ёжик", "ёжик", "ЁЖИК"]
    );
}

#[test]
fn case_sensitive_when_asked() {
    let options = Options { case_sensitive: true, whole_word: false };
    assert_eq!(
        found("Ёжик и ёжик", "ёжик", options),
        vec!["ёжик"],
        "с учётом регистра должно найтись только одно"
    );
}

#[test]
fn whole_word_filters_substrings() {
    let options = Options { case_sensitive: false, whole_word: true };
    assert_eq!(found("кот, котёл, шкот, кот!", "кот", options).len(), 2);
}

#[test]
fn whole_word_respects_underscore_and_digits() {
    let options = Options { case_sensitive: false, whole_word: true };
    assert!(found("my_var", "my", options).is_empty());
    assert!(found("var2", "var", options).is_empty());
    assert_eq!(found("var-2", "var", options).len(), 1);
}

#[test]
fn offsets_are_byte_ranges_into_original() {
    let haystack = "аб test вг test";
    let hits = find_all(haystack, "test", Options::default());
    assert_eq!(hits.len(), 2);
    for range in hits {
        assert_eq!(&haystack[range], "test");
    }
}

#[test]
fn fold_that_changes_length_still_gives_valid_offsets() {
    let haystack = "İstanbul и istanbul";
    assert_ne!(
        haystack.to_lowercase().len(),
        haystack.len(),
        "тест потерял смысл: свёртка перестала менять длину"
    );

    let hits = find_all(haystack, "istanbul", Options::default());
    assert_eq!(hits.len(), 2, "{hits:?}");
    for range in hits {
        let slice = &haystack[range];
        assert!(slice.to_lowercase().ends_with("stanbul"), "{slice}");
    }
}

#[test]
fn overlapping_matches_are_not_reported_twice() {
    assert_eq!(found("аааа", "аа", Options::default()).len(), 2);
}

#[test]
fn character_scan_resumes_after_each_match() {
    // The fold of İ changes the byte length, so the character scan runs;
    // like the exact search, it goes on after a match, not inside it.
    let haystack = "İаааа";
    assert_ne!(haystack.to_lowercase().len(), haystack.len());
    assert_eq!(find_all(haystack, "аа", Options::default()), vec![2..6, 6..10]);
    assert_eq!(find_all("İaaa", "aa", Options::default()), vec![2..4]);
}

#[test]
fn fold_that_keeps_the_length_but_moves_boundaries_is_not_trusted() {
    // İ grows by a byte in lower case, the Kelvin sign shrinks by two: the
    // total stays, the character boundaries do not.
    let haystack = "İİ\u{212A}";
    assert_eq!(haystack.to_lowercase().len(), haystack.len());
    let hits = find_all(haystack, "k", Options::default());
    assert_eq!(hits, vec![4..7]);
    for range in hits {
        assert!(haystack.is_char_boundary(range.start) && haystack.is_char_boundary(range.end));
    }
}

#[test]
fn exact_offsets_and_order() {
    let options = Options { case_sensitive: true, whole_word: false };
    assert_eq!(find_all("abcabcab", "ab", options), vec![0..2, 3..5, 6..8]);
    assert_eq!(find_all("abc", "abcd", options), Vec::<std::ops::Range<usize>>::new());
    let words = Options { case_sensitive: true, whole_word: true };
    assert_eq!(find_all("ab, abc ab", "ab", words), vec![0..2, 8..10]);
}

#[test]
fn prepared_haystack_gives_the_same_answer() {
    let text = "Кот и кот";
    let hay = Haystack::new(text);
    let options = Options::default();
    assert_eq!(hay.find_all(text, "КОТ", options), find_all(text, "КОТ", options));
    assert_eq!(hay.find_all(text, "кот", options), vec![0..6, 10..16]);
    assert_eq!(hay.source_len(), text.len());
    assert_eq!(
        find_all(text, "кот", Options { case_sensitive: true, whole_word: true }),
        vec![10..16]
    );
}
