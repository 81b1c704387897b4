use spellkit::symspell::SymSpell;

#[test]
fn test_edit_distance() {
    let symspell = SymSpell::new(2);
    assert_eq!(symspell.edit_distance("test", "test"), 0);
    assert_eq!(symspell.edit_distance("test", "tests"), 1);
    assert_eq!(symspell.edit_distance("test", "tast"), 1);
    assert_eq!(symspell.edit_distance("test", "toast"), 2);
}

#[test]
fn test_suggestions() {
    let mut symspell = SymSpell::new(2);
    symspell.add_word("hello", "hello", 1000);
    symspell.add_word("hell", "hell", 500);
    symspell.add_word("help", "help", 750);

    let suggestions = symspell.suggestions("helo", 3);
    assert!(!suggestions.is_empty());
    assert_eq!(suggestions[0].term, "hello");
    assert_eq!(suggestions[0].distance, 1);
}

#[test]
fn test_single_character_corrections() {
    let mut symspell = SymSpell::new(1);
    symspell.add_word("a", "a", 10000);
    symspell.add_word("i", "I", 8000);
    symspell.add_word("o", "o", 6000);

    let suggestions = symspell.suggestions("x", 5);
    assert!(!suggestions.is_empty(), "Single-character corrections should work");
    assert!(suggestions.iter().any(|s| s.term == "a"), "Should suggest 'a' for 'x'");

    let suggestions_for_j = symspell.suggestions("j", 5);
    assert!(!suggestions_for_j.is_empty(), "Should find suggestions for 'j'");
    assert!(
        suggestions_for_j.iter().any(|s| s.term == "I"),
        "Should suggest canonical 'I' (not 'i')"
    );
}

#[test]
fn edit_distance_zero_iff_equal() {
    let symspell = SymSpell::new(1);
    assert_eq!(symspell.edit_distance("", ""), 0);
    assert_eq!(symspell.edit_distance("", "abc"), 3);
    assert_eq!(symspell.edit_distance("abc", ""), 3);
    assert_eq!(symspell.edit_distance("kitten", "sitting"), 3);
    assert_eq!(symspell.edit_distance("sitting", "kitten"), 3);
}

#[test]
fn normalize_lowercases_and_strips() {
    assert_eq!(SymSpell::normalize_word("HeLLo"), "hello");
    assert_eq!(SymSpell::normalize_word("New York"), "newyork");
    assert_eq!(SymSpell::normalize_word("  tab\tand\nnewline "), "tabandnewline");
    assert_eq!(SymSpell::normalize_word(""), "");
}

#[test]
fn normalize_applies_compatibility_decomposition() {
    // U+FB01 (the "fi" ligature) decomposes to "fi" under NFKD.
    assert_eq!(SymSpell::normalize_word("\u{fb01}sh"), "fish");
    // U+00C9 decomposes to "E" plus U+0301, then lowercases.
    assert_eq!(SymSpell::normalize_word("\u{c9}"), "e\u{301}");
}

#[test]
fn unicode_entries_round_trip_through_normalization() {
    let mut symspell = SymSpell::new(1);
    let key = SymSpell::normalize_word("Caf\u{e9}");
    symspell.add_word(&key, "Caf\u{e9}", 50);
    assert!(symspell.contains("Caf\u{e9}"));
    assert_eq!(symspell.get_frequency("Caf\u{e9}"), Some(50));
    let suggestions = symspell.suggestions("cafe", 5);
    assert!(suggestions.iter().any(|s| s.term == "Caf\u{e9}" && s.distance == 1));
}

#[test]
fn suggestions_ranked_by_distance_frequency_term() {
    let mut symspell = SymSpell::new(2);
    symspell.add_word("hello", "hello", 1000);
    symspell.add_word("hell", "hell", 500);
    symspell.add_word("help", "help", 750);

    let suggestions = symspell.suggestions("helo", 3);
    assert_eq!(suggestions.len(), 3);
    // All three are one edit away; ties break by frequency descending.
    assert_eq!(suggestions[0].term, "hello");
    assert_eq!(suggestions[0].distance, 1);
    assert_eq!(suggestions[0].frequency, 1000);
    assert_eq!(suggestions[1].term, "help");
    assert_eq!(suggestions[1].frequency, 750);
    assert_eq!(suggestions[2].term, "hell");
    assert_eq!(suggestions[2].frequency, 500);
}

#[test]
fn suggestions_tie_break_by_term() {
    let mut symspell = SymSpell::new(1);
    symspell.add_word("bat", "bat", 100);
    symspell.add_word("cat", "cat", 100);
    symspell.add_word("rat", "rat", 100);
    let suggestions = symspell.suggestions("aat", 5);
    let terms: Vec<&str> = suggestions.iter().map(|s| s.term.as_str()).collect();
    assert_eq!(terms, vec!["bat", "cat", "rat"]);
}

#[test]
fn suggestions_have_true_distances_within_bound() {
    let mut symspell = SymSpell::new(2);
    symspell.add_word("hello", "hello", 1000);
    symspell.add_word("hell", "hell", 500);
    symspell.add_word("shell", "shell", 200);
    let suggestions = symspell.suggestions("helo", 10);
    for s in &suggestions {
        let d = symspell.edit_distance("helo", &SymSpell::normalize_word(&s.term));
        assert_eq!(s.distance, d);
        assert!(s.distance <= 2);
    }
    let mut seen = Vec::new();
    for s in &suggestions {
        assert!(!seen.contains(&s.term));
        seen.push(s.term.clone());
    }
}

#[test]
fn dictionary_word_suggests_itself_first() {
    let mut symspell = SymSpell::new(2);
    symspell.add_word("hello", "hello", 1000);
    symspell.add_word("hell", "hell", 500);
    assert!(symspell.contains("hello"));
    let suggestions = symspell.suggestions("hello", 1);
    assert_eq!(suggestions.len(), 1);
    assert_eq!(suggestions[0].term, "hello");
    assert_eq!(suggestions[0].distance, 0);
    assert_eq!(suggestions[0].frequency, 1000);
}

#[test]
fn empty_query_and_zero_max_yield_nothing() {
    let mut symspell = SymSpell::new(2);
    symspell.add_word("hello", "hello", 1000);
    assert!(symspell.suggestions("", 5).is_empty());
    assert!(symspell.suggestions("   ", 5).is_empty());
    assert!(symspell.suggestions("hello", 0).is_empty());
}

#[test]
fn lookup_is_ascii_case_insensitive() {
    let mut symspell = SymSpell::new(1);
    symspell.add_word("hello", "hello", 1000);
    assert_eq!(symspell.contains("HELLO"), symspell.contains("hello"));
    assert!(symspell.contains("HELLO"));
    assert_eq!(symspell.contains("QZX"), symspell.contains("qzx"));
    assert!(!symspell.contains("QZX"));
}

#[test]
fn keeps_higher_frequency_on_key_collision() {
    let mut symspell = SymSpell::new(1);
    symspell.add_word("hello", "Hello", 5);
    symspell.add_word("hello", "HELLO", 9);
    let suggestions = symspell.suggestions("hello", 1);
    assert_eq!(suggestions[0].term, "HELLO");
    assert_eq!(suggestions[0].frequency, 9);

    let mut other = SymSpell::new(1);
    other.add_word("hello", "Hello", 9);
    other.add_word("hello", "HELLO", 5);
    let suggestions = other.suggestions("hello", 1);
    assert_eq!(suggestions[0].term, "Hello");
    assert_eq!(suggestions[0].frequency, 9);
}

#[test]
fn get_frequency_reports_stored_count() {
    let mut symspell = SymSpell::new(1);
    symspell.add_word("hello", "hello", 1000);
    assert_eq!(symspell.get_frequency("hello"), Some(1000));
    assert_eq!(symspell.get_frequency("HELLO"), Some(1000));
    assert_eq!(symspell.get_frequency("missing"), None);
}
