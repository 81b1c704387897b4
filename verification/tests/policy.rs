use spellkit::checker::Checker;
use spellkit::checker::LoadConfig;
use spellkit::checker::SpellError;
use spellkit::guards::Guards;
use spellkit::guards::PatternEntry;

fn config(dict: &str) -> LoadConfig {
    LoadConfig {
        dictionary_text: dict.to_string(),
        protected_text: None,
        protected_patterns: Vec::new(),
        edit_distance: 2,
        frequency_threshold_milli: 10_000,
        loaded_at: Some(1_700_000_000),
    }
}

fn loaded(cfg: &LoadConfig) -> Checker {
    let mut checker = Checker::new();
    checker.load_full(cfg).expect("load should succeed");
    checker
}

#[test]
fn correct_replaces_a_near_miss() {
    let checker = loaded(&config("hello 1000\nhell 500\nhelp 750"));
    assert_eq!(checker.correct_if_unknown("helo", false).unwrap(), "hello");
}

#[test]
fn correct_keeps_known_words() {
    let checker = loaded(&config("the 1000000\nteh 1"));
    // "teh" is itself a dictionary word, so the distance-zero hit keeps it.
    assert_eq!(checker.correct_if_unknown("teh", false).unwrap(), "teh");
    assert_eq!(checker.correct_if_unknown("the", false).unwrap(), "the");
    assert!(checker.is_known("teh").unwrap());
}

#[test]
fn correct_requires_minimum_popularity() {
    // "rarewort" is one edit from "rareword", but its count is below the
    // threshold of 10.0, so the misspelling stays.
    let checker = loaded(&config("rareword 9\ncommon 100"));
    assert_eq!(checker.correct_if_unknown("rarewort", false).unwrap(), "rarewort");
    let generous = loaded(&config("rareword 10\ncommon 100"));
    assert_eq!(generous.correct_if_unknown("rarewort", false).unwrap(), "rareword");
}

#[test]
fn correct_caps_silent_corrections_at_distance_one() {
    let checker = loaded(&config("hello 1000"));
    // Two edits away: available through suggest, never corrected silently.
    assert_eq!(checker.correct_if_unknown("heo", false).unwrap(), "heo");
    let suggestions = checker.suggest("heo", 5).unwrap();
    assert!(suggestions.iter().any(|s| s.term == "hello" && s.distance == 2));
}

#[test]
fn protected_term_is_never_rewritten() {
    let mut cfg = config("cdk 1000000");
    cfg.protected_text = Some("# gene names\n\n  CDK10  \n".to_string());
    let checker = loaded(&cfg);
    assert_eq!(checker.correct_if_unknown("CDK10", true).unwrap(), "CDK10");
    // Without the guard the token is unknown and has no close match.
    assert_eq!(checker.correct_if_unknown("CDK10", false).unwrap(), "CDK10");
}

#[test]
fn protected_set_stores_lowercase_and_normalized_mirrors() {
    let mut guards = Guards::new();
    guards.load_protected("New York\n");
    assert!(guards.is_protected("New York"));
    assert!(guards.is_protected("new york"));
    assert!(guards.is_protected("newyork"));
    assert!(!guards.is_protected("york"));
    // Lookup lowercases the probe before the second set test.
    assert!(guards.is_protected("NEW YORK"));
}

#[test]
fn protected_pattern_matches_chemical_ids() {
    let mut cfg = config("water 1000000");
    cfg.protected_patterns = vec![PatternEntry {
        source: r"^\d{2,7}-\d{2}-\d$".to_string(),
        case_insensitive: false,
        multi_line: false,
        ignore_whitespace: false,
    }];
    let checker = loaded(&cfg);
    assert_eq!(checker.correct_if_unknown("7732-18-5", true).unwrap(), "7732-18-5");
}

#[test]
fn unprotected_word_still_corrected_under_guard() {
    let mut cfg = config("banana 100");
    cfg.protected_patterns = vec![PatternEntry {
        source: r"^\d+$".to_string(),
        case_insensitive: false,
        multi_line: false,
        ignore_whitespace: false,
    }];
    let checker = loaded(&cfg);
    assert_eq!(checker.correct_if_unknown("bananna", true).unwrap(), "banana");
}

#[test]
fn case_insensitive_pattern_flag_is_honored() {
    let mut cfg = config("water 1000000");
    cfg.protected_patterns = vec![PatternEntry {
        source: r"^h2o$".to_string(),
        case_insensitive: true,
        multi_line: false,
        ignore_whitespace: false,
    }];
    let checker = loaded(&cfg);
    assert_eq!(checker.correct_if_unknown("H2O", true).unwrap(), "H2O");
}

#[test]
fn batch_correction_matches_single_corrections() {
    let checker = loaded(&config("hello 1000\nhell 500\nthe 1000000"));
    let tokens = vec![
        "helo".to_string(),
        "the".to_string(),
        "qqqq".to_string(),
        "hell".to_string(),
    ];
    let batch = checker.correct_tokens(&tokens, false).unwrap();
    assert_eq!(batch.len(), tokens.len());
    for (token, corrected) in tokens.iter().zip(batch.iter()) {
        assert_eq!(corrected, &checker.correct_if_unknown(token, false).unwrap());
    }
    assert_eq!(batch, vec!["hello", "the", "qqqq", "hell"]);
}

#[test]
fn correction_is_idempotent() {
    let checker = loaded(&config("hello 1000\nhell 500"));
    let once = checker.correct_if_unknown("helo", false).unwrap();
    let twice = checker.correct_if_unknown(&once, false).unwrap();
    assert_eq!(once, "hello");
    assert_eq!(twice, once);
    let kept = checker.correct_if_unknown("zzzz", false).unwrap();
    assert_eq!(checker.correct_if_unknown(&kept, false).unwrap(), kept);
}

#[test]
fn queries_fail_before_load() {
    let checker = Checker::new();
    assert_eq!(checker.suggest("word", 5), Err(SpellError::NotLoaded));
    assert_eq!(checker.is_known("word"), Err(SpellError::NotLoaded));
    assert_eq!(
        checker.correct_if_unknown("word", false),
        Err(SpellError::NotLoaded)
    );
    assert_eq!(
        checker.correct_tokens(&vec!["word".to_string()], false),
        Err(SpellError::NotLoaded)
    );
    assert_eq!(checker.healthcheck(), Err(SpellError::NotLoaded));
    let stats = checker.stats();
    assert!(!stats.loaded);
    assert_eq!(stats.dictionary_size, None);
}

#[test]
fn edit_distance_outside_range_is_rejected() {
    for bad in [0usize, 3, 10] {
        let mut cfg = config("hello 1000");
        cfg.edit_distance = bad;
        let mut checker = Checker::new();
        match checker.load_full(&cfg) {
            Err(SpellError::InvalidArg(_)) => {}
            other => panic!("expected InvalidArg, got {:?}", other),
        }
        assert!(!checker.stats().loaded);
    }
}

#[test]
fn invalid_pattern_fails_load_and_keeps_old_state() {
    let mut checker = Checker::new();
    checker.load_full(&config("hello 1000")).unwrap();

    let mut bad = config("other 5");
    bad.protected_patterns = vec![PatternEntry {
        source: "(".to_string(),
        case_insensitive: false,
        multi_line: false,
        ignore_whitespace: false,
    }];
    match checker.load_full(&bad) {
        Err(SpellError::InvalidPattern { source, diagnostic }) => {
            assert_eq!(source, "(");
            assert!(diagnostic.contains("Invalid regex pattern"));
        }
        other => panic!("expected InvalidPattern, got {:?}", other),
    }
    // The previous snapshot is still queryable.
    assert!(checker.is_known("hello").unwrap());
    assert!(!checker.is_known("other").unwrap());
}

#[test]
fn malformed_dictionary_lines_are_skipped() {
    let text = "alpha 10\nnofreq\nthree part line\nneg -5\nbig 99999999999999999999999\nok 7\n";
    let checker = loaded(&config(text));
    let stats = checker.stats();
    assert_eq!(stats.dictionary_size, Some(2));
    assert!(checker.is_known("alpha").unwrap());
    assert!(checker.is_known("ok").unwrap());
    assert!(!checker.is_known("nofreq").unwrap());
    assert!(!checker.is_known("neg").unwrap());
    assert!(!checker.is_known("big").unwrap());
}

#[test]
fn stats_reports_the_loaded_snapshot() {
    let mut cfg = config("hello 1000\nworld 500");
    cfg.edit_distance = 1;
    cfg.loaded_at = Some(123_456);
    let checker = loaded(&cfg);
    let stats = checker.stats();
    assert!(stats.loaded);
    assert_eq!(stats.dictionary_size, Some(2));
    assert_eq!(stats.edit_distance, Some(1));
    assert_eq!(stats.loaded_at, Some(123_456));
    assert_eq!(checker.healthcheck(), Ok(()));
}

#[test]
fn known_lookup_is_case_insensitive() {
    let checker = loaded(&config("hello 1000"));
    assert_eq!(
        checker.is_known("HELLO").unwrap(),
        checker.is_known("hello").unwrap()
    );
    assert!(checker.is_known("HeLLo").unwrap());
}

#[test]
fn maximum_counts_parse_and_pass_the_gate() {
    let checker = loaded(&config("huge 18446744073709551615\nhug 1"));
    assert!(checker.is_known("huge").unwrap());
    let suggestions = checker.suggest("huge", 1).unwrap();
    assert_eq!(suggestions[0].frequency, u64::MAX);
    // One over the maximum does not parse, so the row is skipped.
    let overflow = loaded(&config("over 18446744073709551616"));
    assert!(!overflow.is_known("over").unwrap());
}

#[test]
fn plus_prefixed_counts_parse() {
    let checker = loaded(&config("plus +123\nbare 7"));
    assert!(checker.is_known("plus").unwrap());
    assert_eq!(checker.suggest("plus", 1).unwrap()[0].frequency, 123);
}

#[test]
fn correction_picks_the_most_frequent_near_miss() {
    let checker = loaded(&config("bat 100\ncat 100\nrat 200"));
    // All three are one edit from "aat"; the highest count wins.
    assert_eq!(checker.correct_if_unknown("aat", false).unwrap(), "rat");
}

#[test]
fn correction_breaks_frequency_ties_by_term() {
    let checker = loaded(&config("cat 100\nbat 100"));
    // Equal counts: the lexicographically smaller canonical form wins.
    assert_eq!(checker.correct_if_unknown("aat", false).unwrap(), "bat");
}
