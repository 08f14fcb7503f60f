use symspellrs::store::WordStore;
use symspellrs::{damerau_levenshtein, Suggestion, SymSpell, Verbosity};

fn suggestion(term: &str, frequency: usize, distance: u8) -> Suggestion {
    Suggestion { term: term.to_string(), frequency, distance }
}

fn sample() -> SymSpell {
    let entries = vec![
        ("hello".to_string(), 100usize),
        ("hell".to_string(), 50usize),
        ("help".to_string(), 10usize),
        ("world".to_string(), 200usize),
    ];
    SymSpell::from_iter(2, entries)
}

#[test]
fn test_damerau_basic() {
    assert_eq!(damerau_levenshtein("abc", "abc"), 0);
    assert_eq!(damerau_levenshtein("abc", "ab"), 1);
    assert_eq!(damerau_levenshtein("ab", "ba"), 1);
}

#[test]
fn test_symspell_lookup() {
    let entries = vec![
        ("hello".to_string(), 100usize),
        ("hell".to_string(), 50usize),
        ("help".to_string(), 10usize),
        ("world".to_string(), 200usize),
    ];
    let sym = SymSpell::from_iter(2, entries);
    let suggestions = sym.lookup("helo", 2, Verbosity::Closest);
    assert!(suggestions.iter().any(|s| s.term == "hello"));
}

#[test]
fn closest_includes_hello_at_distance_one() {
    let closest = sample().lookup("helo", 2, Verbosity::Closest);
    assert!(closest.contains(&suggestion("hello", 100, 1)));
    assert_eq!(
        closest,
        vec![suggestion("hello", 100, 1), suggestion("hell", 50, 1), suggestion("help", 10, 1)]
    );
}

#[test]
fn empty_term_gives_nothing() {
    let sym = sample();
    assert!(sym.lookup("", 2, Verbosity::Top).is_empty());
    assert!(sym.lookup("", 2, Verbosity::Closest).is_empty());
    assert!(sym.lookup("", 2, Verbosity::All).is_empty());
}

#[test]
fn exact_match_is_the_top_suggestion() {
    let mut sym = SymSpell::new(2);
    sym.load("world", 1);
    assert_eq!(sym.lookup("world", 2, Verbosity::Top), vec![suggestion("world", 1, 0)]);
}

#[test]
fn exact_match_is_listed_once() {
    let sym = sample();
    assert_eq!(sym.lookup("hello", 2, Verbosity::Closest), vec![suggestion("hello", 100, 0)]);
    assert_eq!(
        sym.lookup("hello", 2, Verbosity::All),
        vec![suggestion("hello", 100, 0), suggestion("hell", 50, 1), suggestion("help", 10, 2)]
    );
    for d in 0..4u8 {
        assert_eq!(sym.lookup("hell", d, Verbosity::Top), vec![suggestion("hell", 50, 0)]);
    }
}

#[test]
fn later_load_replaces_the_frequency() {
    let mut sym = SymSpell::new(2);
    sym.load("apple", 2);
    sym.load("apple", 3);
    assert_eq!(sym.frequency("apple"), Some(3));
    assert_eq!(sym.lookup("apple", 2, Verbosity::All), vec![suggestion("apple", 3, 0)]);
    assert_eq!(sym.lookup("aple", 2, Verbosity::All), vec![suggestion("apple", 3, 1)]);

    let both = SymSpell::from_iter(2, vec![("apple".to_string(), 2), ("apple".to_string(), 3)]);
    assert_eq!(both.frequency("apple"), Some(3));
}

#[test]
fn frequency_of_unknown_word_is_absent() {
    let sym = sample();
    assert_eq!(sym.frequency("hello"), Some(100));
    assert_eq!(sym.frequency("helo"), None);
    assert_eq!(sym.frequency(""), None);
    assert_eq!(sym.frequency_of("world"), Some(200));
    assert!(sym.contains("help"));
    assert!(!sym.contains("hel"));
}

#[test]
fn empty_word_is_not_loaded() {
    let mut sym = SymSpell::new(2);
    sym.load("", 5);
    sym.load_iter(vec![("".to_string(), 7), ("a".to_string(), 1)]);
    assert_eq!(sym.frequency(""), None);
    assert_eq!(sym.frequency("a"), Some(1));
    assert!(sym.candidates_for_variant("x").is_empty());
    assert_eq!(sym.candidates_for_variant(""), vec!["a".to_string()]);
}

#[test]
fn index_files_words_in_loading_order() {
    let sym = SymSpell::from_iter(
        1,
        vec![("help".to_string(), 1), ("hell".to_string(), 1), ("help".to_string(), 4)],
    );
    assert_eq!(sym.candidates_for_variant("hel"), vec!["help".to_string(), "hell".to_string()]);
    assert_eq!(sym.candidates_for_variant("elp"), vec!["help".to_string()]);
    assert!(sym.candidates_for_variant("he").is_empty());
    assert!(sym.candidates_for_variant("help").is_empty());
}

#[test]
fn requested_distance_is_capped_by_the_configured_one() {
    let sym = SymSpell::from_iter(
        1,
        vec![("hello".to_string(), 1), ("help".to_string(), 1), ("held".to_string(), 1)],
    );
    let capped = sym.lookup("helo", 1, Verbosity::All);
    assert_eq!(sym.lookup("helo", 2, Verbosity::All), capped);
    assert_eq!(sym.lookup("helo", 255, Verbosity::All), capped);
    assert!(capped.iter().all(|s| s.distance <= 1));
    assert_eq!(
        capped,
        vec![suggestion("hello", 1, 1), suggestion("help", 1, 1), suggestion("held", 1, 1)]
    );
    let narrow = sym.lookup("helo", 0, Verbosity::All);
    assert!(narrow.is_empty());
}

#[test]
fn all_never_exceeds_the_requested_distance() {
    let sym = sample();
    for d in 0..4u8 {
        let bound = d.min(2);
        for term in ["helo", "hel", "wrld", "hello", "xyz", "h"] {
            for s in sym.lookup(term, d, Verbosity::All) {
                assert!(s.distance <= bound);
                assert_eq!(s.distance, damerau_levenshtein(term, &s.term));
            }
        }
    }
}

#[test]
fn closest_holds_the_nearest_of_all() {
    let sym = sample();
    for term in ["helo", "hel", "wrld", "hello", "xyz", "h", "he"] {
        let all = sym.lookup(term, 2, Verbosity::All);
        let closest = sym.lookup(term, 2, Verbosity::Closest);
        let top = sym.lookup(term, 2, Verbosity::Top);
        assert_eq!(all.is_empty(), closest.is_empty());
        assert_eq!(all.is_empty(), top.is_empty());
        if let Some(least) = all.iter().map(|s| s.distance).min() {
            assert!(closest.iter().all(|s| s.distance == least));
            let nearest: Vec<Suggestion> =
                all.iter().filter(|s| s.distance == least).cloned().collect();
            assert_eq!(closest, nearest);
            assert_eq!(top, vec![closest[0].clone()]);
        }
    }
}

#[test]
fn repeated_lookups_agree() {
    let sym = sample();
    for verbosity in [Verbosity::Top, Verbosity::Closest, Verbosity::All] {
        let first = sym.lookup("helo", 2, verbosity);
        let second = sym.lookup("helo", 2, verbosity);
        assert_eq!(first, second);
    }
}

#[test]
fn all_is_ordered_by_distance_then_frequency() {
    let sym = SymSpell::from_iter(
        2,
        vec![
            ("tost".to_string(), 4),
            ("test".to_string(), 2),
            ("tests".to_string(), 9),
            ("toast".to_string(), 9),
            ("best".to_string(), 2),
        ],
    );
    assert_eq!(
        sym.lookup("tesst", 2, Verbosity::All),
        vec![
            suggestion("tests", 9, 1),
            suggestion("test", 2, 1),
            suggestion("toast", 9, 2),
            suggestion("tost", 4, 2),
            suggestion("best", 2, 2),
        ]
    );
    assert_eq!(sym.lookup("tesst", 2, Verbosity::Top), vec![suggestion("tests", 9, 1)]);
}

#[test]
fn top_keeps_the_first_met_among_equals() {
    let sym = SymSpell::from_iter(1, vec![("bat".to_string(), 3), ("cat".to_string(), 3)]);
    assert_eq!(sym.lookup("at", 1, Verbosity::Top), vec![suggestion("bat", 3, 1)]);
    let other = SymSpell::from_iter(1, vec![("cat".to_string(), 3), ("bat".to_string(), 3)]);
    assert_eq!(other.lookup("at", 1, Verbosity::Top), vec![suggestion("cat", 3, 1)]);
}

#[test]
fn short_words_meet_at_the_empty_variant() {
    let sym = SymSpell::from_iter(1, vec![("b".to_string(), 1)]);
    assert_eq!(sym.lookup("a", 1, Verbosity::All), vec![suggestion("b", 1, 1)]);
}

#[test]
fn transposed_letters_are_one_edit() {
    let sym = SymSpell::from_iter(1, vec![("form".to_string(), 1)]);
    assert_eq!(sym.lookup("from", 1, Verbosity::Top), vec![suggestion("form", 1, 1)]);
}

#[test]
fn words_are_compared_by_character() {
    let sym = SymSpell::from_iter(1, vec![("caf\u{e9}".to_string(), 2)]);
    assert_eq!(sym.lookup("cafe", 1, Verbosity::All), vec![suggestion("caf\u{e9}", 2, 1)]);
    assert_eq!(sym.lookup("caf", 1, Verbosity::All), vec![suggestion("caf\u{e9}", 2, 1)]);
}

#[test]
fn word_filed_under_no_probe_is_not_listed() {
    // "hello" is "helloo" without one letter, but the index files it only
    // under what is left of "hello" itself after a deletion.
    let sym = SymSpell::from_iter(1, vec![("hello".to_string(), 1)]);
    assert_eq!(damerau_levenshtein("helloo", "hello"), 1);
    assert!(sym.lookup("helloo", 1, Verbosity::All).is_empty());
    assert_eq!(sym.lookup("hell", 1, Verbosity::All), vec![suggestion("hello", 1, 1)]);
}
