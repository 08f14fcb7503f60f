use symspellrs::embedded::shape_can_be_probed;
use symspellrs::ingest::parse_line;
use symspellrs::snapshot::BuildError;
use symspellrs::store::WordStore;
use symspellrs::{EmbeddedSymSpell, Snapshot, Suggestion, Verbosity};

const WORDS: &str = "# sample dictionary\nhello\nhell\nhelp\nworld\n\ntest\ntost\napplied\napple\napply\n";

fn keep<T>(items: Vec<T>) -> &'static [T] {
    Box::leak(items.into_boxed_slice())
}

fn keep_str(s: &str) -> &'static str {
    Box::leak(s.to_owned().into_boxed_str())
}

fn perfect_map<V: Clone>(entries: Vec<(&'static str, V)>) -> &'static phf::Map<&'static str, V> {
    if entries.is_empty() {
        return Box::leak(Box::new(phf::Map::new()));
    }
    let keys: Vec<&'static str> = entries.iter().map(|e| e.0).collect();
    let state = phf_generator::generate_hash(&keys);
    let placed: Vec<(&'static str, V)> = state.map.iter().map(|&i| entries[i].clone()).collect();
    Box::leak(Box::new(phf::Map {
        key: state.key,
        disps: keep(state.disps),
        entries: keep(placed),
    }))
}

fn freeze(snapshot: &Snapshot) -> EmbeddedSymSpell {
    let dict: Vec<(&'static str, usize)> = snapshot
        .dictionary
        .iter()
        .map(|(word, frequency)| (keep_str(word), *frequency))
        .collect();
    let deletes: Vec<(&'static str, &'static [&'static str])> = snapshot
        .deletes
        .iter()
        .map(|(variant, words)| {
            let words: Vec<&'static str> = words.iter().map(|w| keep_str(w)).collect();
            (keep_str(variant), keep(words))
        })
        .collect();
    EmbeddedSymSpell::try_from_phf(snapshot.max_distance, perfect_map(dict), perfect_map(deletes))
        .expect("maps that can be probed")
}

fn embedded_from_text(text: &str, max_distance: u8, lowercase: bool) -> EmbeddedSymSpell {
    let mut entries: Vec<(String, usize)> = Vec::new();
    for line in text.lines() {
        if let Some(entry) = parse_line(line, false, lowercase).expect("a valid line") {
            entries.push(entry);
        }
    }
    let snapshot = Snapshot::build(max_distance, &entries, 100_000).expect("a snapshot");
    freeze(&snapshot)
}

fn maps_of(
    snapshot: &Snapshot,
) -> (
    &'static phf::Map<&'static str, usize>,
    &'static phf::Map<&'static str, &'static [&'static str]>,
) {
    let frozen = freeze(snapshot);
    (frozen.dict_map(), frozen.deletes_map())
}

fn owned(entries: &[(&str, usize)]) -> Vec<(String, usize)> {
    entries.iter().map(|(w, f)| (w.to_string(), *f)).collect()
}

fn embedded_from_entries(entries: &[(&str, usize)], max_distance: u8) -> EmbeddedSymSpell {
    let entries = owned(entries);
    let snapshot = Snapshot::build(max_distance, &entries, 100_000).expect("a snapshot");
    let (dict, deletes) = maps_of(&snapshot);
    EmbeddedSymSpell::from_batch(max_distance, &entries, 100_000, dict, deletes)
        .expect("maps that hold the snapshot")
}

fn suggestion(term: &str, frequency: usize, distance: u8) -> Suggestion {
    Suggestion { term: term.to_string(), frequency, distance }
}

#[test]
fn test_include_macro_basic_lookup() {
    let sym = embedded_from_text(WORDS, 2, true);

    let top = sym.lookup("world", 2, Verbosity::Top);
    assert_eq!(top.len(), 1);
    assert_eq!(top[0].term, "world");
    assert_eq!(top[0].distance, 0);
    assert_eq!(top[0].frequency, 1);

    let suggestions = sym.lookup("helo", 2, Verbosity::Closest);
    assert!(suggestions.iter().any(|s| s.term == "hello"));
}

#[test]
fn test_include_macro_closest_multiple() {
    let sym = embedded_from_text(WORDS, 2, true);

    let closest = sym.lookup("appl", 2, Verbosity::Closest);
    let terms: Vec<&str> = closest.iter().map(|s| s.term.as_str()).collect();

    assert!(terms.contains(&"apple"));
    assert!(terms.contains(&"apply"));
}

#[test]
fn test_include_macro_all_and_ordering() {
    let sym = embedded_from_text(WORDS, 2, true);

    let all = sym.lookup("teso", 2, Verbosity::All);
    assert!(!all.is_empty());

    let first = &all[0];
    assert!(first.distance <= 2);
    assert!(all.iter().any(|s| s.term == "test"));
}

#[test]
fn embedded_all_is_exactly_ranked() {
    let sym = embedded_from_text(WORDS, 2, true);
    let all = sym.lookup("teso", 2, Verbosity::All);
    assert_eq!(all, vec![suggestion("test", 1, 1), suggestion("tost", 1, 2)]);
}

#[test]
fn embedded_batch_adds_up_repeated_words() {
    let sym = embedded_from_entries(&[("apple", 2), ("apple", 3)], 2);
    assert_eq!(sym.frequency("apple"), Some(5));
    assert_eq!(sym.lookup("apple", 2, Verbosity::Top), vec![suggestion("apple", 5, 0)]);
}

#[test]
fn embedded_reads_match_the_snapshot() {
    let sym = embedded_from_entries(&[("hello", 7), ("help", 3)], 1);
    assert_eq!(sym.max_distance(), 1);
    assert!(sym.contains("hello"));
    assert!(!sym.contains("hell"));
    assert!(WordStore::contains(&sym, "help"));
    assert_eq!(sym.frequency("help"), Some(3));
    assert_eq!(sym.frequency("hel"), None);
    assert_eq!(sym.frequency_or_zero("hello"), 7);
    assert_eq!(sym.frequency_or_zero("nothing"), 0);
    assert_eq!(sym.frequency_of("hello"), Some(7));
    assert_eq!(sym.candidates_for_deletion("hel"), Some(&["help"][..]));
    assert_eq!(sym.candidates_for_deletion("hell"), Some(&["hello"][..]));
    assert_eq!(sym.candidates_for_deletion("help"), None);
    assert_eq!(sym.candidates_for_variant("hel"), vec!["help".to_string()]);
    assert!(sym.candidates_for_variant("xyz").is_empty());
    assert_eq!(sym.dict_map().len(), 2);
    assert_eq!(sym.dict_map().get("hello"), Some(&7));
    assert_eq!(sym.deletes_map().len(), 8);
}

#[test]
fn embedded_shorthands_use_the_configured_distance() {
    let sym = embedded_from_entries(&[("hello", 100), ("hell", 50), ("help", 10), ("world", 200)], 2);
    assert_eq!(sym.find_top("helo"), Some(suggestion("hello", 100, 1)));
    assert_eq!(sym.find_top("zzzzzz"), None);
    assert_eq!(sym.find_top(""), None);
    assert_eq!(
        sym.find_closest("helo"),
        vec![suggestion("hello", 100, 1), suggestion("hell", 50, 1), suggestion("help", 10, 1)]
    );
    assert_eq!(sym.find_closest("helo"), sym.lookup("helo", 2, Verbosity::Closest));
    assert_eq!(sym.find_all("helo"), sym.lookup("helo", 2, Verbosity::All));
    assert_eq!(sym.find_all("helo"), sym.lookup("helo", 9, Verbosity::All));
}

#[test]
fn embedded_exact_match_still_lists_the_others_under_all() {
    let sym = embedded_from_entries(&[("hello", 100), ("hell", 50), ("help", 10)], 2);
    assert_eq!(sym.lookup("hell", 2, Verbosity::Top), vec![suggestion("hell", 50, 0)]);
    assert_eq!(sym.lookup("hell", 2, Verbosity::Closest), vec![suggestion("hell", 50, 0)]);
    assert_eq!(
        sym.lookup("hell", 2, Verbosity::All),
        vec![suggestion("hell", 50, 0), suggestion("hello", 100, 1), suggestion("help", 10, 1)]
    );
}

#[test]
fn embedded_candidate_without_a_frequency_counts_as_zero() {
    let dict = perfect_map(vec![("hello", 4usize)]);
    let deletes: &'static phf::Map<&'static str, &'static [&'static str]> =
        perfect_map(vec![("helo", keep(vec!["hello", "helot"]))]);
    let sym = EmbeddedSymSpell::from_phf(1, dict, deletes);
    assert_eq!(
        sym.lookup("helo", 1, Verbosity::All),
        vec![suggestion("hello", 4, 1), suggestion("helot", 0, 1)]
    );
}

#[test]
fn embedded_empty_store_finds_nothing() {
    let sym = embedded_from_entries(&[], 2);
    assert!(sym.lookup("hello", 2, Verbosity::All).is_empty());
    assert_eq!(sym.frequency("hello"), None);
    assert_eq!(sym.candidates_for_deletion("hell"), None);
}

#[test]
fn snapshot_lists_words_and_variants_in_the_order_met() {
    let entries = vec![
        ("ab".to_string(), 2usize),
        ("".to_string(), 9usize),
        ("ba".to_string(), 1usize),
        ("ab".to_string(), 5usize),
    ];
    let snapshot = Snapshot::build(2, &entries, 100).expect("a snapshot");
    assert_eq!(snapshot.max_distance, 2);
    assert_eq!(snapshot.dictionary, vec![("ab".to_string(), 7), ("ba".to_string(), 1)]);
    let deletes: Vec<(&str, Vec<&str>)> = snapshot
        .deletes
        .iter()
        .map(|(v, ws)| (v.as_str(), ws.iter().map(|w| w.as_str()).collect()))
        .collect();
    assert_eq!(
        deletes,
        vec![("b", vec!["ab", "ba"]), ("a", vec!["ab", "ba"]), ("", vec!["ab", "ba"])]
    );
}

#[test]
fn snapshot_refuses_a_sum_that_does_not_fit() {
    let entries = vec![("apple".to_string(), usize::MAX), ("apple".to_string(), 1usize)];
    assert_eq!(Snapshot::build(2, &entries, 100).err(), Some(BuildError::FrequencyOverflow));
    let fits = vec![("apple".to_string(), usize::MAX - 1), ("apple".to_string(), 1usize)];
    let snapshot = Snapshot::build(2, &fits, 100).expect("a snapshot");
    assert_eq!(snapshot.dictionary, vec![("apple".to_string(), usize::MAX)]);
}

#[test]
fn snapshot_refuses_too_large_an_index() {
    // "ab" and "ba" have three deletion variants each within two deletions.
    let entries = vec![("ab".to_string(), 1usize), ("ba".to_string(), 1usize)];
    assert_eq!(Snapshot::build(2, &entries, 5).err(), Some(BuildError::TooManyDeletes));
    assert!(Snapshot::build(2, &entries, 6).is_ok());
    let overflowing = vec![
        ("ab".to_string(), usize::MAX),
        ("ab".to_string(), usize::MAX),
        ("ba".to_string(), 1usize),
    ];
    assert_eq!(Snapshot::build(2, &overflowing, 0).err(), Some(BuildError::FrequencyOverflow));
}

#[test]
fn sums_list_each_word_once() {
    let entries = vec![
        ("pear".to_string(), 1usize),
        ("apple".to_string(), 2usize),
        ("".to_string(), 4usize),
        ("pear".to_string(), 10usize),
        ("apple".to_string(), 3usize),
    ];
    assert_eq!(
        symspellrs::snapshot::sum_entries(&entries),
        Some(vec![("pear".to_string(), 11), ("apple".to_string(), 5)])
    );
    let too_much = vec![("pear".to_string(), usize::MAX), ("pear".to_string(), 1usize)];
    assert_eq!(symspellrs::snapshot::sum_entries(&too_much), None);
    assert_eq!(symspellrs::snapshot::sum_entries(&Vec::new()), Some(Vec::new()));
}

#[test]
fn store_is_made_only_of_maps_that_can_be_probed() {
    let dict = perfect_map(vec![("hello", 4usize)]);
    let deletes: &'static phf::Map<&'static str, &'static [&'static str]> =
        perfect_map(vec![("helo", keep(vec!["hello"]))]);
    let empty_dict: &'static phf::Map<&'static str, usize> = perfect_map(Vec::new());
    let empty_deletes: &'static phf::Map<&'static str, &'static [&'static str]> =
        perfect_map(Vec::new());
    // Displacement pairs and no slot: probing such a map would not return.
    let broken_dict: &'static phf::Map<&'static str, usize> =
        Box::leak(Box::new(phf::Map { key: 0, disps: keep(vec![(0u32, 0u32)]), entries: &[] }));
    let broken_deletes: &'static phf::Map<&'static str, &'static [&'static str]> =
        Box::leak(Box::new(phf::Map { key: 0, disps: keep(vec![(0u32, 0u32)]), entries: &[] }));

    assert!(EmbeddedSymSpell::try_from_phf(2, dict, deletes).is_some());
    assert!(EmbeddedSymSpell::try_from_phf(2, empty_dict, empty_deletes).is_some());
    assert!(EmbeddedSymSpell::try_from_phf(2, dict, empty_deletes).is_some());
    assert!(EmbeddedSymSpell::try_from_phf(2, broken_dict, deletes).is_none());
    assert!(EmbeddedSymSpell::try_from_phf(2, dict, broken_deletes).is_none());
    assert!(EmbeddedSymSpell::try_from_phf(2, broken_dict, broken_deletes).is_none());

    let sym = EmbeddedSymSpell::from_phf(2, dict, deletes);
    assert_eq!(sym.max_distance(), 2);
    assert_eq!(sym.lookup("helo", 2, Verbosity::All), vec![suggestion("hello", 4, 1)]);
}

#[test]
fn shapes_that_can_be_probed() {
    assert!(shape_can_be_probed(0, 0));
    assert!(shape_can_be_probed(0, 7));
    assert!(shape_can_be_probed(1, 1));
    assert!(shape_can_be_probed(3, 11));
    assert!(!shape_can_be_probed(1, 0));
    assert!(shape_can_be_probed(0xffff_ffff, 0xffff_ffff));
    if usize::BITS > 32 {
        let wide = (1u64 << 32) as usize;
        assert!(!shape_can_be_probed(wide, 1));
        assert!(!shape_can_be_probed(1, wide));
        assert!(shape_can_be_probed(0, wide));
    }
}

#[test]
fn store_of_a_batch_holds_the_sums() {
    let entries = owned(&[("apple", 2), ("pear", 1), ("apple", 3), ("", 9)]);
    let snapshot = Snapshot::build(2, &entries, 100_000).expect("a snapshot");
    let (dict, deletes) = maps_of(&snapshot);
    let sym = EmbeddedSymSpell::from_batch(2, &entries, 100_000, dict, deletes)
        .expect("maps that hold the snapshot");
    assert_eq!(sym.frequency("apple"), Some(5));
    assert_eq!(sym.frequency("pear"), Some(1));
    assert_eq!(sym.frequency(""), None);
    assert_eq!(sym.frequency("plum"), None);
    assert_eq!(sym.max_distance(), 2);
}

#[test]
fn store_of_a_batch_refuses_other_maps() {
    let entries = owned(&[("apple", 2), ("apple", 3), ("pear", 1)]);
    let snapshot = Snapshot::build(1, &entries, 100_000).expect("a snapshot");
    let (dict, deletes) = maps_of(&snapshot);
    assert!(EmbeddedSymSpell::from_batch(1, &entries, 100_000, dict, deletes).is_some());

    // The index was built for another distance.
    assert!(EmbeddedSymSpell::from_batch(2, &entries, 100_000, dict, deletes).is_none());
    // The snapshot cannot be built.
    assert!(EmbeddedSymSpell::from_batch(1, &entries, 3, dict, deletes).is_none());
    // A frequency is the last one given, not the sum.
    let last_wins = perfect_map(vec![("apple", 3usize), ("pear", 1usize)]);
    assert!(EmbeddedSymSpell::from_batch(1, &entries, 100_000, last_wins, deletes).is_none());
    // The dictionary holds a word more, or a word less.
    let more = perfect_map(vec![("apple", 5usize), ("pear", 1usize), ("plum", 1usize)]);
    assert!(EmbeddedSymSpell::from_batch(1, &entries, 100_000, more, deletes).is_none());
    let less = perfect_map(vec![("apple", 5usize)]);
    assert!(EmbeddedSymSpell::from_batch(1, &entries, 100_000, less, deletes).is_none());
    // The index of other words.
    let others = Snapshot::build(1, &owned(&[("apply", 1), ("pear", 1)]), 100_000)
        .expect("a snapshot");
    let (_, other_deletes) = maps_of(&others);
    assert!(EmbeddedSymSpell::from_batch(1, &entries, 100_000, dict, other_deletes).is_none());
    // A variant with its words in another order.
    let swapped = Snapshot::build(1, &owned(&[("ab", 1), ("ac", 1)]), 100_000)
        .expect("a snapshot");
    let (swapped_dict, _) = maps_of(&swapped);
    let reordered: &'static phf::Map<&'static str, &'static [&'static str]> = perfect_map(vec![
        ("b", keep(vec!["ab"])),
        ("a", keep(vec!["ac", "ab"])),
        ("c", keep(vec!["ac"])),
    ]);
    assert!(EmbeddedSymSpell::from_batch(
        1,
        &owned(&[("ab", 1), ("ac", 1)]),
        100_000,
        swapped_dict,
        reordered
    )
    .is_none());
    // Maps that cannot be probed.
    let broken: &'static phf::Map<&'static str, usize> =
        Box::leak(Box::new(phf::Map { key: 0, disps: keep(vec![(0u32, 0u32)]), entries: &[] }));
    assert!(EmbeddedSymSpell::from_batch(1, &entries, 100_000, broken, deletes).is_none());
}

#[test]
fn deletes_are_counted_once_for_each_word() {
    let dictionary = owned(&[("ab", 1), ("ba", 1), ("abc", 1)]);
    assert_eq!(symspellrs::snapshot::count_deletes(&dictionary, 0), Some(0));
    assert_eq!(symspellrs::snapshot::count_deletes(&dictionary, 1), Some(7));
    assert_eq!(symspellrs::snapshot::count_deletes(&dictionary, 2), Some(12));
    assert_eq!(symspellrs::snapshot::count_deletes(&Vec::new(), 2), Some(0));
}
