use symspellrs::deletes::expand;
use symspellrs::generate_deletes;

fn strings(items: &[&str]) -> Vec<String> {
    items.iter().map(|s| s.to_string()).collect()
}

#[test]
fn one_deletion_by_position() {
    assert_eq!(generate_deletes("abc", 1), strings(&["bc", "ac", "ab"]));
}

#[test]
fn two_deletions_nearest_first_each_once() {
    assert_eq!(generate_deletes("abc", 2), strings(&["bc", "ac", "ab", "c", "b", "a"]));
}

#[test]
fn deletions_stop_at_the_empty_string() {
    assert_eq!(generate_deletes("ab", 2), strings(&["b", "a", ""]));
    assert_eq!(generate_deletes("ab", 9), strings(&["b", "a", ""]));
    assert_eq!(generate_deletes("a", 2), strings(&[""]));
    assert_eq!(generate_deletes("", 2), strings(&[]));
}

#[test]
fn no_deletion_allowed_gives_nothing() {
    assert_eq!(generate_deletes("hello", 0), strings(&[]));
}

#[test]
fn repeated_letters_give_each_variant_once() {
    assert_eq!(generate_deletes("aa", 1), strings(&["a"]));
    assert_eq!(generate_deletes("hello", 1), strings(&["ello", "hllo", "helo", "hell"]));
}

#[test]
fn deletions_remove_whole_characters() {
    assert_eq!(generate_deletes("\u{e9}a", 1), strings(&["a", "\u{e9}"]));
}

#[test]
fn expansion_starts_with_the_word() {
    assert_eq!(expand("abc", 1, None), strings(&["abc", "bc", "ac", "ab"]));
    assert_eq!(expand("abc", 0, None), strings(&["abc"]));
    assert_eq!(expand("", 3, None), strings(&[""]));
}

#[test]
fn expansion_stops_at_its_limit() {
    assert_eq!(expand("abc", 2, Some(0)), strings(&[]));
    assert_eq!(expand("abc", 2, Some(1)), strings(&["abc"]));
    assert_eq!(expand("abc", 2, Some(3)), strings(&["abc", "bc", "ac"]));
    assert_eq!(expand("abc", 2, Some(5)), strings(&["abc", "bc", "ac", "ab", "c"]));
    assert_eq!(expand("abc", 2, Some(7)), strings(&["abc", "bc", "ac", "ab", "c", "b", "a"]));
    assert_eq!(expand("abc", 2, Some(100)), strings(&["abc", "bc", "ac", "ab", "c", "b", "a"]));
}
