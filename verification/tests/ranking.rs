use symspellrs::ranking::{keep_at_distance, rank, select, smallest_distance};
use symspellrs::{Suggestion, Verbosity};

fn suggestion(term: &str, frequency: usize, distance: u8) -> Suggestion {
    Suggestion { term: term.to_string(), frequency, distance }
}

fn found() -> Vec<Suggestion> {
    vec![
        suggestion("far", 90, 2),
        suggestion("rare", 1, 1),
        suggestion("first", 5, 1),
        suggestion("second", 5, 1),
        suggestion("common", 8, 1),
        suggestion("farther", 95, 2),
    ]
}

#[test]
fn all_ranks_by_distance_then_frequency() {
    assert_eq!(
        select(&found(), Verbosity::All),
        vec![
            suggestion("common", 8, 1),
            suggestion("first", 5, 1),
            suggestion("second", 5, 1),
            suggestion("rare", 1, 1),
            suggestion("farther", 95, 2),
            suggestion("far", 90, 2),
        ]
    );
    assert_eq!(rank(&found()), select(&found(), Verbosity::All));
}

#[test]
fn closest_keeps_the_nearest_only() {
    assert_eq!(
        select(&found(), Verbosity::Closest),
        vec![
            suggestion("common", 8, 1),
            suggestion("first", 5, 1),
            suggestion("second", 5, 1),
            suggestion("rare", 1, 1),
        ]
    );
}

#[test]
fn top_is_the_most_frequent_of_the_nearest() {
    assert_eq!(select(&found(), Verbosity::Top), vec![suggestion("common", 8, 1)]);
}

#[test]
fn top_breaks_ties_by_position() {
    let tied = vec![suggestion("first", 5, 1), suggestion("second", 5, 1)];
    assert_eq!(select(&tied, Verbosity::Top), vec![suggestion("first", 5, 1)]);
    let swapped = vec![suggestion("second", 5, 1), suggestion("first", 5, 1)];
    assert_eq!(select(&swapped, Verbosity::Top), vec![suggestion("second", 5, 1)]);
}

#[test]
fn nothing_found_gives_nothing() {
    let none: Vec<Suggestion> = Vec::new();
    assert!(select(&none, Verbosity::Top).is_empty());
    assert!(select(&none, Verbosity::Closest).is_empty());
    assert!(select(&none, Verbosity::All).is_empty());
    assert_eq!(smallest_distance(&none), 255);
}

#[test]
fn smallest_distance_and_its_members() {
    assert_eq!(smallest_distance(&found()), 1);
    assert_eq!(
        keep_at_distance(&found(), 2),
        vec![suggestion("far", 90, 2), suggestion("farther", 95, 2)]
    );
    assert!(keep_at_distance(&found(), 0).is_empty());
}

#[test]
fn exact_match_comes_before_everything() {
    let mixed = vec![suggestion("near", 1000, 1), suggestion("exact", 1, 0)];
    assert_eq!(select(&mixed, Verbosity::Top), vec![suggestion("exact", 1, 0)]);
    assert_eq!(select(&mixed, Verbosity::Closest), vec![suggestion("exact", 1, 0)]);
    assert_eq!(
        select(&mixed, Verbosity::All),
        vec![suggestion("exact", 1, 0), suggestion("near", 1000, 1)]
    );
}
