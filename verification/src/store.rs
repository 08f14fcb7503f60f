//! What a lookup reads: the frequency of a word, and the words filed under a
//! deletion variant.

use vstd::prelude::*;
use crate::text::words;

verus! {

/// The frequency that `dictionary` records for `word`, if any.
pub open spec fn recorded(dictionary: Map<Seq<char>, usize>, word: Seq<char>) -> Option<usize> {
    if dictionary.contains_key(word) {
        Some(dictionary[word])
    } else {
        None
    }
}

/// The words that `index` files under `variant`; none where it has no entry.
pub open spec fn listed(index: Map<Seq<char>, Seq<Seq<char>>>, variant: Seq<char>) -> Seq<
    Seq<char>,
> {
    if index.contains_key(variant) {
        index[variant]
    } else {
        Seq::empty()
    }
}

/// A dictionary with its deletion index, as far as a lookup reads them.
pub trait WordStore {
    /// The dictionary: each word with its frequency.
    spec fn frequencies(&self) -> Map<Seq<char>, usize>;

    /// The deletion index: each variant with the words filed under it.
    spec fn index(&self) -> Map<Seq<char>, Seq<Seq<char>>>;

    /// The frequency of `word`, if the dictionary holds it.
    fn frequency_of(&self, word: &str) -> (count: Option<usize>)
        ensures
            count == recorded(self.frequencies(), word@),
    ;

    /// The words filed under `variant`; none if the index has no such entry.
    fn candidates_for_variant(&self, variant: &str) -> (found: Vec<String>)
        ensures
            words(found@) == listed(self.index(), variant@),
    ;

    /// Whether the dictionary holds `word`.
    fn contains(&self, word: &str) -> (held: bool)
        ensures
            held == self.frequencies().contains_key(word@),
    ;
}

} // verus!
