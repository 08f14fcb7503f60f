//! Building a fixed dictionary in one go: the frequencies of a word that
//! occurs several times are added up, and the deletion index is built once,
//! by the rule that loading word by word follows.

use vstd::hash_map::StringHashMap;
use vstd::prelude::*;
use crate::deletes::{
    absorb, absorb_each, deletion_variants, generate_deletes, lemma_absorb_each_contains, with_new,
};
use crate::index::{copy_words, file_under, filed, filed_words, lemma_filed_step};
use crate::symspell::{
    consistent, lemma_load_keeps_consistent, loaded_frequencies, loaded_index,
};
use crate::text::{entries_of, lemma_push_contains, words};

verus! {

/// A dictionary and its deletion index as plain lists, ready to be frozen
/// into a fixed store.
pub struct Snapshot {
    /// The distance for which the deletion index was built.
    pub max_distance: u8,
    /// Each word, once, with its frequency.
    pub dictionary: Vec<(String, usize)>,
    /// Each deletion variant, once, with the words filed under it.
    pub deletes: Vec<(String, Vec<String>)>,
}

/// Why no snapshot was built.
#[derive(Debug, Clone, Copy, PartialEq, Eq)]
pub enum BuildError {
    /// The frequencies of some word add up to more than a `usize` holds.
    FrequencyOverflow,
    /// The deletion index would hold more entries than the caller allows.
    TooManyDeletes,
}

/// What each of `groups` stands for.
pub open spec fn groups_of(groups: Seq<(String, Vec<String>)>) -> Seq<(Seq<char>, Seq<Seq<char>>)> {
    groups.map_values(|g: (String, Vec<String>)| (g.0@, words(g.1@)))
}

/// The words of `entries`, in their order.
pub open spec fn listed_words(entries: Seq<(Seq<char>, usize)>) -> Seq<Seq<char>> {
    entries.map_values(|e: (Seq<char>, usize)| e.0)
}

/// The words of `entries` that are not empty, each once, in the order of
/// their first occurrence.
pub open spec fn distinct_words(entries: Seq<(Seq<char>, usize)>) -> Seq<Seq<char>>
    decreases entries.len(),
{
    if entries.len() == 0 {
        Seq::empty()
    } else {
        let before = distinct_words(entries.drop_last());
        if entries.last().0.len() == 0 {
            before
        } else {
            with_new(before, entries.last().0)
        }
    }
}

/// The frequency of `word` in `totals`; zero where it has none.
pub open spec fn total_of(totals: Map<Seq<char>, nat>, word: Seq<char>) -> nat {
    if totals.contains_key(word) {
        totals[word]
    } else {
        0
    }
}

/// Each word of `entries` that is not empty, with the sum of the frequencies
/// that `entries` give it.
pub open spec fn summed(entries: Seq<(Seq<char>, usize)>) -> Map<Seq<char>, nat>
    decreases entries.len(),
{
    if entries.len() == 0 {
        Map::empty()
    } else {
        let before = summed(entries.drop_last());
        let word = entries.last().0;
        if word.len() == 0 {
            before
        } else {
            before.insert(word, (total_of(before, word) + entries.last().1) as nat)
        }
    }
}

/// Whether every sum of frequencies fits a `usize`.
pub open spec fn sums_fit(entries: Seq<(Seq<char>, usize)>) -> bool {
    forall|w: Seq<char>| #[trigger]
        summed(entries).contains_key(w) ==> summed(entries)[w] <= usize::MAX
}

/// How many entries the deletion index of `words` has, counting a variant
/// once for each word that has it.
pub open spec fn variant_total(words: Seq<Seq<char>>, n: u8) -> nat
    decreases words.len(),
{
    if words.len() == 0 {
        0
    } else {
        variant_total(words.drop_last(), n) + deletion_variants(words.last(), n as nat).len()
    }
}

/// The deletion variants of `words`, each once, in the order in which going
/// through the words meets them.
pub open spec fn variant_keys(words: Seq<Seq<char>>, n: u8) -> Seq<Seq<char>> {
    absorb_each(Seq::empty(), words.map_values(|w: Seq<char>| deletion_variants(w, n as nat)))
}

/// The deletion index of `words` for the distance `n`: each word filed, in
/// turn, under each of its deletion variants.
pub open spec fn built_index(words: Seq<Seq<char>>, n: u8) -> Map<Seq<char>, Seq<Seq<char>>>
    decreases words.len(),
{
    if words.len() == 0 {
        Map::empty()
    } else {
        filed(
            built_index(words.drop_last(), n),
            deletion_variants(words.last(), n as nat),
            words.last(),
        )
    }
}

/// The dictionary of a snapshot of `entries`.
pub open spec fn snapshot_dictionary(entries: Seq<(Seq<char>, usize)>) -> Seq<(Seq<char>, usize)> {
    distinct_words(entries).map_values(|w: Seq<char>| (w, summed(entries)[w] as usize))
}

/// The deletion index of a snapshot of `entries` for the distance `n`.
pub open spec fn snapshot_deletes(entries: Seq<(Seq<char>, usize)>, n: u8) -> Seq<
    (Seq<char>, Seq<Seq<char>>),
> {
    let words = distinct_words(entries);
    variant_keys(words, n).map_values(|v: Seq<char>| (v, built_index(words, n)[v]))
}

/// The dictionary of a snapshot of `entries` as a map: each word of the
/// entries that is not empty, with the sum of its frequencies.
pub open spec fn snapshot_frequencies(entries: Seq<(Seq<char>, usize)>) -> Map<Seq<char>, usize> {
    Map::new(
        |w: Seq<char>| summed(entries).contains_key(w),
        |w: Seq<char>| summed(entries)[w] as usize,
    )
}

/// What building a snapshot of `entries` gives.
pub open spec fn snapshot_outcome(
    entries: Seq<(Seq<char>, usize)>,
    n: u8,
    max_deletes: usize,
) -> Result<(Seq<(Seq<char>, usize)>, Seq<(Seq<char>, Seq<Seq<char>>)>), BuildError> {
    if !sums_fit(entries) {
        Err(BuildError::FrequencyOverflow)
    } else if variant_total(distinct_words(entries), n) > max_deletes {
        Err(BuildError::TooManyDeletes)
    } else {
        Ok((snapshot_dictionary(entries), snapshot_deletes(entries, n)))
    }
}

/// The words with a sum are the distinct words, and a sum only grows as
/// entries are added.
pub proof fn lemma_summed_grows(entries: Seq<(Seq<char>, usize)>, i: int, w: Seq<char>)
    requires
        0 <= i <= entries.len(),
    ensures
        summed(entries).contains_key(w) <==> distinct_words(entries).contains(w),
        summed(entries.take(i)).contains_key(w) ==> summed(entries).contains_key(w),
        total_of(summed(entries.take(i)), w) <= total_of(summed(entries), w),
    decreases entries.len(),
{
    if entries.len() == 0 {
        assert(entries.take(i) =~= entries);
    } else {
        let front = entries.drop_last();
        lemma_summed_grows(front, front.len() as int, w);
        let before = distinct_words(front);
        if entries.last().0.len() > 0 && !before.contains(entries.last().0) {
            let grown = before.push(entries.last().0);
            assert(grown[before.len() as int] == entries.last().0);
            if before.contains(w) {
                let k = choose|k: int| 0 <= k < before.len() && before[k] == w;
                assert(grown[k] == w);
            }
            if grown.contains(w) {
                let k = choose|k: int| 0 <= k < grown.len() && grown[k] == w;
                if k < before.len() {
                    assert(before[k] == w);
                }
            }
        }
        if i == entries.len() {
            assert(entries.take(i) =~= entries);
        } else {
            lemma_summed_grows(front, i, w);
            assert(front.take(i) =~= entries.take(i));
        }
    }
}

/// The count of variants only grows as words are added.
pub proof fn lemma_variant_total_grows(words: Seq<Seq<char>>, n: u8, i: int)
    requires
        0 <= i <= words.len(),
    ensures
        variant_total(words.take(i), n) <= variant_total(words, n),
    decreases words.len(),
{
    if i == words.len() {
        assert(words.take(i) =~= words);
    } else {
        lemma_variant_total_grows(words.drop_last(), n, i);
        assert(words.drop_last().take(i) =~= words.take(i));
    }
}

/// A snapshot and a dictionary that grew from the same entries have the same
/// deletion index and hold the same words: building in one go and loading
/// one by one follow one rule, and differ only in the frequency of a word
/// that occurs more than once.
pub proof fn lemma_snapshot_index_is_loaded_index(entries: Seq<(Seq<char>, usize)>, n: u8)
    ensures
        built_index(distinct_words(entries), n) == loaded_index(Map::empty(), n, entries),
        consistent(
            loaded_frequencies(Map::empty(), entries),
            loaded_index(Map::empty(), n, entries),
            n,
        ),
        forall|w: Seq<char>|
            loaded_frequencies(Map::empty(), entries).contains_key(w) <==> distinct_words(
                entries,
            ).contains(w),
    decreases entries.len(),
{
    if entries.len() > 0 {
        let front = entries.drop_last();
        let word = entries.last().0;
        lemma_snapshot_index_is_loaded_index(front, n);
        if word.len() > 0 {
            let held = loaded_frequencies(Map::empty(), front);
            let index = loaded_index(Map::empty(), n, front);
            let known = distinct_words(front);
            let variants = deletion_variants(word, n as nat);
            lemma_load_keeps_consistent(held, index, n, word, entries.last().1);
            assert forall|w: Seq<char>|
                loaded_frequencies(Map::empty(), entries).contains_key(w) <==> distinct_words(
                    entries,
                ).contains(w) by {
                lemma_push_contains(known, word, w);
            }
            if known.contains(word) {
                assert(held.contains_key(word));
                assert forall|v: Seq<char>| variants.contains(v) implies index.contains_key(v)
                    && index[v].contains(word) by {
                    assert(deletion_variants(word, n as nat).contains(v));
                }
                assert(filed(index, variants, word) =~= index);
            } else {
                assert(known.push(word).drop_last() =~= known);
            }
        }
    }
}

/// The distinct words are distinct.
pub proof fn lemma_distinct_words_distinct(entries: Seq<(Seq<char>, usize)>)
    ensures
        distinct_words(entries).no_duplicates(),
    decreases entries.len(),
{
    if entries.len() > 0 {
        lemma_distinct_words_distinct(entries.drop_last());
    }
}

/// The deletion index of some words has an entry for exactly their
/// deletion variants.
pub proof fn lemma_built_index_keys(words: Seq<Seq<char>>, n: u8, v: Seq<char>)
    ensures
        built_index(words, n).contains_key(v) <==> variant_keys(words, n).contains(v),
    decreases words.len(),
{
    let groups = words.map_values(|w: Seq<char>| deletion_variants(w, n as nat));
    lemma_absorb_each_contains(Seq::empty(), groups, v);
    if words.len() > 0 {
        let front = words.drop_last();
        let before = front.map_values(|w: Seq<char>| deletion_variants(w, n as nat));
        lemma_built_index_keys(front, n, v);
        lemma_absorb_each_contains(Seq::empty(), before, v);
        assert(groups.drop_last() =~= before);
        assert(groups.last() == deletion_variants(words.last(), n as nat));
        if exists|p: int| 0 <= p < before.len() && #[trigger] before[p].contains(v) {
            let p = choose|p: int| 0 <= p < before.len() && #[trigger] before[p].contains(v);
            assert(groups[p].contains(v));
        }
        if exists|p: int| 0 <= p < groups.len() && #[trigger] groups[p].contains(v) {
            let p = choose|p: int| 0 <= p < groups.len() && #[trigger] groups[p].contains(v);
            if p < before.len() {
                assert(before[p].contains(v));
            }
        }
        if deletion_variants(words.last(), n as nat).contains(v) {
            assert(groups[groups.len() - 1].contains(v));
        }
    }
}

/// A word of the entries has the sum of its frequencies in the dictionary
/// of their snapshot, and no other word is in it.
pub proof fn lemma_snapshot_frequency(entries: Seq<(Seq<char>, usize)>, w: Seq<char>)
    ensures
        snapshot_frequencies(entries).contains_key(w) <==> distinct_words(entries).contains(w),
        snapshot_frequencies(entries).contains_key(w) ==> snapshot_frequencies(entries)[w]
            == summed(entries)[w] as usize,
{
    lemma_summed_grows(entries, 0, w);
}

/// Adds up the frequencies of each word of `entries`. It hands back the
/// distinct words in the order of their first occurrence and the sums, or
/// nothing if a sum does not fit.
fn sum_frequencies(entries: &Vec<(String, usize)>) -> (r: Option<
    (Vec<String>, StringHashMap<usize>),
>)
    ensures
        match r {
            Some((order, sums)) => {
                &&& sums_fit(entries_of(entries@))
                &&& words(order@) == distinct_words(entries_of(entries@))
                &&& forall|w: Seq<char>|
                    sums@.contains_key(w) <==> summed(entries_of(entries@)).contains_key(w)
                &&& forall|w: Seq<char>| #[trigger]
                    sums@.contains_key(w) ==> sums@[w] == summed(entries_of(entries@))[w]
            },
            None => !sums_fit(entries_of(entries@)),
        },
{
    let ghost all = entries_of(entries@);
    let mut order: Vec<String> = Vec::new();
    let mut sums: StringHashMap<usize> = StringHashMap::new();
    assert(all.take(0) =~= Seq::empty());
    assert(words(order@) =~= distinct_words(all.take(0)));
    for i in 0..entries.len()
        invariant
            all == entries_of(entries@),
            words(order@) == distinct_words(all.take(i as int)),
            forall|w: Seq<char>|
                sums@.contains_key(w) <==> summed(all.take(i as int)).contains_key(w),
            forall|w: Seq<char>| #[trigger]
                sums@.contains_key(w) ==> sums@[w] == summed(all.take(i as int))[w],
    {
        let ghost done = all.take(i as int);
        let ghost next = all.take(i + 1);
        assert(next.drop_last() =~= done);
        assert(next.last() == all[i as int]);
        let word: &str = entries[i].0.as_str();
        let frequency: usize = entries[i].1;
        assert(word@ == all[i as int].0);
        proof {
            lemma_summed_grows(done, done.len() as int, word@);
        }
        if !word.is_empty() {
            match sums.get(word) {
                Some(held) => {
                    let so_far: usize = *held;
                    if frequency > usize::MAX - so_far {
                        proof {
                            lemma_summed_grows(all, i + 1, word@);
                            assert(summed(next).contains_key(word@));
                            assert(summed(all).contains_key(word@));
                        }
                        return None;
                    }
                    sums.insert(word.to_owned(), so_far + frequency);
                },
                None => {
                    let ghost held = words(order@);
                    order.push(word.to_owned());
                    assert(words(order@) =~= held.push(word@));
                    sums.insert(word.to_owned(), frequency);
                },
            }
        }
    }
    assert(all.take(entries.len() as int) =~= all);
    assert forall|w: Seq<char>| #[trigger] summed(all).contains_key(w) implies summed(all)[w]
        <= usize::MAX by {
        assert(sums@.contains_key(w));
        assert(sums@[w] == summed(all)[w]);
    }
    Some((order, sums))
}

/// Builds the deletion index of the words of `dictionary` for the distance
/// `n`. It hands back
/// the variants in the order in which they were met and the index, or nothing
/// if the index would hold more than `max_deletes` entries.
fn index_words(dictionary: &Vec<(String, usize)>, n: u8, max_deletes: usize) -> (r: Option<
    (Vec<String>, StringHashMap<Vec<String>>),
>)
    ensures
        match r {
            Some((keys, deletes)) => {
                &&& variant_total(listed_words(entries_of(dictionary@)), n) <= max_deletes
                &&& words(keys@) == variant_keys(listed_words(entries_of(dictionary@)), n)
                &&& filed_words(deletes@) == built_index(listed_words(entries_of(dictionary@)), n)
                &&& forall|v: Seq<char>| words(keys@).contains(v) <==> deletes@.contains_key(v)
            },
            None => variant_total(listed_words(entries_of(dictionary@)), n) > max_deletes,
        },
{
    let ghost all = listed_words(entries_of(dictionary@));
    let ghost groups = all.map_values(|w: Seq<char>| deletion_variants(w, n as nat));
    let mut keys: Vec<String> = Vec::new();
    let mut deletes: StringHashMap<Vec<String>> = StringHashMap::new();
    let mut total: usize = 0;
    assert(all.take(0) =~= Seq::empty());
    assert(groups.take(0) =~= Seq::empty());
    assert(words(keys@) =~= Seq::empty());
    assert(filed_words(deletes@) =~= built_index(all.take(0), n));
    for i in 0..dictionary.len()
        invariant
            all == listed_words(entries_of(dictionary@)),
            groups == all.map_values(|w: Seq<char>| deletion_variants(w, n as nat)),
            total == variant_total(all.take(i as int), n),
            total <= max_deletes,
            words(keys@) == absorb_each(Seq::empty(), groups.take(i as int)),
            filed_words(deletes@) == built_index(all.take(i as int), n),
            forall|v: Seq<char>| words(keys@).contains(v) <==> deletes@.contains_key(v),
    {
        let word: &str = dictionary[i].0.as_str();
        assert(all[i as int] == word@);
        let variants: Vec<String> = generate_deletes(word, n);
        let ghost found = words(variants@);
        assert(all.take(i + 1).drop_last() =~= all.take(i as int));
        assert(groups.take(i + 1).drop_last() =~= groups.take(i as int));
        assert(found == groups[i as int]);
        if variants.len() > max_deletes - total {
            proof {
                lemma_variant_total_grows(all, n, i + 1);
            }
            return None;
        }
        total = total + variants.len();
        let ghost base = filed_words(deletes@);
        let ghost known = words(keys@);
        assert(found.take(0) =~= Seq::empty());
        assert(filed_words(deletes@) =~= filed(base, found.take(0), word@));
        for k in 0..variants.len()
            invariant
                found == words(variants@),
                words(keys@) == absorb(known, found.take(k as int)),
                filed_words(deletes@) == filed(base, found.take(k as int), word@),
                forall|v: Seq<char>| words(keys@).contains(v) <==> deletes@.contains_key(v),
        {
            let variant: &str = variants[k].as_str();
            let ghost held = words(keys@);
            if !deletes.contains_key(variant) {
                keys.push(variants[k].clone());
                assert(words(keys@) =~= held.push(variant@));
            }
            assert(words(keys@) == with_new(held, variant@));
            file_under(&mut deletes, variant, word);
            proof {
                assert(found.take(k + 1).drop_last() =~= found.take(k as int));
                lemma_filed_step(base, found.take(k + 1), word@);
                assert forall|v: Seq<char>|
                    words(keys@).contains(v) <==> deletes@.contains_key(v) by {
                    lemma_push_contains(held, variant@, v);
                    assert(filed_words(deletes@).contains_key(v) <==> deletes@.contains_key(v));
                }
            }
        }
        assert(found.take(variants.len() as int) =~= found);
    }
    assert(all.take(dictionary.len() as int) =~= all);
    assert(groups.take(dictionary.len() as int) =~= groups);
    Some((keys, deletes))
}

/// Adds up the frequencies that `entries` give each word and lists each word
/// once, in the order of first occurrence, with its sum. An entry with an
/// empty word is passed over. Nothing is listed if a sum does not fit a
/// `usize`.
pub fn sum_entries(entries: &Vec<(String, usize)>) -> (r: Option<Vec<(String, usize)>>)
    ensures
        match r {
            Some(dictionary) => sums_fit(entries_of(entries@)) && entries_of(dictionary@)
                == snapshot_dictionary(entries_of(entries@)),
            None => !sums_fit(entries_of(entries@)),
        },
{
    let ghost all = entries_of(entries@);
    let (order, sums) = match sum_frequencies(entries) {
        Some(summed) => summed,
        None => {
            return None;
        },
    };
    let ghost distinct = words(order@);
    let mut dictionary: Vec<(String, usize)> = Vec::new();
    assert(entries_of(dictionary@) =~= snapshot_dictionary(all).take(0));
    for i in 0..order.len()
        invariant
            all == entries_of(entries@),
            distinct == words(order@),
            distinct == distinct_words(all),
            forall|w: Seq<char>| sums@.contains_key(w) <==> summed(all).contains_key(w),
            forall|w: Seq<char>| #[trigger] sums@.contains_key(w) ==> sums@[w] == summed(all)[w],
            entries_of(dictionary@) == snapshot_dictionary(all).take(i as int),
    {
        let word: &str = order[i].as_str();
        proof {
            lemma_summed_grows(all, 0, word@);
            assert(distinct[i as int] == word@);
        }
        let total: usize = match sums.get(word) {
            Some(held) => *held,
            None => 0,
        };
        let ghost listed = entries_of(dictionary@);
        dictionary.push((order[i].clone(), total));
        assert(entries_of(dictionary@) =~= listed.push((word@, total)));
        assert(snapshot_dictionary(all).take(i + 1) =~= listed.push((word@, total)));
    }
    assert(snapshot_dictionary(all).take(order.len() as int) =~= snapshot_dictionary(all));
    Some(dictionary)
}

/// Counts the entries that the deletion index of the words of `dictionary`
/// has for the distance `n`, a variant once for each word that has it. It
/// hands back nothing if a `usize` does not hold the number.
pub fn count_deletes(dictionary: &Vec<(String, usize)>, n: u8) -> (r: Option<usize>)
    ensures
        match r {
            Some(total) => total == variant_total(listed_words(entries_of(dictionary@)), n),
            None => variant_total(listed_words(entries_of(dictionary@)), n) > usize::MAX,
        },
{
    let ghost all = listed_words(entries_of(dictionary@));
    let mut total: usize = 0;
    assert(all.take(0) =~= Seq::empty());
    for i in 0..dictionary.len()
        invariant
            all == listed_words(entries_of(dictionary@)),
            total == variant_total(all.take(i as int), n),
    {
        let variants: Vec<String> = generate_deletes(dictionary[i].0.as_str(), n);
        assert(all[i as int] == dictionary[i as int].0@);
        assert(all.take(i + 1).drop_last() =~= all.take(i as int));
        if variants.len() > usize::MAX - total {
            proof {
                lemma_variant_total_grows(all, n, i + 1);
            }
            return None;
        }
        total = total + variants.len();
    }
    assert(all.take(dictionary.len() as int) =~= all);
    Some(total)
}

impl Snapshot {
    /// Builds the snapshot of `entries` for the distance `max_distance`. The
    /// frequencies of a word that occurs more than once are added up; an
    /// entry with an empty word is passed over. No snapshot is built if a
    /// sum does not fit a `usize`, or if the deletion index would hold more
    /// than `max_deletes` entries.
    pub fn build(max_distance: u8, entries: &Vec<(String, usize)>, max_deletes: usize) -> (r:
        Result<Snapshot, BuildError>)
        ensures
            match r {
                Ok(snapshot) => snapshot.max_distance == max_distance && snapshot_outcome(
                    entries_of(entries@),
                    max_distance,
                    max_deletes,
                ) == Ok::<_, BuildError>(
                    (entries_of(snapshot.dictionary@), groups_of(snapshot.deletes@)),
                ),
                Err(e) => snapshot_outcome(entries_of(entries@), max_distance, max_deletes)
                    == Err::<
                    (Seq<(Seq<char>, usize)>, Seq<(Seq<char>, Seq<Seq<char>>)>),
                    _,
                >(e),
            },
    {
        let ghost all = entries_of(entries@);
        let dictionary: Vec<(String, usize)> = match sum_entries(entries) {
            Some(summed) => summed,
            None => {
                return Err(BuildError::FrequencyOverflow);
            },
        };
        let ghost distinct = distinct_words(all);
        assert(listed_words(entries_of(dictionary@)) =~= distinct);
        let (keys, index) = match index_words(&dictionary, max_distance, max_deletes) {
            Some(indexed) => indexed,
            None => {
                return Err(BuildError::TooManyDeletes);
            },
        };
        let mut deletes: Vec<(String, Vec<String>)> = Vec::new();
        assert(groups_of(deletes@) =~= snapshot_deletes(all, max_distance).take(0));
        for j in 0..keys.len()
            invariant
                distinct == distinct_words(all),
                words(keys@) == variant_keys(distinct, max_distance),
                filed_words(index@) == built_index(distinct, max_distance),
                forall|v: Seq<char>| words(keys@).contains(v) <==> index@.contains_key(v),
                groups_of(deletes@) == snapshot_deletes(all, max_distance).take(j as int),
        {
            let variant: &str = keys[j].as_str();
            assert(words(keys@)[j as int] == variant@);
            assert(index@.contains_key(variant@));
            let list: Vec<String> = match index.get(variant) {
                Some(held) => copy_words(held),
                None => Vec::new(),
            };
            let ghost listed = groups_of(deletes@);
            deletes.push((keys[j].clone(), list));
            assert(groups_of(deletes@) =~= listed.push((variant@, words(list@))));
            assert(snapshot_deletes(all, max_distance).take(j + 1) =~= listed.push(
                (variant@, words(list@)),
            ));
        }
        assert(snapshot_deletes(all, max_distance).take(keys.len() as int) =~= snapshot_deletes(
            all,
            max_distance,
        ));
        Ok(Snapshot { max_distance, dictionary, deletes })
    }
}

} // verus!
