//! The dictionary that is fixed: a pair of perfect-hash maps made ahead of
//! time, one from each word to its frequency and one from each deletion
//! variant to the words filed under it.
//!
//! A perfect-hash map is probed by hashing the key to one of its
//! displacement pairs and from there to one of its slots. A map that the
//! generators of `phf` made can always be probed. One that was put together
//! by hand may have displacement pairs and no slot to go to, and probing it
//! would not return; a store is only ever made of maps that can be probed.

use vstd::prelude::*;
use crate::lookup::{lookup_in, suggestions};
use crate::ranking::{rated_of, Suggestion, Verbosity};
use crate::deletes::{deletion_variants, lemma_absorb_each_distinct};
use crate::snapshot::{
    built_index, distinct_words, groups_of, lemma_built_index_keys, lemma_distinct_words_distinct,
    lemma_snapshot_frequency, snapshot_deletes, snapshot_dictionary, snapshot_frequencies,
    snapshot_outcome, summed, variant_keys, Snapshot,
};
use crate::store::{recorded, WordStore};
use crate::text::{entries_of, words};

verus! {

#[verifier::external_type_specification]
#[verifier::external_body]
#[verifier::reject_recursive_types(K)]
#[verifier::reject_recursive_types(V)]
pub struct ExPerfectHashMap<K: 'static, V: 'static>(phf::Map<K, V>);

/// What a perfect-hash dictionary holds: each key that `get` finds in it,
/// with the frequency found.
pub uninterp spec fn frequency_entries(map: phf::Map<&'static str, usize>) -> Map<Seq<char>, usize>;

/// What a perfect-hash deletion index holds: each key that `get` finds in it,
/// with the words of the slice found, in the slice's order.
pub uninterp spec fn deletion_entries(map: phf::Map<&'static str, &'static [&'static str]>) -> Map<
    Seq<char>,
    Seq<Seq<char>>,
>;

/// How many displacement pairs a perfect-hash dictionary has.
pub uninterp spec fn frequency_displacements(map: phf::Map<&'static str, usize>) -> nat;

/// How many slots a perfect-hash dictionary has.
pub uninterp spec fn frequency_slots(map: phf::Map<&'static str, usize>) -> nat;

/// How many displacement pairs a perfect-hash deletion index has.
pub uninterp spec fn deletion_displacements(
    map: phf::Map<&'static str, &'static [&'static str]>,
) -> nat;

/// How many slots a perfect-hash deletion index has.
pub uninterp spec fn deletion_slots(map: phf::Map<&'static str, &'static [&'static str]>) -> nat;

/// Whether a map with so many displacement pairs and slots can be probed. A
/// map without displacement pairs holds nothing and is never hashed. Any
/// other is hashed modulo both counts as 32-bit numbers, so neither may be
/// zero or exceed what 32 bits hold.
pub open spec fn can_probe(displacements: nat, slots: nat) -> bool {
    displacements == 0 || (displacements <= u32::MAX && 0 < slots <= u32::MAX)
}

/// Whether the dictionary `map` can be probed.
pub open spec fn dictionary_can_be_probed(map: phf::Map<&'static str, usize>) -> bool {
    can_probe(frequency_displacements(map), frequency_slots(map))
}

/// Whether the deletion index `map` can be probed.
pub open spec fn index_can_be_probed(map: phf::Map<&'static str, &'static [&'static str]>) -> bool {
    can_probe(deletion_displacements(map), deletion_slots(map))
}

/// Whether `held` holds at most `n` keys.
pub open spec fn holds_at_most<V>(held: Map<Seq<char>, V>, n: nat) -> bool {
    held.dom().finite() && held.dom().len() <= n
}

/// The words that a slice of string slices holds.
pub open spec fn slice_words(list: Seq<&'static str>) -> Seq<Seq<char>> {
    list.map_values(|w: &'static str| w@)
}

/// The length of the public field `disps` of a `phf::Map`: the number of its
/// displacement pairs.
#[verifier::external_body]
fn frequency_displacement_count(dict: &phf::Map<&'static str, usize>) -> (n: usize)
    ensures
        n == frequency_displacements(*dict),
{
    dict.disps.len()
}

/// `phf::Map::len`, which is the length of the field `entries`: the number
/// of the map's slots. A key that `get` finds is the key of the slot that
/// its hash selects, so the contract also claims that the map holds no more
/// keys than it has slots.
#[verifier::external_body]
fn frequency_slot_count(dict: &phf::Map<&'static str, usize>) -> (n: usize)
    ensures
        n == frequency_slots(*dict),
        holds_at_most(frequency_entries(*dict), n as nat),
{
    dict.len()
}

/// The length of the public field `disps` of a `phf::Map`: the number of its
/// displacement pairs.
#[verifier::external_body]
fn deletion_displacement_count(deletes: &phf::Map<&'static str, &'static [&'static str]>) -> (n:
    usize)
    ensures
        n == deletion_displacements(*deletes),
{
    deletes.disps.len()
}

/// `phf::Map::len`, which is the length of the field `entries`: the number
/// of the map's slots. A key that `get` finds is the key of the slot that
/// its hash selects, so the contract also claims that the map holds no more
/// keys than it has slots.
#[verifier::external_body]
fn deletion_slot_count(deletes: &phf::Map<&'static str, &'static [&'static str]>) -> (n: usize)
    ensures
        n == deletion_slots(*deletes),
        holds_at_most(deletion_entries(*deletes), n as nat),
{
    deletes.len()
}

/// `phf::Map::get` on a dictionary. Where the map has displacement pairs, it
/// hashes `word`, takes the hash modulo the number of pairs and, displaced,
/// modulo the number of slots, and hands out the frequency in the slot so
/// found if that slot's key equals `word`. The contract asks for a map on
/// which neither modulus is zero, and claims that what is handed out is the
/// entry of `word` in what the map holds, and `None` where it holds no such
/// entry.
#[verifier::external_body]
fn stored_frequency(dict: &phf::Map<&'static str, usize>, word: &str) -> (count: Option<usize>)
    requires
        dictionary_can_be_probed(*dict),
    ensures
        count == recorded(frequency_entries(*dict), word@),
{
    dict.get(word).copied()
}

/// `phf::Map::contains_key` on a dictionary, which is `get(..).is_some()`.
/// The contract asks for a map that can be probed, and claims that the
/// result tells whether the map holds an entry for `word`.
#[verifier::external_body]
fn stored_word(dict: &phf::Map<&'static str, usize>, word: &str) -> (held: bool)
    requires
        dictionary_can_be_probed(*dict),
    ensures
        held == frequency_entries(*dict).contains_key(word@),
{
    dict.contains_key(word)
}

/// `phf::Map::get` on a deletion index. The contract asks for a map that can
/// be probed, and claims that the slice handed out is the entry of `variant`
/// in what the map holds, and `None` where it holds no such entry.
#[verifier::external_body]
fn stored_candidates(
    deletes: &phf::Map<&'static str, &'static [&'static str]>,
    variant: &str,
) -> (found: Option<&'static [&'static str]>)
    requires
        index_can_be_probed(*deletes),
    ensures
        match found {
            Some(list) => deletion_entries(*deletes).contains_key(variant@) && slice_words(list@)
                == deletion_entries(*deletes)[variant@],
            None => !deletion_entries(*deletes).contains_key(variant@),
        },
{
    deletes.get(variant).copied()
}

/// Tells whether a map with so many displacement pairs and slots can be
/// probed.
pub fn shape_can_be_probed(displacements: usize, slots: usize) -> (ok: bool)
    ensures
        ok == can_probe(displacements as nat, slots as nat),
{
    displacements == 0 || (displacements <= 0xffff_ffff && 0 < slots && slots <= 0xffff_ffff)
}

/// Whether the two maps hold what the snapshot of `entries` for the distance
/// `n` holds, slot for slot: the snapshot can be built, both maps can be
/// probed, each has as many slots as the snapshot has words or variants, and
/// each word and each variant of the snapshot is found with what the
/// snapshot lists for it.
pub open spec fn holds_snapshot(
    dict: phf::Map<&'static str, usize>,
    deletes: phf::Map<&'static str, &'static [&'static str]>,
    entries: Seq<(Seq<char>, usize)>,
    n: u8,
    max_deletes: usize,
) -> bool {
    let listed = distinct_words(entries);
    let keys = variant_keys(listed, n);
    &&& snapshot_outcome(entries, n, max_deletes) is Ok
    &&& dictionary_can_be_probed(dict)
    &&& index_can_be_probed(deletes)
    &&& frequency_slots(dict) == listed.len()
    &&& deletion_slots(deletes) == keys.len()
    &&& forall|i: int|
        0 <= i < listed.len() ==> recorded(frequency_entries(dict), #[trigger] listed[i]) == Some(
            summed(entries)[listed[i]] as usize,
        )
    &&& forall|j: int|
        0 <= j < keys.len() ==> deletion_entries(deletes).contains_key(#[trigger] keys[j])
            && deletion_entries(deletes)[keys[j]] == built_index(listed, n)[keys[j]]
}

/// A map that holds each of some distinct keys, and no more keys than there
/// are of them, holds no other key.
pub proof fn lemma_listed_keys_are_all<V>(held: Map<Seq<char>, V>, keys: Seq<Seq<char>>)
    requires
        held.dom().finite(),
        held.dom().len() <= keys.len(),
        keys.no_duplicates(),
        forall|i: int| 0 <= i < keys.len() ==> held.contains_key(#[trigger] keys[i]),
    ensures
        forall|w: Seq<char>| #[trigger] held.contains_key(w) <==> keys.contains(w),
{
    let listed = keys.to_set();
    keys.unique_seq_to_set();
    assert(listed.subset_of(held.dom())) by {
        assert forall|w: Seq<char>| listed.contains(w) implies held.dom().contains(w) by {
            let i = choose|i: int| 0 <= i < keys.len() && keys[i] == w;
            assert(held.contains_key(keys[i]));
        }
    }
    vstd::set_lib::lemma_len_subset(listed, held.dom());
    vstd::set_lib::lemma_subset_equality(listed, held.dom());
    assert forall|w: Seq<char>| #[trigger] held.contains_key(w) <==> keys.contains(w) by {
        assert(held.dom().contains(w) <==> listed.contains(w));
    }
}

/// Maps that hold a snapshot slot for slot hold what the snapshot holds and
/// nothing else.
pub proof fn lemma_held_snapshot(
    dict: phf::Map<&'static str, usize>,
    deletes: phf::Map<&'static str, &'static [&'static str]>,
    entries: Seq<(Seq<char>, usize)>,
    n: u8,
    max_deletes: usize,
)
    requires
        holds_snapshot(dict, deletes, entries, n, max_deletes),
        holds_at_most(frequency_entries(dict), frequency_slots(dict)),
        holds_at_most(deletion_entries(deletes), deletion_slots(deletes)),
    ensures
        frequency_entries(dict) == snapshot_frequencies(entries),
        deletion_entries(deletes) == built_index(distinct_words(entries), n),
{
    let listed = distinct_words(entries);
    let keys = variant_keys(listed, n);
    lemma_distinct_words_distinct(entries);
    assert forall|i: int| 0 <= i < listed.len() implies frequency_entries(dict).contains_key(
        #[trigger] listed[i],
    ) by {
        assert(recorded(frequency_entries(dict), listed[i]) is Some);
    }
    lemma_listed_keys_are_all(frequency_entries(dict), listed);
    assert forall|w: Seq<char>|
        frequency_entries(dict).contains_key(w) <==> snapshot_frequencies(entries).contains_key(
            w,
        ) by {
        lemma_snapshot_frequency(entries, w);
    }
    assert forall|w: Seq<char>| frequency_entries(dict).contains_key(w) implies frequency_entries(
        dict,
    )[w] == snapshot_frequencies(entries)[w] by {
        assert(listed.contains(w));
        let i = choose|i: int| 0 <= i < listed.len() && listed[i] == w;
        assert(recorded(frequency_entries(dict), listed[i]) == Some(
            summed(entries)[listed[i]] as usize,
        ));
        lemma_snapshot_frequency(entries, w);
    }
    assert(frequency_entries(dict) =~= snapshot_frequencies(entries));
    lemma_absorb_each_distinct(
        Seq::empty(),
        listed.map_values(|w: Seq<char>| deletion_variants(w, n as nat)),
    );
    lemma_listed_keys_are_all(deletion_entries(deletes), keys);
    assert forall|v: Seq<char>|
        deletion_entries(deletes).contains_key(v) <==> built_index(listed, n).contains_key(v) by {
        lemma_built_index_keys(listed, n, v);
    }
    assert forall|v: Seq<char>| deletion_entries(deletes).contains_key(v) implies deletion_entries(
        deletes,
    )[v] == built_index(listed, n)[v] by {
        assert(keys.contains(v));
        let j = choose|j: int| 0 <= j < keys.len() && keys[j] == v;
        assert(deletion_entries(deletes)[keys[j]] == built_index(listed, n)[keys[j]]);
    }
    assert(deletion_entries(deletes) =~= built_index(listed, n));
}

/// Whether `dict` finds each of `listed` with its frequency.
fn dictionary_lists(dict: &phf::Map<&'static str, usize>, listed: &Vec<(String, usize)>) -> (ok:
    bool)
    requires
        dictionary_can_be_probed(*dict),
    ensures
        ok <==> forall|i: int|
            0 <= i < listed.len() ==> recorded(
                frequency_entries(*dict),
                (#[trigger] entries_of(listed@)[i]).0,
            ) == Some(entries_of(listed@)[i].1),
{
    for k in 0..listed.len()
        invariant
            dictionary_can_be_probed(*dict),
            forall|i: int|
                0 <= i < k ==> recorded(
                    frequency_entries(*dict),
                    (#[trigger] entries_of(listed@)[i]).0,
                ) == Some(entries_of(listed@)[i].1),
    {
        let found: Option<usize> = stored_frequency(dict, listed[k].0.as_str());
        let same: bool = match found {
            Some(count) => count == listed[k].1,
            None => false,
        };
        if !same {
            assert(recorded(frequency_entries(*dict), entries_of(listed@)[k as int].0) != Some(
                entries_of(listed@)[k as int].1,
            ));
            return false;
        }
    }
    true
}

/// Whether `list` holds the words of `wanted`, in their order.
fn same_words(list: &[&'static str], wanted: &Vec<String>) -> (same: bool)
    ensures
        same == (slice_words(list@) == words(wanted@)),
{
    if list.len() != wanted.len() {
        assert(slice_words(list@).len() != words(wanted@).len());
        return false;
    }
    for i in 0..list.len()
        invariant
            list@.len() == wanted@.len(),
            forall|k: int| 0 <= k < i ==> slice_words(list@)[k] == words(wanted@)[k],
    {
        let word: String = list[i].to_owned();
        if word != wanted[i] {
            assert(slice_words(list@)[i as int] != words(wanted@)[i as int]);
            return false;
        }
    }
    assert(slice_words(list@) =~= words(wanted@));
    true
}

/// Whether `deletes` finds each variant of `groups` with its words.
fn index_lists(
    deletes: &phf::Map<&'static str, &'static [&'static str]>,
    groups: &Vec<(String, Vec<String>)>,
) -> (ok: bool)
    requires
        index_can_be_probed(*deletes),
    ensures
        ok <==> forall|j: int|
            0 <= j < groups.len() ==> deletion_entries(*deletes).contains_key(
                (#[trigger] groups_of(groups@)[j]).0,
            ) && deletion_entries(*deletes)[groups_of(groups@)[j].0] == groups_of(groups@)[j].1,
{
    for k in 0..groups.len()
        invariant
            index_can_be_probed(*deletes),
            forall|j: int|
                0 <= j < k ==> deletion_entries(*deletes).contains_key(
                    (#[trigger] groups_of(groups@)[j]).0,
                ) && deletion_entries(*deletes)[groups_of(groups@)[j].0] == groups_of(
                    groups@,
                )[j].1,
    {
        let same: bool = match stored_candidates(deletes, groups[k].0.as_str()) {
            Some(list) => same_words(list, &groups[k].1),
            None => false,
        };
        if !same {
            assert(!(deletion_entries(*deletes).contains_key(groups_of(groups@)[k as int].0)
                && deletion_entries(*deletes)[groups_of(groups@)[k as int].0] == groups_of(
                groups@,
            )[k as int].1));
            return false;
        }
    }
    true
}

/// A dictionary and its deletion index, both made ahead of time and never
/// changed. Both maps can be probed.
pub struct EmbeddedSymSpell {
    max_distance: u8,
    dict: &'static phf::Map<&'static str, usize>,
    deletes: &'static phf::Map<&'static str, &'static [&'static str]>,
}

impl WordStore for EmbeddedSymSpell {
    open spec fn frequencies(&self) -> Map<Seq<char>, usize> {
        frequency_entries(self.dictionary())
    }

    open spec fn index(&self) -> Map<Seq<char>, Seq<Seq<char>>> {
        deletion_entries(self.deletions())
    }

    fn frequency_of(&self, word: &str) -> (count: Option<usize>) {
        self.frequency(word)
    }

    fn candidates_for_variant(&self, variant: &str) -> (found: Vec<String>) {
        let mut found: Vec<String> = Vec::new();
        match self.candidates_for_deletion(variant) {
            Some(list) => {
                for i in 0..list.len()
                    invariant
                        words(found@) == slice_words(list@).take(i as int),
                {
                    let ghost held = words(found@);
                    found.push(list[i].to_owned());
                    assert(words(found@) =~= held.push(slice_words(list@)[i as int]));
                    assert(slice_words(list@).take(i + 1) =~= held.push(
                        slice_words(list@)[i as int],
                    ));
                }
                assert(slice_words(list@).take(list.len() as int) =~= slice_words(list@));
            },
            None => {
                assert(words(found@) =~= Seq::empty());
            },
        }
        found
    }

    fn contains(&self, word: &str) -> (held: bool) {
        proof {
            use_type_invariant(self);
        }
        stored_word(self.dict, word)
    }
}

impl EmbeddedSymSpell {
    #[verifier::type_invariant]
    spec fn probing_returns(self) -> bool {
        dictionary_can_be_probed(*self.dict) && index_can_be_probed(*self.deletes)
    }

    /// The distance for which the deletion index was built.
    pub closed spec fn configured_distance(&self) -> u8 {
        self.max_distance
    }

    /// The map from each word to its frequency.
    pub closed spec fn dictionary(&self) -> phf::Map<&'static str, usize> {
        *self.dict
    }

    /// The map from each deletion variant to the words filed under it.
    pub closed spec fn deletions(&self) -> phf::Map<&'static str, &'static [&'static str]> {
        *self.deletes
    }

    /// A dictionary over the two maps, whose deletion index was built for
    /// `max_distance`. Both maps must be such that probing them returns; the
    /// maps that `phf` generates are.
    pub fn from_phf(
        max_distance: u8,
        dict: &'static phf::Map<&'static str, usize>,
        deletes: &'static phf::Map<&'static str, &'static [&'static str]>,
    ) -> (sym: Self)
        requires
            dictionary_can_be_probed(*dict),
            index_can_be_probed(*deletes),
        ensures
            sym.configured_distance() == max_distance,
            sym.dictionary() == *dict,
            sym.deletions() == *deletes,
    {
        EmbeddedSymSpell { max_distance, dict, deletes }
    }

    /// A dictionary over the two maps if both can be probed, and nothing
    /// otherwise.
    pub fn try_from_phf(
        max_distance: u8,
        dict: &'static phf::Map<&'static str, usize>,
        deletes: &'static phf::Map<&'static str, &'static [&'static str]>,
    ) -> (made: Option<Self>)
        ensures
            match made {
                Some(sym) => {
                    &&& dictionary_can_be_probed(*dict)
                    &&& index_can_be_probed(*deletes)
                    &&& sym.configured_distance() == max_distance
                    &&& sym.dictionary() == *dict
                    &&& sym.deletions() == *deletes
                },
                None => !dictionary_can_be_probed(*dict) || !index_can_be_probed(*deletes),
            },
    {
        if shape_can_be_probed(frequency_displacement_count(dict), frequency_slot_count(dict))
            && shape_can_be_probed(
            deletion_displacement_count(deletes),
            deletion_slot_count(deletes),
        ) {
            Some(EmbeddedSymSpell::from_phf(max_distance, dict, deletes))
        } else {
            None
        }
    }

    /// A dictionary over the two maps if they hold, slot for slot, what the
    /// snapshot of `entries` for `max_distance` holds, and nothing otherwise.
    /// Such a dictionary records for each word the sum of the frequencies
    /// that `entries` give it, and files the words as loading them one by
    /// one would.
    pub fn from_batch(
        max_distance: u8,
        entries: &Vec<(String, usize)>,
        max_deletes: usize,
        dict: &'static phf::Map<&'static str, usize>,
        deletes: &'static phf::Map<&'static str, &'static [&'static str]>,
    ) -> (made: Option<Self>)
        ensures
            made is Some <==> holds_snapshot(
                *dict,
                *deletes,
                entries_of(entries@),
                max_distance,
                max_deletes,
            ),
            match made {
                Some(sym) => {
                    &&& sym.configured_distance() == max_distance
                    &&& sym.dictionary() == *dict
                    &&& sym.deletions() == *deletes
                    &&& sym.frequencies() == snapshot_frequencies(entries_of(entries@))
                    &&& sym.index() == built_index(
                        distinct_words(entries_of(entries@)),
                        max_distance,
                    )
                },
                None => true,
            },
    {
        let ghost all = entries_of(entries@);
        let ghost listed = distinct_words(all);
        let ghost keys = variant_keys(listed, max_distance);
        let snapshot: Snapshot = match Snapshot::build(max_distance, entries, max_deletes) {
            Ok(snapshot) => snapshot,
            Err(_) => {
                return None;
            },
        };
        assert(entries_of(snapshot.dictionary@) == snapshot_dictionary(all));
        assert(groups_of(snapshot.deletes@) == snapshot_deletes(all, max_distance));
        assert(snapshot.dictionary@.len() == entries_of(snapshot.dictionary@).len());
        assert(snapshot.deletes@.len() == groups_of(snapshot.deletes@).len());
        assert(snapshot.dictionary@.len() == listed.len());
        assert(snapshot.deletes@.len() == keys.len());
        if !shape_can_be_probed(frequency_displacement_count(dict), frequency_slot_count(dict))
            || !shape_can_be_probed(
            deletion_displacement_count(deletes),
            deletion_slot_count(deletes),
        ) {
            return None;
        }
        if frequency_slot_count(dict) != snapshot.dictionary.len() || deletion_slot_count(deletes)
            != snapshot.deletes.len() {
            return None;
        }
        let words_held: bool = dictionary_lists(dict, &snapshot.dictionary);
        let variants_held: bool = index_lists(deletes, &snapshot.deletes);
        proof {
            assert forall|i: int| 0 <= i < listed.len() implies (#[trigger] entries_of(
                snapshot.dictionary@,
            )[i]) == (listed[i], summed(all)[listed[i]] as usize) by {}
            assert forall|j: int| 0 <= j < keys.len() implies (#[trigger] groups_of(
                snapshot.deletes@,
            )[j]) == (keys[j], built_index(listed, max_distance)[keys[j]]) by {}
            if words_held {
                assert forall|i: int| 0 <= i < listed.len() implies recorded(
                    frequency_entries(*dict),
                    #[trigger] listed[i],
                ) == Some(summed(all)[listed[i]] as usize) by {
                    assert(entries_of(snapshot.dictionary@)[i].0 == listed[i]);
                }
            } else {
                let i = choose|i: int|
                    0 <= i < snapshot.dictionary.len() && recorded(
                        frequency_entries(*dict),
                        (#[trigger] entries_of(snapshot.dictionary@)[i]).0,
                    ) != Some(entries_of(snapshot.dictionary@)[i].1);
                assert(recorded(frequency_entries(*dict), listed[i]) != Some(
                    summed(all)[listed[i]] as usize,
                ));
            }
            if variants_held {
                assert forall|j: int| 0 <= j < keys.len() implies deletion_entries(
                    *deletes,
                ).contains_key(#[trigger] keys[j]) && deletion_entries(*deletes)[keys[j]]
                    == built_index(listed, max_distance)[keys[j]] by {
                    assert(groups_of(snapshot.deletes@)[j].0 == keys[j]);
                }
            } else {
                let j = choose|j: int|
                    0 <= j < snapshot.deletes.len() && !(deletion_entries(*deletes).contains_key(
                        (#[trigger] groups_of(snapshot.deletes@)[j]).0,
                    ) && deletion_entries(*deletes)[groups_of(snapshot.deletes@)[j].0]
                        == groups_of(snapshot.deletes@)[j].1);
                assert(!(deletion_entries(*deletes).contains_key(keys[j]) && deletion_entries(
                    *deletes,
                )[keys[j]] == built_index(listed, max_distance)[keys[j]]));
            }
        }
        if !words_held || !variants_held {
            return None;
        }
        proof {
            lemma_held_snapshot(*dict, *deletes, all, max_distance, max_deletes);
        }
        Some(EmbeddedSymSpell::from_phf(max_distance, dict, deletes))
    }

    /// The distance for which the deletion index was built.
    pub fn max_distance(&self) -> (n: u8)
        ensures
            n == self.configured_distance(),
    {
        self.max_distance
    }

    /// The frequency recorded for `word`, if the dictionary holds it.
    pub fn frequency(&self, word: &str) -> (count: Option<usize>)
        ensures
            count == recorded(self.frequencies(), word@),
    {
        proof {
            use_type_invariant(self);
        }
        stored_frequency(self.dict, word)
    }

    /// The suggestions that a lookup of `term` finds within `max_distance`,
    /// which is capped by the distance that the index was built for: of the
    /// term itself, where the dictionary holds it, and of the words filed
    /// under the term or under one of its deletion variants, those that are
    /// no farther from the term.
    pub fn lookup(&self, term: &str, max_distance: u8, verbosity: Verbosity) -> (out: Vec<
        Suggestion,
    >)
        ensures
            rated_of(out@) == suggestions(
                self.frequencies(),
                self.index(),
                self.configured_distance(),
                term@,
                max_distance,
                verbosity,
            ),
    {
        lookup_in(self, self.max_distance, term, max_distance, verbosity)
    }

    /// The best of the suggestions that a lookup of `term` finds within the
    /// distance that the index was built for, if it finds any.
    pub fn find_top(&self, term: &str) -> (best: Option<Suggestion>)
        ensures
            match best {
                Some(s) => seq![s@] == suggestions(
                    self.frequencies(),
                    self.index(),
                    self.configured_distance(),
                    term@,
                    self.configured_distance(),
                    Verbosity::Top,
                ),
                None => suggestions(
                    self.frequencies(),
                    self.index(),
                    self.configured_distance(),
                    term@,
                    self.configured_distance(),
                    Verbosity::Top,
                ).len() == 0,
            },
    {
        let mut out: Vec<Suggestion> = self.lookup(term, self.max_distance, Verbosity::Top);
        let ghost all = rated_of(out@);
        if out.len() > 0 {
            let s: Suggestion = out.remove(0);
            assert(s@ == all[0]);
            assert(seq![s@] =~= all);
            Some(s)
        } else {
            None
        }
    }

    /// The nearest of the suggestions that a lookup of `term` finds within
    /// the distance that the index was built for, most frequent first.
    pub fn find_closest(&self, term: &str) -> (out: Vec<Suggestion>)
        ensures
            rated_of(out@) == suggestions(
                self.frequencies(),
                self.index(),
                self.configured_distance(),
                term@,
                self.configured_distance(),
                Verbosity::Closest,
            ),
    {
        self.lookup(term, self.max_distance, Verbosity::Closest)
    }

    /// Every suggestion that a lookup of `term` finds within the distance
    /// that the index was built for: the words filed under the term or under
    /// one of its deletion variants that are no farther from it.
    pub fn find_all(&self, term: &str) -> (out: Vec<Suggestion>)
        ensures
            rated_of(out@) == suggestions(
                self.frequencies(),
                self.index(),
                self.configured_distance(),
                term@,
                self.configured_distance(),
                Verbosity::All,
            ),
    {
        self.lookup(term, self.max_distance, Verbosity::All)
    }

    /// Whether the dictionary holds `word`.
    pub fn contains(&self, word: &str) -> (held: bool)
        ensures
            held == self.frequencies().contains_key(word@),
    {
        proof {
            use_type_invariant(self);
        }
        stored_word(self.dict, word)
    }

    /// The map from each word to its frequency.
    pub fn dict_map(&self) -> (map: &'static phf::Map<&'static str, usize>)
        ensures
            *map == self.dictionary(),
            dictionary_can_be_probed(*map),
    {
        proof {
            use_type_invariant(self);
        }
        self.dict
    }

    /// The map from each deletion variant to the words filed under it.
    pub fn deletes_map(&self) -> (map: &'static phf::Map<&'static str, &'static [&'static str]>)
        ensures
            *map == self.deletions(),
            index_can_be_probed(*map),
    {
        proof {
            use_type_invariant(self);
        }
        self.deletes
    }

    /// The words filed under `deletion`, if the index has such an entry.
    pub fn candidates_for_deletion(&self, deletion: &str) -> (found: Option<
        &'static [&'static str],
    >)
        ensures
            match found {
                Some(list) => self.index().contains_key(deletion@) && slice_words(list@)
                    == self.index()[deletion@],
                None => !self.index().contains_key(deletion@),
            },
    {
        proof {
            use_type_invariant(self);
        }
        stored_candidates(self.deletes, deletion)
    }

    /// The frequency recorded for `word`; zero if the dictionary does not
    /// hold it.
    pub fn frequency_or_zero(&self, word: &str) -> (count: usize)
        ensures
            count == match recorded(self.frequencies(), word@) {
                Some(known) => known,
                None => 0,
            },
    {
        proof {
            use_type_invariant(self);
        }
        match stored_frequency(self.dict, word) {
            Some(known) => known,
            None => 0,
        }
    }
}

} // verus!
