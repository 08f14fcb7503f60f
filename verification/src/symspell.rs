//! The dictionary that grows: words are loaded one by one, and each load
//! files the word under its deletion variants.

use vstd::hash_map::StringHashMap;
use vstd::prelude::*;
use crate::deletes::{
    deletion_variants, expansion, generate_deletes, is_cut, lemma_absorb_each_contains,
    lemma_expansion_grows,
    lemma_variants_are_cuts,
};
use crate::distance::lemma_distance_of_cut;
use crate::index::{copy_words, file_under_each, filed, filed_words};
use crate::lookup::{
    candidates, effective_distance, exact_match, found_for, lemma_exact_match_is_best,
    lemma_listed_words, lemma_selected_were_found,
    lemma_within_bound_contains, lookup_in, probes, rating, suggestions, EXPANSION_LIMIT,
};
use crate::ranking::{rated_of, Rated, Suggestion, Verbosity};
use crate::store::{listed, recorded, WordStore};
use crate::text::{entries_of, words};

verus! {

/// Whether `index` is the deletion index of `dictionary` for the distance
/// `n`: it files each word of the dictionary, once, under each of its deletion
/// variants, and files nothing else. The dictionary holds no empty word.
pub open spec fn consistent(
    dictionary: Map<Seq<char>, usize>,
    index: Map<Seq<char>, Seq<Seq<char>>>,
    n: u8,
) -> bool {
    &&& forall|v: Seq<char>, w: Seq<char>|
        index.contains_key(v) && #[trigger] index[v].contains(w) ==> dictionary.contains_key(w)
            && deletion_variants(w, n as nat).contains(v)
    &&& forall|v: Seq<char>, w: Seq<char>|
        dictionary.contains_key(w) && #[trigger] deletion_variants(w, n as nat).contains(v)
            ==> index.contains_key(v) && index[v].contains(w)
    &&& forall|v: Seq<char>| index.contains_key(v) ==> (#[trigger] index[v]).no_duplicates()
    &&& !dictionary.contains_key(Seq::empty())
}

/// A dictionary after loading `entries` in turn: each entry replaces the
/// frequency that its word had; an entry with an empty word is passed over.
pub open spec fn loaded_frequencies(
    dictionary: Map<Seq<char>, usize>,
    entries: Seq<(Seq<char>, usize)>,
) -> Map<Seq<char>, usize>
    decreases entries.len(),
{
    if entries.len() == 0 {
        dictionary
    } else {
        let before = loaded_frequencies(dictionary, entries.drop_last());
        if entries.last().0.len() == 0 {
            before
        } else {
            before.insert(entries.last().0, entries.last().1)
        }
    }
}

/// A deletion index for the distance `n` after loading `entries` in turn.
pub open spec fn loaded_index(
    index: Map<Seq<char>, Seq<Seq<char>>>,
    n: u8,
    entries: Seq<(Seq<char>, usize)>,
) -> Map<Seq<char>, Seq<Seq<char>>>
    decreases entries.len(),
{
    if entries.len() == 0 {
        index
    } else {
        let before = loaded_index(index, n, entries.drop_last());
        if entries.last().0.len() == 0 {
            before
        } else {
            filed(before, deletion_variants(entries.last().0, n as nat), entries.last().0)
        }
    }
}

/// Loading a word keeps a dictionary and its deletion index consistent.
pub proof fn lemma_load_keeps_consistent(
    dictionary: Map<Seq<char>, usize>,
    index: Map<Seq<char>, Seq<Seq<char>>>,
    n: u8,
    word: Seq<char>,
    frequency: usize,
)
    requires
        consistent(dictionary, index, n),
        word.len() > 0,
    ensures
        consistent(
            dictionary.insert(word, frequency),
            filed(index, deletion_variants(word, n as nat), word),
            n,
        ),
{
    let variants = deletion_variants(word, n as nat);
    let after = filed(index, variants, word);
    let grown = dictionary.insert(word, frequency);
    assert forall|v: Seq<char>, w: Seq<char>|
        after.contains_key(v) && #[trigger] after[v].contains(w) implies grown.contains_key(w)
        && deletion_variants(w, n as nat).contains(v) by {
        if variants.contains(v) {
            let held = listed(index, v);
            if w != word {
                let k = choose|k: int| 0 <= k < after[v].len() && after[v][k] == w;
                assert(held[k] == w);
                assert(index[v].contains(w));
            }
        } else {
            assert(index[v].contains(w));
        }
    }
    assert forall|v: Seq<char>, w: Seq<char>|
        grown.contains_key(w) && #[trigger] deletion_variants(w, n as nat).contains(v) implies
        after.contains_key(v) && after[v].contains(w) by {
        if w == word {
            let held = listed(index, v);
            if held.contains(word) {
            } else {
                assert(held.push(word)[held.len() as int] == word);
            }
        } else {
            assert(index[v].contains(w));
            if variants.contains(v) {
                let k = choose|k: int| 0 <= k < index[v].len() && index[v][k] == w;
                assert(after[v][k] == w);
            }
        }
    }
    assert forall|v: Seq<char>| after.contains_key(v) implies (#[trigger] after[v]).no_duplicates() by {
        if index.contains_key(v) {
            assert(index[v].no_duplicates());
        }
    }
    assert(word != Seq::<char>::empty()) by {
        assert(Seq::<char>::empty().len() == 0);
    }
}

/// In a dictionary with its own deletion index, every suggestion is a word
/// of the dictionary and carries the frequency recorded for it.
pub proof fn lemma_suggestions_are_words(
    dictionary: Map<Seq<char>, usize>,
    index: Map<Seq<char>, Seq<Seq<char>>>,
    configured: u8,
    term: Seq<char>,
    requested: u8,
    verbosity: Verbosity,
)
    requires
        consistent(dictionary, index, configured),
    ensures
        forall|i: int|
            0 <= i < suggestions(dictionary, index, configured, term, requested, verbosity).len()
                ==> {
                let s = #[trigger] suggestions(
                    dictionary,
                    index,
                    configured,
                    term,
                    requested,
                    verbosity,
                )[i];
                dictionary.contains_key(s.term) && s.frequency == dictionary[s.term]
            },
{
    let out = suggestions(dictionary, index, configured, term, requested, verbosity);
    let bound = effective_distance(requested, configured);
    let queue = probes(term, bound);
    let groups = queue.map_values(|p: Seq<char>| listed(index, p));
    let words = candidates(dictionary, index, term, queue);
    let found = found_for(dictionary, index, configured, term, requested);
    assert forall|i: int| 0 <= i < out.len() implies {
        let s = #[trigger] out[i];
        dictionary.contains_key(s.term) && s.frequency == dictionary[s.term]
    } by {
        lemma_selected_were_found(verbosity, found, i);
        lemma_within_bound_contains(dictionary, term, words, bound, out[i]);
        let k = choose|k: int|
            0 <= k < words.len() && out[i] == rating(dictionary, term, #[trigger] words[k]);
        let w = words[k];
        assert(words.contains(w));
        lemma_absorb_each_contains(exact_match(dictionary, term), groups, w);
        if exact_match(dictionary, term).contains(w) {
        } else {
            let p = choose|p: int| 0 <= p < groups.len() && #[trigger] groups[p].contains(w);
            assert(index[queue[p]].contains(w));
        }
    }
}

/// In a dictionary with its own deletion index, a term that the dictionary
/// holds is its own best suggestion, at distance zero and with the frequency
/// recorded for it.
pub proof fn lemma_loaded_word_is_best(
    dictionary: Map<Seq<char>, usize>,
    index: Map<Seq<char>, Seq<Seq<char>>>,
    configured: u8,
    term: Seq<char>,
    requested: u8,
)
    requires
        consistent(dictionary, index, configured),
        dictionary.contains_key(term),
    ensures
        suggestions(dictionary, index, configured, term, requested, Verbosity::Top) == seq![
            Rated { term, frequency: dictionary[term], distance: 0 },
        ],
{
    if term.len() == 0 {
        assert(term =~= Seq::empty());
    }
    lemma_exact_match_is_best(dictionary, index, configured, term, requested);
}

/// In a dictionary with its own deletion index, a lookup of a deletion
/// variant of one of its words lists the word, as far away as characters
/// were removed, if the lookup allows that distance.
pub proof fn lemma_variant_finds_its_word(
    dictionary: Map<Seq<char>, usize>,
    index: Map<Seq<char>, Seq<Seq<char>>>,
    configured: u8,
    requested: u8,
    word: Seq<char>,
    variant: Seq<char>,
)
    requires
        consistent(dictionary, index, configured),
        dictionary.contains_key(word),
        deletion_variants(word, configured as nat).contains(variant),
        variant.len() > 0,
        word.len() - variant.len() <= requested,
    ensures
        word.len() - variant.len() <= configured,
        suggestions(dictionary, index, configured, variant, requested, Verbosity::All).contains(
            Rated {
                term: word,
                frequency: dictionary[word],
                distance: (word.len() - variant.len()) as u8,
            },
        ),
{
    let bound = effective_distance(requested, configured);
    lemma_variants_are_cuts(word, configured as nat, variant);
    let k = choose|k: nat| 1 <= k <= configured && #[trigger] is_cut(word, variant, k);
    lemma_distance_of_cut(word, variant, k);
    // The lookup probes the variant itself, and the word is filed under it.
    lemma_expansion_grows(variant, 0, bound as nat);
    let queue = probes(variant, bound);
    let full = expansion(variant, bound as nat);
    assert(full.subrange(0, 1)[0] == variant);
    assert(EXPANSION_LIMIT >= 1);
    assert(queue[0] == full[0]);
    assert(index[variant].contains(word));
    assert(listed(index, queue[0]).contains(word));
    lemma_listed_words(dictionary, index, configured, variant, requested, word);
}

/// A dictionary of words with their frequencies, and its deletion index for
/// one maximum distance.
pub struct SymSpell {
    max_distance: u8,
    dictionary: StringHashMap<usize>,
    deletes: StringHashMap<Vec<String>>,
}

impl WordStore for SymSpell {
    closed spec fn frequencies(&self) -> Map<Seq<char>, usize> {
        self.dictionary@
    }

    closed spec fn index(&self) -> Map<Seq<char>, Seq<Seq<char>>> {
        filed_words(self.deletes@)
    }

    fn frequency_of(&self, word: &str) -> (count: Option<usize>) {
        self.frequency(word)
    }

    fn candidates_for_variant(&self, variant: &str) -> (found: Vec<String>) {
        match self.deletes.get(variant) {
            Some(list) => copy_words(list),
            None => {
                let found: Vec<String> = Vec::new();
                assert(words(found@) =~= Seq::empty());
                found
            },
        }
    }

    fn contains(&self, word: &str) -> (held: bool) {
        self.dictionary.contains_key(word)
    }
}

impl SymSpell {
    /// The distance for which the deletion index is built.
    pub closed spec fn configured_distance(&self) -> u8 {
        self.max_distance
    }

    /// Whether the deletion index is that of the dictionary.
    pub open spec fn wf(&self) -> bool {
        consistent(self.frequencies(), self.index(), self.configured_distance())
    }

    /// An empty dictionary whose index will be built for `max_distance`.
    pub fn new(max_distance: u8) -> (sym: Self)
        ensures
            sym.wf(),
            sym.configured_distance() == max_distance,
            sym.frequencies() == Map::<Seq<char>, usize>::empty(),
            sym.index() == Map::<Seq<char>, Seq<Seq<char>>>::empty(),
    {
        let sym = SymSpell {
            max_distance,
            dictionary: StringHashMap::new(),
            deletes: StringHashMap::new(),
        };
        assert(sym.index() =~= Map::<Seq<char>, Seq<Seq<char>>>::empty());
        sym
    }

    /// Records `word` with `frequency`, replacing the frequency it had, and
    /// files it under each of its deletion variants. An empty word is passed
    /// over.
    pub fn load(&mut self, word: &str, frequency: usize)
        requires
            old(self).wf(),
        ensures
            final(self).wf(),
            final(self).configured_distance() == old(self).configured_distance(),
            word@.len() == 0 ==> final(self).frequencies() == old(self).frequencies()
                && final(self).index() == old(self).index(),
            word@.len() > 0 ==> final(self).frequencies() == old(self).frequencies().insert(
                word@,
                frequency,
            ) && final(self).index() == filed(
                old(self).index(),
                deletion_variants(word@, old(self).configured_distance() as nat),
                word@,
            ),
    {
        if word.is_empty() {
            return ;
        }
        let ghost start = self.index();
        proof {
            lemma_load_keeps_consistent(
                self.frequencies(),
                start,
                self.max_distance,
                word@,
                frequency,
            );
        }
        self.dictionary.insert(word.to_owned(), frequency);
        let variants: Vec<String> = generate_deletes(word, self.max_distance);
        file_under_each(&mut self.deletes, &variants, word);
    }

    /// Loads `entries` in turn.
    pub fn load_iter(&mut self, entries: Vec<(String, usize)>)
        requires
            old(self).wf(),
        ensures
            final(self).wf(),
            final(self).configured_distance() == old(self).configured_distance(),
            final(self).frequencies() == loaded_frequencies(
                old(self).frequencies(),
                entries_of(entries@),
            ),
            final(self).index() == loaded_index(
                old(self).index(),
                old(self).configured_distance(),
                entries_of(entries@),
            ),
    {
        let ghost all = entries_of(entries@);
        assert(all.take(0) =~= Seq::empty());
        for i in 0..entries.len()
            invariant
                all == entries_of(entries@),
                self.wf(),
                self.configured_distance() == old(self).configured_distance(),
                self.frequencies() == loaded_frequencies(
                    old(self).frequencies(),
                    all.take(i as int),
                ),
                self.index() == loaded_index(
                    old(self).index(),
                    old(self).configured_distance(),
                    all.take(i as int),
                ),
        {
            assert(all.take(i + 1).drop_last() =~= all.take(i as int));
            self.load(entries[i].0.as_str(), entries[i].1);
        }
        assert(all.take(entries.len() as int) =~= all);
    }

    /// A dictionary for `max_distance` that holds `entries`, loaded in turn.
    pub fn from_iter(max_distance: u8, entries: Vec<(String, usize)>) -> (sym: Self)
        ensures
            sym.wf(),
            sym.configured_distance() == max_distance,
            sym.frequencies() == loaded_frequencies(Map::empty(), entries_of(entries@)),
            sym.index() == loaded_index(Map::empty(), max_distance, entries_of(entries@)),
    {
        let mut sym = SymSpell::new(max_distance);
        sym.load_iter(entries);
        sym
    }

    /// The suggestions that a lookup of `term` finds within `max_distance`,
    /// which is capped by the distance that the index was built for: of the
    /// term itself, where the dictionary holds it, and of the words filed
    /// under the term or under one of its deletion variants, those that are
    /// no farther from the term.
    pub fn lookup(&self, term: &str, max_distance: u8, verbosity: Verbosity) -> (out: Vec<
        Suggestion,
    >)
        ensures
            rated_of(out@) == suggestions(
                self.frequencies(),
                self.index(),
                self.configured_distance(),
                term@,
                max_distance,
                verbosity,
            ),
    {
        lookup_in(self, self.max_distance, term, max_distance, verbosity)
    }

    /// The frequency recorded for `word`, if the dictionary holds it.
    pub fn frequency(&self, word: &str) -> (count: Option<usize>)
        ensures
            count == recorded(self.frequencies(), word@),
    {
        match self.dictionary.get(word) {
            Some(count) => Some(*count),
            None => None,
        }
    }
}

} // verus!
