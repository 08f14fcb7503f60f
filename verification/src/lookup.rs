//! The lookup: expand the query, collect the words that the index files under
//! what the expansion met, keep those whose true distance is within the bound,
//! and choose among them.

use vstd::hash_set::StringHashSet;
use vstd::prelude::*;
use crate::deletes::{
    absorb, absorb_each, capped, expand, expansion, lemma_absorb_each_contains,
    lemma_absorb_each_distinct, lemma_absorb_each_extends,
};
use crate::distance::{
    damerau_levenshtein, lemma_distance_to_itself, lemma_zero_distance_means_equal,
    reported_distance,
};
use crate::ranking::{
    at_distance, lemma_at_distance_contains, lemma_at_distance_distinct, lemma_nearest_is_least,
    lemma_ranked_contains, lemma_ranked_is_sorted_rearrangement, nearest, ranked, rated_of, select,
    selected, Rated, Suggestion, Verbosity,
};
use crate::store::{listed, recorded, WordStore};
use crate::text::{lemma_push_contains, words};

verus! {

/// How many strings the expansion of a query may hold. It bounds the work of
/// a lookup on a very long query.
pub const EXPANSION_LIMIT: usize = 10_000;

/// The distance bound of a lookup: the requested one, but no more than the
/// index was built for.
pub open spec fn effective_distance(requested: u8, configured: u8) -> u8 {
    if requested <= configured {
        requested
    } else {
        configured
    }
}

/// The strings under which a lookup of `term` searches the index.
pub open spec fn probes(term: Seq<char>, bound: u8) -> Seq<Seq<char>> {
    capped(expansion(term, bound as nat), Some(EXPANSION_LIMIT))
}

/// `term` itself where the dictionary holds it.
pub open spec fn exact_match(dictionary: Map<Seq<char>, usize>, term: Seq<char>) -> Seq<
    Seq<char>,
> {
    if dictionary.contains_key(term) {
        seq![term]
    } else {
        Seq::empty()
    }
}

/// The words to check for `term`: `term` itself where the dictionary holds
/// it, then what the index files under each of `probes`, each word once, in
/// the order in which they are met.
pub open spec fn candidates(
    dictionary: Map<Seq<char>, usize>,
    index: Map<Seq<char>, Seq<Seq<char>>>,
    term: Seq<char>,
    probes: Seq<Seq<char>>,
) -> Seq<Seq<char>> {
    absorb_each(
        exact_match(dictionary, term),
        probes.map_values(|p: Seq<char>| listed(index, p)),
    )
}

/// `word` as a suggestion for `term`: with its recorded frequency, zero where
/// none is recorded, and its distance from `term`.
pub open spec fn rating(dictionary: Map<Seq<char>, usize>, term: Seq<char>, word: Seq<char>) -> Rated {
    Rated {
        term: word,
        frequency: match recorded(dictionary, word) {
            Some(count) => count,
            None => 0,
        },
        distance: reported_distance(term, word),
    }
}

/// The ratings of those of `words` that are within `bound` of `term`, in their
/// order.
pub open spec fn within_bound(
    dictionary: Map<Seq<char>, usize>,
    term: Seq<char>,
    words: Seq<Seq<char>>,
    bound: u8,
) -> Seq<Rated>
    decreases words.len(),
{
    if words.len() == 0 {
        Seq::empty()
    } else {
        let before = within_bound(dictionary, term, words.drop_last(), bound);
        let last = rating(dictionary, term, words.last());
        if last.distance <= bound {
            before.push(last)
        } else {
            before
        }
    }
}

/// The suggestions found for `term` before any choice among them.
pub open spec fn found_for(
    dictionary: Map<Seq<char>, usize>,
    index: Map<Seq<char>, Seq<Seq<char>>>,
    configured: u8,
    term: Seq<char>,
    requested: u8,
) -> Seq<Rated> {
    let bound = effective_distance(requested, configured);
    within_bound(
        dictionary,
        term,
        candidates(dictionary, index, term, probes(term, bound)),
        bound,
    )
}

/// What a lookup of `term` returns from a store that was built for the
/// distance `configured`.
pub open spec fn suggestions(
    dictionary: Map<Seq<char>, usize>,
    index: Map<Seq<char>, Seq<Seq<char>>>,
    configured: u8,
    term: Seq<char>,
    requested: u8,
    verbosity: Verbosity,
) -> Seq<Rated> {
    if term.len() == 0 {
        Seq::empty()
    } else {
        selected(verbosity, found_for(dictionary, index, configured, term, requested))
    }
}

/// Collects the candidates for `term`: `term` itself where the dictionary
/// holds it, then the words filed under each of `probes`.
pub fn gather_candidates<S: WordStore>(store: &S, term: &str, probes: &Vec<String>) -> (found: Vec<
    String,
>)
    ensures
        words(found@) == candidates(store.frequencies(), store.index(), term@, words(probes@)),
{
    let ghost groups = words(probes@).map_values(|p: Seq<char>| listed(store.index(), p));
    let ghost exact = exact_match(store.frequencies(), term@);
    let mut found: Vec<String> = Vec::new();
    let mut met: StringHashSet = StringHashSet::new();
    if store.contains(term) {
        found.push(term.to_owned());
        met.insert(term.to_owned());
        assert(seq![term@][0] == term@);
    }
    assert(words(found@) =~= exact);
    assert(groups.take(0) =~= Seq::empty());
    for p in 0..probes.len()
        invariant
            groups == words(probes@).map_values(|p: Seq<char>| listed(store.index(), p)),
            words(found@) == absorb_each(exact, groups.take(p as int)),
            forall|x: Seq<char>| met@.contains(x) <==> words(found@).contains(x),
    {
        let list: Vec<String> = store.candidates_for_variant(probes[p].as_str());
        let ghost before = words(found@);
        assert(words(list@) == groups[p as int]);
        assert(words(list@).take(0) =~= Seq::empty());
        for i in 0..list.len()
            invariant
                words(found@) == absorb(before, words(list@).take(i as int)),
                forall|x: Seq<char>| met@.contains(x) <==> words(found@).contains(x),
        {
            let ghost held = words(found@);
            assert(words(list@).take(i + 1).drop_last() =~= words(list@).take(i as int));
            if met.insert(list[i].clone()) {
                found.push(list[i].clone());
                assert(words(found@) =~= held.push(words(list@)[i as int]));
                assert forall|x: Seq<char>| met@.contains(x) <==> words(found@).contains(x) by {
                    lemma_push_contains(held, words(list@)[i as int], x);
                }
            }
        }
        assert(words(list@).take(list.len() as int) =~= words(list@));
        assert(groups.take(p + 1).drop_last() =~= groups.take(p as int));
    }
    assert(groups.take(probes.len() as int) =~= groups);
    found
}

/// Rates each of `candidates` against `term` and keeps those within `bound`.
pub fn verify_candidates<S: WordStore>(
    store: &S,
    term: &str,
    candidates: &Vec<String>,
    bound: u8,
) -> (found: Vec<Suggestion>)
    ensures
        rated_of(found@) == within_bound(store.frequencies(), term@, words(candidates@), bound),
{
    let ghost all = words(candidates@);
    let mut found: Vec<Suggestion> = Vec::new();
    assert(rated_of(found@) =~= within_bound(store.frequencies(), term@, all.take(0), bound));
    for i in 0..candidates.len()
        invariant
            all == words(candidates@),
            rated_of(found@) == within_bound(
                store.frequencies(),
                term@,
                all.take(i as int),
                bound,
            ),
    {
        assert(all.take(i + 1).drop_last() =~= all.take(i as int));
        let distance: u8 = damerau_levenshtein(term, candidates[i].as_str());
        if distance <= bound {
            let frequency: usize = match store.frequency_of(candidates[i].as_str()) {
                Some(count) => count,
                None => 0,
            };
            let ghost kept = rated_of(found@);
            found.push(Suggestion { term: candidates[i].clone(), frequency, distance });
            assert(rated_of(found@) =~= kept.push(rating(store.frequencies(), term@, all[i as int])));
        }
    }
    assert(all.take(candidates.len() as int) =~= all);
    found
}

/// Looks `term` up in `store`, which was built for the distance `configured`.
pub fn lookup_in<S: WordStore>(
    store: &S,
    configured: u8,
    term: &str,
    requested: u8,
    verbosity: Verbosity,
) -> (out: Vec<Suggestion>)
    ensures
        rated_of(out@) == suggestions(
            store.frequencies(),
            store.index(),
            configured,
            term@,
            requested,
            verbosity,
        ),
{
    if term.is_empty() {
        let out: Vec<Suggestion> = Vec::new();
        assert(rated_of(out@) =~= Seq::empty());
        return out;
    }
    let bound: u8 = if requested <= configured {
        requested
    } else {
        configured
    };
    let queue: Vec<String> = expand(term, bound, Some(EXPANSION_LIMIT));
    let candidates: Vec<String> = gather_candidates(store, term, &queue);
    let found: Vec<Suggestion> = verify_candidates(store, term, &candidates, bound);
    select(&found, verbosity)
}

/// The ratings within the bound are those of the words that are within it.
pub proof fn lemma_within_bound_contains(
    dictionary: Map<Seq<char>, usize>,
    term: Seq<char>,
    words: Seq<Seq<char>>,
    bound: u8,
    x: Rated,
)
    ensures
        within_bound(dictionary, term, words, bound).contains(x) <==> x.distance <= bound
            && exists|k: int|
            0 <= k < words.len() && x == rating(dictionary, term, #[trigger] words[k]),
    decreases words.len(),
{
    if words.len() > 0 {
        let front = words.drop_last();
        lemma_within_bound_contains(dictionary, term, front, bound, x);
        let before = within_bound(dictionary, term, front, bound);
        let last = rating(dictionary, term, words.last());
        if x.distance <= bound && exists|k: int|
            0 <= k < front.len() && x == rating(dictionary, term, #[trigger] front[k]) {
            let k = choose|k: int|
                0 <= k < front.len() && x == rating(dictionary, term, #[trigger] front[k]);
            assert(words[k] == front[k]);
        }
        if x.distance <= bound && exists|k: int|
            0 <= k < words.len() && x == rating(dictionary, term, #[trigger] words[k]) {
            let k = choose|k: int|
                0 <= k < words.len() && x == rating(dictionary, term, #[trigger] words[k]);
            if k < front.len() {
                assert(words[k] == front[k]);
            }
        }
        if last.distance <= bound {
            let out = before.push(last);
            assert(out[before.len() as int] == last);
            assert(words[words.len() - 1] == words.last());
            if before.contains(x) {
                let k = choose|k: int| 0 <= k < before.len() && before[k] == x;
                assert(out[k] == x);
            }
            if out.contains(x) {
                let k = choose|k: int| 0 <= k < out.len() && out[k] == x;
                if k < before.len() {
                    assert(before[k] == x);
                }
            }
        }
    }
}

/// Distinct words give distinct ratings.
pub proof fn lemma_within_bound_distinct(
    dictionary: Map<Seq<char>, usize>,
    term: Seq<char>,
    words: Seq<Seq<char>>,
    bound: u8,
)
    requires
        words.no_duplicates(),
    ensures
        within_bound(dictionary, term, words, bound).no_duplicates(),
    decreases words.len(),
{
    if words.len() > 0 {
        let front = words.drop_last();
        lemma_within_bound_distinct(dictionary, term, front, bound);
        let before = within_bound(dictionary, term, front, bound);
        let last = rating(dictionary, term, words.last());
        lemma_within_bound_contains(dictionary, term, front, bound, last);
        if before.contains(last) {
            let k = choose|k: int|
                0 <= k < front.len() && last == rating(dictionary, term, #[trigger] front[k]);
            assert(words[k] == words[words.len() - 1]);
        }
    }
}

/// Whatever the verbosity, each suggestion returned is one that was found.
pub proof fn lemma_selected_were_found(verbosity: Verbosity, found: Seq<Rated>, i: int)
    requires
        0 <= i < selected(verbosity, found).len(),
    ensures
        found.contains(selected(verbosity, found)[i]),
{
    let out = selected(verbosity, found);
    let x = out[i];
    let nearest_found = at_distance(found, nearest(found));
    match verbosity {
        Verbosity::All => {
            assert(ranked(found).contains(x));
            lemma_ranked_contains(found, x);
        },
        Verbosity::Closest => {
            assert(ranked(nearest_found).contains(x));
            lemma_ranked_contains(nearest_found, x);
            lemma_at_distance_contains(found, nearest(found), x);
        },
        Verbosity::Top => {
            assert(ranked(nearest_found)[0] == x);
            assert(ranked(nearest_found).contains(x));
            lemma_ranked_contains(nearest_found, x);
            lemma_at_distance_contains(found, nearest(found), x);
        },
    }
}

/// A lookup that is repeated on the same store returns the same suggestions
/// in the same order: what it returns is determined by the store, the term,
/// the distance and the verbosity.
pub proof fn lemma_lookup_is_repeatable(
    dictionary: Map<Seq<char>, usize>,
    index: Map<Seq<char>, Seq<Seq<char>>>,
    configured: u8,
    term: Seq<char>,
    requested: u8,
    verbosity: Verbosity,
    first: Seq<Suggestion>,
    second: Seq<Suggestion>,
)
    requires
        rated_of(first) == suggestions(dictionary, index, configured, term, requested, verbosity),
        rated_of(second) == suggestions(dictionary, index, configured, term, requested, verbosity),
    ensures
        first.len() == second.len(),
        forall|i: int| 0 <= i < first.len() ==> first[i]@ == second[i]@,
{
    assert(rated_of(first).len() == first.len());
    assert(rated_of(second).len() == second.len());
    assert forall|i: int| 0 <= i < first.len() implies first[i]@ == second[i]@ by {
        assert(rated_of(first)[i] == first[i]@);
        assert(rated_of(second)[i] == second[i]@);
    }
}

/// No suggestion is farther from the term than the smaller of the requested
/// distance and the distance that the index was built for, and each carries
/// its true distance.
pub proof fn lemma_suggestions_within_bound(
    dictionary: Map<Seq<char>, usize>,
    index: Map<Seq<char>, Seq<Seq<char>>>,
    configured: u8,
    term: Seq<char>,
    requested: u8,
    verbosity: Verbosity,
)
    ensures
        forall|i: int|
            0 <= i < suggestions(dictionary, index, configured, term, requested, verbosity).len()
                ==> {
                let s = #[trigger] suggestions(
                    dictionary,
                    index,
                    configured,
                    term,
                    requested,
                    verbosity,
                )[i];
                &&& s.distance <= requested
                &&& s.distance <= configured
                &&& s.distance == reported_distance(term, s.term)
            },
{
    let out = suggestions(dictionary, index, configured, term, requested, verbosity);
    let bound = effective_distance(requested, configured);
    let words = candidates(dictionary, index, term, probes(term, bound));
    let found = found_for(dictionary, index, configured, term, requested);
    assert forall|i: int| 0 <= i < out.len() implies {
        let s = #[trigger] out[i];
        &&& s.distance <= requested
        &&& s.distance <= configured
        &&& s.distance == reported_distance(term, s.term)
    } by {
        lemma_selected_were_found(verbosity, found, i);
        lemma_within_bound_contains(dictionary, term, words, bound, out[i]);
    }
}

/// The nearest suggestions are there exactly when any suggestion is, and
/// each of them is at the smallest distance that occurs among all.
pub proof fn lemma_closest_are_nearest_of_all(
    dictionary: Map<Seq<char>, usize>,
    index: Map<Seq<char>, Seq<Seq<char>>>,
    configured: u8,
    term: Seq<char>,
    requested: u8,
)
    ensures
        ({
            let all = suggestions(dictionary, index, configured, term, requested, Verbosity::All);
            let closest = suggestions(
                dictionary,
                index,
                configured,
                term,
                requested,
                Verbosity::Closest,
            );
            &&& closest.len() > 0 <==> all.len() > 0
            &&& forall|i: int|
                0 <= i < closest.len() ==> (#[trigger] closest[i]).distance == nearest(all)
            &&& forall|i: int| 0 <= i < closest.len() ==> all.contains(#[trigger] closest[i])
        }),
{
    let all = suggestions(dictionary, index, configured, term, requested, Verbosity::All);
    let closest = suggestions(dictionary, index, configured, term, requested, Verbosity::Closest);
    if term.len() > 0 {
        let found = found_for(dictionary, index, configured, term, requested);
        let kept = at_distance(found, nearest(found));
        lemma_ranked_is_sorted_rearrangement(found);
        lemma_ranked_is_sorted_rearrangement(kept);
        lemma_nearest_is_least(found);
        lemma_nearest_is_least(all);
        if found.len() > 0 {
            let k = choose|k: int|
                0 <= k < found.len() && (#[trigger] found[k]).distance == nearest(found);
            lemma_at_distance_contains(found, nearest(found), found[k]);
            assert(found.contains(found[k]));
            // The smallest distance of the ranked suggestions is that of the found ones.
            lemma_ranked_contains(found, found[k]);
            let at = choose|at: int| 0 <= at < all.len() && all[at] == found[k];
            assert(nearest(all) <= all[at].distance);
            let j = choose|j: int|
                0 <= j < all.len() && (#[trigger] all[j]).distance == nearest(all);
            assert(all.contains(all[j]));
            lemma_ranked_contains(found, all[j]);
            let back = choose|back: int| 0 <= back < found.len() && found[back] == all[j];
            assert(nearest(found) <= found[back].distance);
        } else {
            lemma_at_distance_contains(found, nearest(found), arbitrary());
        }
        assert forall|i: int| 0 <= i < closest.len() implies (#[trigger] closest[i]).distance
            == nearest(all) && all.contains(closest[i]) by {
            assert(closest.contains(closest[i]));
            lemma_ranked_contains(kept, closest[i]);
            lemma_at_distance_contains(found, nearest(found), closest[i]);
            lemma_ranked_contains(found, closest[i]);
        }
    }
}

/// A term that the dictionary holds is its own best suggestion, at distance
/// zero and with the frequency recorded for it, and it is the only nearest
/// one.
pub proof fn lemma_exact_match_is_best(
    dictionary: Map<Seq<char>, usize>,
    index: Map<Seq<char>, Seq<Seq<char>>>,
    configured: u8,
    term: Seq<char>,
    requested: u8,
)
    requires
        term.len() > 0,
        dictionary.contains_key(term),
    ensures
        suggestions(dictionary, index, configured, term, requested, Verbosity::Top) == seq![
            Rated { term, frequency: dictionary[term], distance: 0 },
        ],
        suggestions(dictionary, index, configured, term, requested, Verbosity::Closest) == seq![
            Rated { term, frequency: dictionary[term], distance: 0 },
        ],
{
    let bound = effective_distance(requested, configured);
    let groups = probes(term, bound).map_values(|p: Seq<char>| listed(index, p));
    let words = candidates(dictionary, index, term, probes(term, bound));
    let found = found_for(dictionary, index, configured, term, requested);
    let own = Rated { term, frequency: dictionary[term], distance: 0 };
    lemma_distance_to_itself(term);
    assert(rating(dictionary, term, term) == own);
    // The term is the first candidate, so its rating is found.
    lemma_absorb_each_extends(seq![term], groups);
    assert(words.subrange(0, 1)[0] == term);
    lemma_within_bound_contains(dictionary, term, words, bound, own);
    assert(found.contains(own));
    // Nothing is nearer, and nothing else is as near.
    lemma_nearest_is_least(found);
    let at = choose|at: int| 0 <= at < found.len() && found[at] == own;
    assert(nearest(found) <= found[at].distance);
    let kept = at_distance(found, 0);
    lemma_at_distance_contains(found, 0, own);
    assert forall|i: int| 0 <= i < kept.len() implies #[trigger] kept[i] == own by {
        assert(kept.contains(kept[i]));
        lemma_at_distance_contains(found, 0, kept[i]);
        lemma_within_bound_contains(dictionary, term, words, bound, kept[i]);
        lemma_zero_distance_means_equal(term, kept[i].term);
    }
    // The candidates are distinct, so the term is found once.
    assert(seq![term].no_duplicates());
    lemma_absorb_each_distinct(seq![term], groups);
    lemma_within_bound_distinct(dictionary, term, words, bound);
    lemma_at_distance_distinct(found, 0);
    if kept.len() > 1 {
        assert(kept[0] == kept[1]);
    }
    let k = choose|k: int| 0 <= k < kept.len() && kept[k] == own;
    assert(kept =~= seq![own]);
    lemma_ranked_is_sorted_rearrangement(kept);
    let closest = ranked(kept);
    assert(closest.contains(closest[0]));
    lemma_ranked_contains(kept, closest[0]);
    assert(closest =~= seq![own]);
}

/// Which words a lookup lists. A word is among all suggestions for a term
/// exactly if it is within the bound of the term and is either the term
/// itself, held by the dictionary, or filed under one of the strings that
/// the lookup probes: the term and its deletion variants. A word of the
/// dictionary that is within the bound and filed under none of them is not
/// listed.
pub proof fn lemma_listed_words(
    dictionary: Map<Seq<char>, usize>,
    index: Map<Seq<char>, Seq<Seq<char>>>,
    configured: u8,
    term: Seq<char>,
    requested: u8,
    word: Seq<char>,
)
    requires
        term.len() > 0,
    ensures
        suggestions(dictionary, index, configured, term, requested, Verbosity::All).contains(
            rating(dictionary, term, word),
        ) <==> reported_distance(term, word) <= effective_distance(requested, configured) && ((word
            == term && dictionary.contains_key(term)) || exists|p: int|
            0 <= p < probes(term, effective_distance(requested, configured)).len() && listed(
                index,
                #[trigger] probes(term, effective_distance(requested, configured))[p],
            ).contains(word)),
{
    let bound = effective_distance(requested, configured);
    let queue = probes(term, bound);
    let groups = queue.map_values(|p: Seq<char>| listed(index, p));
    let words = candidates(dictionary, index, term, queue);
    let found = found_for(dictionary, index, configured, term, requested);
    let own = rating(dictionary, term, word);
    lemma_ranked_contains(found, own);
    lemma_within_bound_contains(dictionary, term, words, bound, own);
    lemma_absorb_each_contains(exact_match(dictionary, term), groups, word);
    if dictionary.contains_key(term) {
        assert(seq![term][0] == term);
    }
    if exists|k: int| 0 <= k < words.len() && own == rating(dictionary, term, #[trigger] words[k]) {
        let k = choose|k: int|
            0 <= k < words.len() && own == rating(dictionary, term, #[trigger] words[k]);
        assert(words[k] == word);
        assert(words.contains(word));
    }
    if words.contains(word) {
        let k = choose|k: int| 0 <= k < words.len() && words[k] == word;
        assert(own == rating(dictionary, term, words[k]));
    }
    if exists|p: int| 0 <= p < groups.len() && #[trigger] groups[p].contains(word) {
        let p = choose|p: int| 0 <= p < groups.len() && #[trigger] groups[p].contains(word);
        assert(listed(index, queue[p]).contains(word));
    }
    if exists|p: int| 0 <= p < queue.len() && listed(index, #[trigger] queue[p]).contains(word) {
        let p = choose|p: int|
            0 <= p < queue.len() && listed(index, #[trigger] queue[p]).contains(word);
        assert(groups[p].contains(word));
    }
}

} // verus!
