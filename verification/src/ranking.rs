//! Suggestions and the choice among them: the single best, the nearest ones,
//! or all, ranked by distance and then by frequency.

use vstd::prelude::*;

verus! {

/// A word offered for a query.
#[derive(Debug, Clone, PartialEq, Eq)]
pub struct Suggestion {
    pub term: String,
    /// How often the word occurs, as the dictionary recorded it.
    pub frequency: usize,
    /// Edit distance from the query to the word.
    pub distance: u8,
}

/// What a `Suggestion` stands for.
pub struct Rated {
    pub term: Seq<char>,
    pub frequency: usize,
    pub distance: u8,
}

impl View for Suggestion {
    type V = Rated;

    open spec fn view(&self) -> Rated {
        Rated { term: self.term@, frequency: self.frequency, distance: self.distance }
    }
}

/// Which suggestions a lookup returns.
#[derive(Debug, Clone, Copy, PartialEq, Eq)]
pub enum Verbosity {
    /// The best of those found: nearest, then most frequent.
    Top,
    /// Those found at the smallest distance, most frequent first.
    Closest,
    /// All that were found, nearest first, then most frequent first.
    All,
}

/// What each of `v` stands for.
pub open spec fn rated_of(v: Seq<Suggestion>) -> Seq<Rated> {
    v.map_values(|s: Suggestion| s@)
}

/// Whether `a` must come before `b`: it is nearer, or as near and more
/// frequent.
pub open spec fn ranks_before(a: Rated, b: Rated) -> bool {
    a.distance < b.distance || (a.distance == b.distance && a.frequency > b.frequency)
}

/// `sorted` with `x` put behind every member that it need not come before.
pub open spec fn placed(sorted: Seq<Rated>, x: Rated) -> Seq<Rated>
    decreases sorted.len(),
{
    if sorted.len() == 0 {
        seq![x]
    } else if ranks_before(x, sorted.last()) {
        placed(sorted.drop_last(), x).push(sorted.last())
    } else {
        sorted.push(x)
    }
}

/// `s` in ranking order; members that tie keep the order they had in `s`.
pub open spec fn ranked(s: Seq<Rated>) -> Seq<Rated>
    decreases s.len(),
{
    if s.len() == 0 {
        s
    } else {
        placed(ranked(s.drop_last()), s.last())
    }
}

/// The smallest distance in `s`; the largest distance there is when `s` is
/// empty.
pub open spec fn nearest(s: Seq<Rated>) -> u8
    decreases s.len(),
{
    if s.len() == 0 {
        u8::MAX
    } else {
        let rest = nearest(s.drop_last());
        if s.last().distance < rest {
            s.last().distance
        } else {
            rest
        }
    }
}

/// The members of `s` at distance `d`, in their order.
pub open spec fn at_distance(s: Seq<Rated>, d: u8) -> Seq<Rated>
    decreases s.len(),
{
    if s.len() == 0 {
        s
    } else if s.last().distance == d {
        at_distance(s.drop_last(), d).push(s.last())
    } else {
        at_distance(s.drop_last(), d)
    }
}

/// What a lookup with `verbosity` returns of the suggestions `found`.
pub open spec fn selected(verbosity: Verbosity, found: Seq<Rated>) -> Seq<Rated> {
    match verbosity {
        Verbosity::All => ranked(found),
        Verbosity::Closest => ranked(at_distance(found, nearest(found))),
        Verbosity::Top => {
            let closest = ranked(at_distance(found, nearest(found)));
            if closest.len() == 0 {
                closest
            } else {
                seq![closest[0]]
            }
        },
    }
}

/// Whether no member of `s` must come before an earlier one.
pub open spec fn in_ranking_order(s: Seq<Rated>) -> bool {
    forall|i: int, j: int| 0 <= i < j < s.len() ==> !ranks_before(s[j], s[i])
}

/// Placing `x` is inserting it at the position behind which every member
/// must follow it, and before which the nearest member need not.
pub proof fn lemma_placed_is_insert(sorted: Seq<Rated>, x: Rated, pos: int)
    requires
        0 <= pos <= sorted.len(),
        forall|k: int| pos <= k < sorted.len() ==> ranks_before(x, sorted[k]),
        pos > 0 ==> !ranks_before(x, sorted[pos - 1]),
    ensures
        placed(sorted, x) == sorted.insert(pos, x),
    decreases sorted.len(),
{
    if sorted.len() == 0 {
        assert(seq![x] =~= sorted.insert(pos, x));
    } else if pos == sorted.len() {
        assert(sorted.push(x) =~= sorted.insert(pos, x));
    } else {
        lemma_placed_is_insert(sorted.drop_last(), x, pos);
        assert(sorted.drop_last().insert(pos, x).push(sorted.last()) =~= sorted.insert(pos, x));
    }
}

/// Placing adds `x` and nothing else.
pub proof fn lemma_placed_members(sorted: Seq<Rated>, x: Rated)
    ensures
        placed(sorted, x).len() == sorted.len() + 1,
        placed(sorted, x).to_multiset() == sorted.to_multiset().insert(x),
    decreases sorted.len(),
{
    broadcast use vstd::seq_lib::group_to_multiset_ensures;

    if sorted.len() == 0 {
        assert(seq![x] =~= Seq::<Rated>::empty().push(x));
    } else if ranks_before(x, sorted.last()) {
        lemma_placed_members(sorted.drop_last(), x);
        assert(sorted =~= sorted.drop_last().push(sorted.last()));
        assert(placed(sorted, x).to_multiset() =~= sorted.to_multiset().insert(x));
    }
}

/// Placing into a ranked sequence leaves it ranked.
pub proof fn lemma_placed_keeps_order(sorted: Seq<Rated>, x: Rated)
    requires
        in_ranking_order(sorted),
    ensures
        in_ranking_order(placed(sorted, x)),
    decreases sorted.len(),
{
    if sorted.len() > 0 && ranks_before(x, sorted.last()) {
        let front = sorted.drop_last();
        assert(in_ranking_order(front)) by {
            assert forall|i: int, j: int| 0 <= i < j < front.len() implies !ranks_before(
                front[j],
                front[i],
            ) by {
                assert(!ranks_before(sorted[j], sorted[i]));
            }
        }
        lemma_placed_keeps_order(front, x);
        lemma_placed_members(front, x);
        broadcast use vstd::seq_lib::group_to_multiset_ensures;

        let inner = placed(front, x);
        let out = inner.push(sorted.last());
        assert forall|i: int, j: int| 0 <= i < j < out.len() implies !ranks_before(
            out[j],
            out[i],
        ) by {
            if j < inner.len() {
                assert(!ranks_before(inner[j], inner[i]));
            } else {
                assert(inner.to_multiset().count(inner[i]) > 0);
                if inner[i] != x {
                    assert(front.to_multiset().count(inner[i]) > 0);
                    assert(front.contains(inner[i]));
                    let k = choose|k: int| 0 <= k < front.len() && front[k] == inner[i];
                    assert(!ranks_before(sorted[sorted.len() - 1], sorted[k]));
                }
            }
        }
    } else if sorted.len() > 0 {
        let out = sorted.push(x);
        assert forall|i: int, j: int| 0 <= i < j < out.len() implies !ranks_before(
            out[j],
            out[i],
        ) by {
            if j < sorted.len() {
                assert(!ranks_before(sorted[j], sorted[i]));
            } else if i < sorted.len() - 1 {
                assert(!ranks_before(sorted[sorted.len() - 1], sorted[i]));
            }
        }
    }
}

/// Ranking rearranges: it neither adds nor drops a member, and what it gives
/// is in ranking order.
pub proof fn lemma_ranked_is_sorted_rearrangement(s: Seq<Rated>)
    ensures
        ranked(s).len() == s.len(),
        ranked(s).to_multiset() == s.to_multiset(),
        in_ranking_order(ranked(s)),
    decreases s.len(),
{
    broadcast use vstd::seq_lib::group_to_multiset_ensures;

    if s.len() > 0 {
        lemma_ranked_is_sorted_rearrangement(s.drop_last());
        lemma_placed_members(ranked(s.drop_last()), s.last());
        lemma_placed_keeps_order(ranked(s.drop_last()), s.last());
        assert(s =~= s.drop_last().push(s.last()));
    }
}

/// A ranked sequence holds exactly the members of the sequence it was made
/// of.
pub proof fn lemma_ranked_contains(s: Seq<Rated>, x: Rated)
    ensures
        ranked(s).contains(x) <==> s.contains(x),
{
    broadcast use vstd::seq_lib::group_to_multiset_ensures;

    lemma_ranked_is_sorted_rearrangement(s);
    assert(ranked(s).contains(x) <==> ranked(s).to_multiset().count(x) > 0);
    assert(s.contains(x) <==> s.to_multiset().count(x) > 0);
}

/// The smallest distance is a lower bound, and some member attains it.
pub proof fn lemma_nearest_is_least(s: Seq<Rated>)
    ensures
        forall|i: int| 0 <= i < s.len() ==> nearest(s) <= (#[trigger] s[i]).distance,
        s.len() > 0 ==> exists|i: int| 0 <= i < s.len() && (#[trigger] s[i]).distance == nearest(s),
    decreases s.len(),
{
    if s.len() > 0 {
        let front = s.drop_last();
        lemma_nearest_is_least(front);
        assert forall|i: int| 0 <= i < s.len() implies nearest(s) <= (#[trigger] s[i]).distance by {
            if i < front.len() {
                assert(front[i] == s[i]);
            }
        }
        if s.last().distance < nearest(front) || front.len() == 0 {
            assert(s[s.len() - 1].distance == nearest(s));
        } else {
            let i = choose|i: int| 0 <= i < front.len() && (#[trigger] front[i]).distance == nearest(front);
            assert(s[i].distance == nearest(s));
        }
    }
}

/// The members at distance `d` are exactly the members with that distance.
pub proof fn lemma_at_distance_contains(s: Seq<Rated>, d: u8, x: Rated)
    ensures
        at_distance(s, d).contains(x) <==> s.contains(x) && x.distance == d,
        at_distance(s, d).len() <= s.len(),
    decreases s.len(),
{
    if s.len() > 0 {
        let front = s.drop_last();
        lemma_at_distance_contains(front, d, x);
        let kept = at_distance(front, d);
        if front.contains(x) {
            let k = choose|k: int| 0 <= k < front.len() && front[k] == x;
            assert(s[k] == x);
        }
        if s.contains(x) {
            let k = choose|k: int| 0 <= k < s.len() && s[k] == x;
            if k < front.len() {
                assert(front[k] == x);
            }
        }
        if s.last().distance == d {
            let out = kept.push(s.last());
            assert(out[kept.len() as int] == s.last());
            if kept.contains(x) {
                let k = choose|k: int| 0 <= k < kept.len() && kept[k] == x;
                assert(out[k] == x);
            }
            if out.contains(x) {
                let k = choose|k: int| 0 <= k < out.len() && out[k] == x;
                if k < kept.len() {
                    assert(kept[k] == x);
                }
            }
            assert(s[s.len() - 1] == s.last());
        }
    }
}

/// Keeping the members at one distance keeps them distinct.
pub proof fn lemma_at_distance_distinct(s: Seq<Rated>, d: u8)
    requires
        s.no_duplicates(),
    ensures
        at_distance(s, d).no_duplicates(),
    decreases s.len(),
{
    if s.len() > 0 {
        lemma_at_distance_distinct(s.drop_last(), d);
        lemma_at_distance_contains(s.drop_last(), d, s.last());
        if s.drop_last().contains(s.last()) {
            let k = choose|k: int| 0 <= k < s.drop_last().len() && s.drop_last()[k] == s.last();
            assert(s[k] == s[s.len() - 1]);
        }
    }
}

fn copy_of(s: &Suggestion) -> (c: Suggestion)
    ensures
        c@ == s@,
{
    Suggestion { term: s.term.clone(), frequency: s.frequency, distance: s.distance }
}

fn must_precede(a: &Suggestion, b: &Suggestion) -> (before: bool)
    ensures
        before == ranks_before(a@, b@),
{
    a.distance < b.distance || (a.distance == b.distance && a.frequency > b.frequency)
}

/// Puts `found` in ranking order: nearest first, among equally near ones the
/// most frequent first, and otherwise as they came.
pub fn rank(found: &Vec<Suggestion>) -> (out: Vec<Suggestion>)
    ensures
        rated_of(out@) == ranked(rated_of(found@)),
{
    let mut out: Vec<Suggestion> = Vec::new();
    let ghost all = rated_of(found@);
    assert(rated_of(out@) =~= ranked(all.take(0)));
    for i in 0..found.len()
        invariant
            all == rated_of(found@),
            rated_of(out@) == ranked(all.take(i as int)),
    {
        let x: Suggestion = copy_of(&found[i]);
        let ghost sorted = rated_of(out@);
        let mut pos: usize = out.len();
        while pos > 0 && must_precede(&x, &out[pos - 1])
            invariant
                pos <= out.len(),
                sorted == rated_of(out@),
                forall|k: int| pos <= k < sorted.len() ==> ranks_before(x@, sorted[k]),
            decreases pos,
        {
            pos = pos - 1;
        }
        proof {
            lemma_placed_is_insert(sorted, x@, pos as int);
            assert(all.take(i + 1).drop_last() =~= all.take(i as int));
        }
        out.insert(pos, x);
        assert(rated_of(out@) =~= sorted.insert(pos as int, x@));
    }
    assert(all.take(found.len() as int) =~= all);
    out
}

/// The smallest distance among `found`.
pub fn smallest_distance(found: &Vec<Suggestion>) -> (d: u8)
    ensures
        d == nearest(rated_of(found@)),
{
    let mut d: u8 = u8::MAX;
    let ghost all = rated_of(found@);
    for i in 0..found.len()
        invariant
            all == rated_of(found@),
            d == nearest(all.take(i as int)),
    {
        assert(all.take(i + 1).drop_last() =~= all.take(i as int));
        if found[i].distance < d {
            d = found[i].distance;
        }
    }
    assert(all.take(found.len() as int) =~= all);
    d
}

/// Those of `found` at distance `d`, in their order.
pub fn keep_at_distance(found: &Vec<Suggestion>, d: u8) -> (out: Vec<Suggestion>)
    ensures
        rated_of(out@) == at_distance(rated_of(found@), d),
{
    let mut out: Vec<Suggestion> = Vec::new();
    let ghost all = rated_of(found@);
    assert(rated_of(out@) =~= at_distance(all.take(0), d));
    for i in 0..found.len()
        invariant
            all == rated_of(found@),
            rated_of(out@) == at_distance(all.take(i as int), d),
    {
        assert(all.take(i + 1).drop_last() =~= all.take(i as int));
        if found[i].distance == d {
            let ghost kept = rated_of(out@);
            out.push(copy_of(&found[i]));
            assert(rated_of(out@) =~= kept.push(all[i as int]));
        }
    }
    assert(all.take(found.len() as int) =~= all);
    out
}

/// Chooses among the suggestions `found` what `verbosity` asks for.
pub fn select(found: &Vec<Suggestion>, verbosity: Verbosity) -> (out: Vec<Suggestion>)
    ensures
        rated_of(out@) == selected(verbosity, rated_of(found@)),
{
    match verbosity {
        Verbosity::All => rank(found),
        Verbosity::Closest => {
            let least: u8 = smallest_distance(found);
            rank(&keep_at_distance(found, least))
        },
        Verbosity::Top => {
            let least: u8 = smallest_distance(found);
            let closest: Vec<Suggestion> = rank(&keep_at_distance(found, least));
            let mut out: Vec<Suggestion> = Vec::new();
            if closest.len() > 0 {
                out.push(copy_of(&closest[0]));
                assert(rated_of(out@) =~= seq![rated_of(closest@)[0]]);
            } else {
                assert(rated_of(out@) =~= rated_of(closest@));
            }
            out
        },
    }
}

} // verus!
