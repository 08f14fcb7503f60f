//! Deletion variants: the strings that a bounded number of single-character
//! deletions makes of a word, in the order in which a breadth-first expansion
//! meets them.

use vstd::hash_set::StringHashSet;
use vstd::prelude::*;
use vstd::string::*;
use crate::text::{lemma_push_contains, without_char, words};

verus! {

/// The strings that deleting one character of `s` gives, by the position of
/// the deleted character. A string without characters gives none.
pub open spec fn deletions(s: Seq<char>) -> Seq<Seq<char>> {
    Seq::new(s.len(), |i: int| s.remove(i))
}

/// `acc`, followed by `item` unless `acc` holds it already.
pub open spec fn with_new<A>(acc: Seq<A>, item: A) -> Seq<A> {
    if acc.contains(item) {
        acc
    } else {
        acc.push(item)
    }
}

/// `acc`, followed by those of `items` that it does not hold yet, each once,
/// in the order of their first occurrence.
pub open spec fn absorb<A>(acc: Seq<A>, items: Seq<A>) -> Seq<A>
    decreases items.len(),
{
    if items.len() == 0 {
        acc
    } else {
        with_new(absorb(acc, items.drop_last()), items.last())
    }
}

/// `acc` after absorbing each of `groups` in turn.
pub open spec fn absorb_each<A>(acc: Seq<A>, groups: Seq<Seq<A>>) -> Seq<A>
    decreases groups.len(),
{
    if groups.len() == 0 {
        acc
    } else {
        absorb(absorb_each(acc, groups.drop_last()), groups.last())
    }
}

/// The distinct strings one deletion away from a member of `level`, in the
/// order in which walking `level` meets them.
pub open spec fn next_level(level: Seq<Seq<char>>) -> Seq<Seq<char>> {
    absorb_each(Seq::empty(), level.map_values(|u: Seq<char>| deletions(u)))
}

/// The distinct strings exactly `k` deletions away from `word`.
pub open spec fn level(word: Seq<char>, k: nat) -> Seq<Seq<char>>
    decreases k,
{
    if k == 0 {
        seq![word]
    } else {
        next_level(level(word, (k - 1) as nat))
    }
}

/// `word` followed by the strings at most `n` deletions away from it, nearest
/// first.
pub open spec fn expansion(word: Seq<char>, n: nat) -> Seq<Seq<char>>
    decreases n,
{
    if n == 0 {
        seq![word]
    } else {
        expansion(word, (n - 1) as nat) + level(word, n)
    }
}

/// The deletion variants of `word`: the strings that between one and `n`
/// deletions make of it.
pub open spec fn deletion_variants(word: Seq<char>, n: nat) -> Seq<Seq<char>> {
    expansion(word, n).skip(1)
}

/// The first `limit` members of `s`, or all of `s` without a limit.
pub open spec fn capped<A>(s: Seq<A>, limit: Option<usize>) -> Seq<A> {
    match limit {
        Some(c) if c < s.len() => s.take(c as int),
        _ => s,
    }
}

/// Absorbing only appends.
pub proof fn lemma_absorb_extends<A>(acc: Seq<A>, items: Seq<A>)
    ensures
        acc.is_prefix_of(absorb(acc, items)),
    decreases items.len(),
{
    if items.len() > 0 {
        lemma_absorb_extends(acc, items.drop_last());
    }
}

/// Absorbing a shorter run of the same items gives a prefix.
pub proof fn lemma_absorb_partial<A>(acc: Seq<A>, items: Seq<A>, i: int)
    requires
        0 <= i <= items.len(),
    ensures
        absorb(acc, items.take(i)).is_prefix_of(absorb(acc, items)),
    decreases items.len(),
{
    if i == items.len() {
        assert(items.take(i) =~= items);
    } else {
        lemma_absorb_partial(acc, items.drop_last(), i);
        assert(items.drop_last().take(i) =~= items.take(i));
    }
}

/// Absorbing groups only appends.
pub proof fn lemma_absorb_each_extends<A>(acc: Seq<A>, groups: Seq<Seq<A>>)
    ensures
        acc.is_prefix_of(absorb_each(acc, groups)),
    decreases groups.len(),
{
    if groups.len() > 0 {
        lemma_absorb_each_extends(acc, groups.drop_last());
        lemma_absorb_extends(absorb_each(acc, groups.drop_last()), groups.last());
    }
}

/// Stopping inside group `p`, after `i` of its items, gives a prefix of
/// what absorbing every group gives.
pub proof fn lemma_absorb_each_partial<A>(acc: Seq<A>, groups: Seq<Seq<A>>, p: int, i: int)
    requires
        0 <= p < groups.len(),
        0 <= i <= groups[p].len(),
    ensures
        absorb(absorb_each(acc, groups.take(p)), groups[p].take(i)).is_prefix_of(
            absorb_each(acc, groups),
        ),
    decreases groups.len(),
{
    if p == groups.len() - 1 {
        assert(groups.take(p) =~= groups.drop_last());
        lemma_absorb_partial(absorb_each(acc, groups.drop_last()), groups.last(), i);
    } else {
        lemma_absorb_each_partial(acc, groups.drop_last(), p, i);
        assert(groups.drop_last().take(p) =~= groups.take(p));
        lemma_absorb_extends(absorb_each(acc, groups.drop_last()), groups.last());
    }
}

/// What absorbing holds is what was held before and what was absorbed.
pub proof fn lemma_absorb_contains<A>(acc: Seq<A>, items: Seq<A>, x: A)
    ensures
        absorb(acc, items).contains(x) <==> acc.contains(x) || items.contains(x),
    decreases items.len(),
{
    if items.len() > 0 {
        let rest = items.drop_last();
        lemma_absorb_contains(acc, rest, x);
        let before = absorb(acc, rest);
        if items.contains(x) {
            let k = choose|k: int| 0 <= k < items.len() && items[k] == x;
            if k < rest.len() {
                assert(rest[k] == x);
            }
        }
        if rest.contains(x) {
            let k = choose|k: int| 0 <= k < rest.len() && rest[k] == x;
            assert(items[k] == x);
        }
        if !before.contains(items.last()) {
            let after = before.push(items.last());
            if after.contains(x) {
                let k = choose|k: int| 0 <= k < after.len() && after[k] == x;
                if k < before.len() {
                    assert(before[k] == x);
                } else {
                    assert(items[items.len() - 1] == x);
                }
            }
            if before.contains(x) {
                let k = choose|k: int| 0 <= k < before.len() && before[k] == x;
                assert(after[k] == x);
            }
            if items.last() == x {
                assert(after[before.len() as int] == x);
            }
        } else if items.last() == x {
        }
    }
}

/// Absorbing never repeats a member.
pub proof fn lemma_absorb_distinct<A>(acc: Seq<A>, items: Seq<A>)
    requires
        acc.no_duplicates(),
    ensures
        absorb(acc, items).no_duplicates(),
    decreases items.len(),
{
    if items.len() > 0 {
        lemma_absorb_distinct(acc, items.drop_last());
    }
}

/// Absorbing groups never repeats a member.
pub proof fn lemma_absorb_each_distinct<A>(acc: Seq<A>, groups: Seq<Seq<A>>)
    requires
        acc.no_duplicates(),
    ensures
        absorb_each(acc, groups).no_duplicates(),
    decreases groups.len(),
{
    if groups.len() > 0 {
        lemma_absorb_each_distinct(acc, groups.drop_last());
        lemma_absorb_distinct(absorb_each(acc, groups.drop_last()), groups.last());
    }
}

/// What absorbing groups holds is what was held before and the members of
/// the groups.
pub proof fn lemma_absorb_each_contains<A>(acc: Seq<A>, groups: Seq<Seq<A>>, x: A)
    ensures
        absorb_each(acc, groups).contains(x) <==> acc.contains(x) || exists|p: int|
            0 <= p < groups.len() && #[trigger] groups[p].contains(x),
    decreases groups.len(),
{
    if groups.len() > 0 {
        let rest = groups.drop_last();
        lemma_absorb_each_contains(acc, rest, x);
        lemma_absorb_contains(absorb_each(acc, rest), groups.last(), x);
        if exists|p: int| 0 <= p < rest.len() && #[trigger] rest[p].contains(x) {
            let p = choose|p: int| 0 <= p < rest.len() && #[trigger] rest[p].contains(x);
            assert(groups[p].contains(x));
        }
        if exists|p: int| 0 <= p < groups.len() && #[trigger] groups[p].contains(x) {
            let p = choose|p: int| 0 <= p < groups.len() && #[trigger] groups[p].contains(x);
            if p < rest.len() {
                assert(rest[p].contains(x));
            }
        }
        if groups.last().contains(x) {
            assert(groups[groups.len() - 1].contains(x));
        }
    }
}

/// The next level holds exactly the strings one deletion away from a member
/// of the level, each once.
pub proof fn lemma_next_level_contains(level: Seq<Seq<char>>, v: Seq<char>)
    ensures
        next_level(level).no_duplicates(),
        next_level(level).contains(v) <==> exists|p: int, i: int|
            0 <= p < level.len() && 0 <= i < level[p].len() && v == #[trigger] level[p].remove(i),
{
    let groups = level.map_values(|u: Seq<char>| deletions(u));
    lemma_absorb_each_distinct(Seq::empty(), groups);
    lemma_absorb_each_contains(Seq::empty(), groups, v);
    if exists|p: int| 0 <= p < groups.len() && #[trigger] groups[p].contains(v) {
        let p = choose|p: int| 0 <= p < groups.len() && #[trigger] groups[p].contains(v);
        let i = choose|i: int| 0 <= i < groups[p].len() && groups[p][i] == v;
        assert(v == level[p].remove(i));
    }
    if exists|p: int, i: int|
        0 <= p < level.len() && 0 <= i < level[p].len() && v == #[trigger] level[p].remove(i) {
        let (p, i) = choose|p: int, i: int|
            0 <= p < level.len() && 0 <= i < level[p].len() && v == #[trigger] level[p].remove(i);
        assert(groups[p][i] == v);
        assert(groups[p].contains(v));
    }
}

/// A string `k` deletions away from `word` is `k` characters shorter, and a
/// level holds each of its strings once.
pub proof fn lemma_level_lengths(word: Seq<char>, k: nat)
    ensures
        level(word, k).no_duplicates(),
        forall|j: int|
            0 <= j < level(word, k).len() ==> (#[trigger] level(word, k)[j]).len() + k
                == word.len(),
    decreases k,
{
    if k > 0 {
        let above = level(word, (k - 1) as nat);
        lemma_level_lengths(word, (k - 1) as nat);
        assert forall|j: int| 0 <= j < level(word, k).len() implies (#[trigger] level(
            word,
            k,
        )[j]).len() + k == word.len() by {
            let v = level(word, k)[j];
            assert(level(word, k).contains(v));
            lemma_next_level_contains(above, v);
            let (p, i) = choose|p: int, i: int|
                0 <= p < above.len() && 0 <= i < above[p].len() && v == #[trigger] above[p].remove(
                    i,
                );
            assert(above[p].len() + (k - 1) == word.len());
        }
        lemma_next_level_contains(above, word);
    }
}

/// An expansion holds each of its strings once, and none that is more than
/// `n` characters shorter than `word`.
pub proof fn lemma_expansion_distinct(word: Seq<char>, n: nat)
    ensures
        expansion(word, n).no_duplicates(),
        deletion_variants(word, n).no_duplicates(),
        forall|j: int|
            0 <= j < expansion(word, n).len() ==> (#[trigger] expansion(word, n)[j]).len() + n
                >= word.len(),
    decreases n,
{
    if n > 0 {
        lemma_expansion_distinct(word, (n - 1) as nat);
        lemma_level_lengths(word, n);
    }
    lemma_expansion_grows(word, 0, n);
    let all = expansion(word, n);
    assert forall|i: int, j: int|
        0 <= i < all.skip(1).len() && 0 <= j < all.skip(1).len() && i != j implies all.skip(1)[i]
        != all.skip(1)[j] by {
        assert(all[i + 1] != all[j + 1]);
    }
}

/// Whether the positions `at` pick `v` out of `w`: they go up, there is one
/// for each character of `v`, and each holds that character in `w`.
pub open spec fn picks(w: Seq<char>, at: Seq<int>, v: Seq<char>) -> bool {
    &&& at.len() == v.len()
    &&& forall|i: int| 0 <= i < at.len() ==> 0 <= #[trigger] at[i] < w.len() && w[at[i]] == v[i]
    &&& forall|i: int, j: int| 0 <= i < j < at.len() ==> at[i] < at[j]
}

/// Whether `v` is `w` without `k` of its characters.
pub open spec fn is_cut(w: Seq<char>, v: Seq<char>, k: nat) -> bool {
    v.len() + k == w.len() && exists|at: Seq<int>| picks(w, at, v)
}

/// The first position at or behind `from` that `at` skips: the first `j`
/// with `at[j] > j`, or the length of `at` if it skips none.
pub open spec fn first_skip(at: Seq<int>, from: int) -> int
    decreases at.len() - from,
{
    if from >= at.len() {
        at.len() as int
    } else if at[from] > from {
        from
    } else {
        first_skip(at, from + 1)
    }
}

proof fn lemma_first_skip(at: Seq<int>, from: int)
    requires
        0 <= from <= at.len(),
        forall|i: int| 0 <= i < at.len() ==> 0 <= #[trigger] at[i],
        forall|i: int, j: int| 0 <= i < j < at.len() ==> at[i] < at[j],
        forall|i: int| 0 <= i < from ==> #[trigger] at[i] == i,
    ensures
        from <= first_skip(at, from) <= at.len(),
        forall|i: int| 0 <= i < first_skip(at, from) ==> #[trigger] at[i] == i,
        forall|i: int| first_skip(at, from) <= i < at.len() ==> #[trigger] at[i] > first_skip(
            at,
            from,
        ),
    decreases at.len() - from,
{
    if from < at.len() {
        if from > 0 {
            assert(at[from - 1] < at[from]);
        }
        if at[from] > from {
            assert forall|i: int| from <= i < at.len() implies #[trigger] at[i] > from by {
                if i > from {
                    assert(at[from] < at[i]);
                }
            }
        } else {
            lemma_first_skip(at, from + 1);
        }
    }
}

/// A word without none of its characters is the word.
proof fn lemma_whole_word(word: Seq<char>, v: Seq<char>)
    ensures
        is_cut(word, v, 0) <==> v == word,
{
    if v == word {
        let at = Seq::new(word.len(), |i: int| i);
        assert(picks(word, at, v));
    }
    if is_cut(word, v, 0) {
        let at = choose|at: Seq<int>| picks(word, at, v);
        lemma_first_skip(at, 0);
        let j = first_skip(at, 0);
        if j < at.len() {
            // A skip would push the last position out of the word.
            lemma_picked_from_behind(word, at, v, j);
        }
        assert forall|i: int| 0 <= i < v.len() implies v[i] == word[i] by {
            assert(at[i] == i);
        }
        assert(v =~= word);
    }
}

/// Deleting a character of a word without `k` of its characters leaves the
/// word without one more.
proof fn lemma_cut_further(word: Seq<char>, u: Seq<char>, k: nat, i: int)
    requires
        is_cut(word, u, k),
        0 <= i < u.len(),
    ensures
        is_cut(word, u.remove(i), k + 1),
{
    let at = choose|at: Seq<int>| picks(word, at, u);
    let fewer = at.remove(i);
    let v = u.remove(i);
    assert forall|a: int| 0 <= a < fewer.len() implies 0 <= #[trigger] fewer[a] < word.len()
        && word[fewer[a]] == v[a] by {
        if a < i {
            assert(fewer[a] == at[a]);
        } else {
            assert(fewer[a] == at[a + 1]);
        }
    }
    assert forall|a: int, b: int| 0 <= a < b < fewer.len() implies fewer[a] < fewer[b] by {
        let from = if a < i { a } else { a + 1 };
        let to = if b < i { b } else { b + 1 };
        assert(at[from] < at[to]);
    }
    assert(picks(word, fewer, v));
}

/// A word without some of its characters is, with one of them put back, the
/// word without one less.
proof fn lemma_cut_less(word: Seq<char>, v: Seq<char>, k: nat) -> (j: int)
    requires
        is_cut(word, v, k),
        k > 0,
    ensures
        0 <= j <= v.len(),
        j < word.len(),
        is_cut(word, v.insert(j, word[j]), (k - 1) as nat),
{
    let at = choose|at: Seq<int>| picks(word, at, v);
    lemma_first_skip(at, 0);
    let j = first_skip(at, 0);
    // Position `j` of the word is not picked: put it back.
    let u = v.insert(j, word[j]);
    let wider = at.insert(j, j);
    assert forall|i: int| 0 <= i < wider.len() implies 0 <= #[trigger] wider[i] < word.len()
        && word[wider[i]] == u[i] by {
        if i < j {
            assert(wider[i] == at[i]);
        } else if i > j {
            assert(wider[i] == at[i - 1]);
        }
    }
    assert forall|a: int, b: int| 0 <= a < b < wider.len() implies wider[a] < wider[b] by {
        if a < j {
            assert(wider[a] == at[a]);
        } else if a > j {
            assert(wider[a] == at[a - 1]);
        }
        if b < j {
            assert(wider[b] == at[b]);
        } else if b > j {
            assert(wider[b] == at[b - 1]);
        }
    }
    assert(picks(word, wider, u));
    j
}

/// The strings `k` deletions away from a word are the word without `k` of
/// its characters.
pub proof fn lemma_level_is_cuts(word: Seq<char>, k: nat, v: Seq<char>)
    ensures
        level(word, k).contains(v) <==> is_cut(word, v, k),
    decreases k,
{
    if k == 0 {
        assert(seq![word][0] == word);
        lemma_whole_word(word, v);
    } else {
        let above = level(word, (k - 1) as nat);
        lemma_next_level_contains(above, v);
        if level(word, k).contains(v) {
            let (p, i) = choose|p: int, i: int|
                0 <= p < above.len() && 0 <= i < above[p].len() && v == #[trigger] above[p].remove(
                    i,
                );
            assert(above.contains(above[p]));
            lemma_level_is_cuts(word, (k - 1) as nat, above[p]);
            lemma_cut_further(word, above[p], (k - 1) as nat, i);
        }
        if is_cut(word, v, k) {
            let j = lemma_cut_less(word, v, k);
            let u = v.insert(j, word[j]);
            lemma_level_is_cuts(word, (k - 1) as nat, u);
            let p = choose|p: int| 0 <= p < above.len() && above[p] == u;
            assert(u.remove(j) =~= v);
            assert(v == above[p].remove(j));
        }
    }
}

/// Positions that go up and skip one end behind the word.
proof fn lemma_picked_from_behind(w: Seq<char>, at: Seq<int>, v: Seq<char>, j: int)
    requires
        picks(w, at, v),
        0 <= j < at.len(),
        at[j] > j,
    ensures
        at.len() < w.len(),
{
    lemma_picked_position(at, j, at.len() - 1);
}

proof fn lemma_picked_position(at: Seq<int>, j: int, i: int)
    requires
        0 <= j <= i < at.len(),
        at[j] > j,
        forall|a: int, b: int| 0 <= a < b < at.len() ==> at[a] < at[b],
    ensures
        at[i] > i,
    decreases i - j,
{
    if i > j {
        lemma_picked_position(at, j, i - 1);
        assert(at[i - 1] < at[i]);
    }
}

/// The deletion variants of a word are the word without some of its
/// characters: at least one, and no more than the distance allows.
pub proof fn lemma_variants_are_cuts(word: Seq<char>, n: nat, v: Seq<char>)
    ensures
        deletion_variants(word, n).contains(v) <==> exists|k: nat|
            1 <= k <= n && #[trigger] is_cut(word, v, k),
    decreases n,
{
    lemma_expansion_grows(word, 0, n);
    if n == 0 {
        assert(deletion_variants(word, 0) =~= Seq::empty());
    } else {
        let before = deletion_variants(word, (n - 1) as nat);
        let last = level(word, n);
        let all = deletion_variants(word, n);
        lemma_expansion_grows(word, 0, (n - 1) as nat);
        assert(all =~= before + last);
        lemma_variants_are_cuts(word, (n - 1) as nat, v);
        lemma_level_is_cuts(word, n, v);
        if before.contains(v) {
            let i = choose|i: int| 0 <= i < before.len() && before[i] == v;
            assert(all[i] == v);
            let k = choose|k: nat| 1 <= k <= n - 1 && #[trigger] is_cut(word, v, k);
            assert(1 <= k <= n && is_cut(word, v, k));
        }
        if last.contains(v) {
            let i = choose|i: int| 0 <= i < last.len() && last[i] == v;
            assert(all[before.len() + i] == v);
            assert(is_cut(word, v, n));
        }
        if all.contains(v) {
            let i = choose|i: int| 0 <= i < all.len() && all[i] == v;
            if i < before.len() {
                assert(before[i] == v);
            } else {
                assert(last[i - before.len()] == v);
            }
        }
        if exists|k: nat| 1 <= k <= n && #[trigger] is_cut(word, v, k) {
            let k = choose|k: nat| 1 <= k <= n && #[trigger] is_cut(word, v, k);
            if k < n {
                assert(1 <= k <= n - 1 && is_cut(word, v, k));
            }
        }
    }
}

/// A longer expansion starts with every shorter one.
pub proof fn lemma_expansion_grows(word: Seq<char>, k: nat, n: nat)
    requires
        k <= n,
    ensures
        expansion(word, k).is_prefix_of(expansion(word, n)),
    decreases n,
{
    if k < n {
        lemma_expansion_grows(word, k, (n - 1) as nat);
    }
}

/// Once a level is empty, so is every later one, and the expansion has
/// reached its fixed point.
pub proof fn lemma_expansion_settles(word: Seq<char>, k: nat, n: nat)
    requires
        k <= n,
        level(word, k).len() == 0,
    ensures
        level(word, n).len() == 0,
        expansion(word, n) == expansion(word, k),
    decreases n,
{
    if k < n {
        lemma_expansion_settles(word, k, (n - 1) as nat);
        let above = level(word, (n - 1) as nat);
        assert(above.map_values(|u: Seq<char>| deletions(u)).len() == 0);
        assert(expansion(word, n) =~= expansion(word, k));
    }
}

/// Expands `word` breadth first by up to `depth` deletions and returns what
/// it met, `word` first. With a limit, the expansion stops as soon as it
/// holds that many strings.
pub fn expand(word: &str, depth: u8, limit: Option<usize>) -> (queue: Vec<String>)
    ensures
        words(queue@) == capped(expansion(word@, depth as nat), limit),
{
    let ghost w = word@;
    let ghost full = expansion(w, depth as nat);
    let mut queue: Vec<String> = Vec::new();
    if let Some(c) = limit {
        if c == 0 {
            assert(words(queue@) =~= full.take(0));
            return queue;
        }
    }
    queue.push(word.to_owned());
    assert(words(queue@) =~= expansion(w, 0));
    let mut start: usize = 0;
    let mut k: u8 = 0;
    while k < depth
        invariant
            w == word@,
            full == expansion(w, depth as nat),
            k <= depth,
            start <= queue.len(),
            words(queue@) == expansion(w, k as nat),
            words(queue@).skip(start as int) == level(w, k as nat),
            limit matches Some(c) ==> queue.len() <= c,
        decreases depth - k,
    {
        let end: usize = queue.len();
        if start == end {
            proof {
                lemma_expansion_settles(w, k as nat, depth as nat);
            }
            return queue;
        }
        let ghost done = expansion(w, k as nat);
        let ghost current = level(w, k as nat);
        let ghost groups = current.map_values(|u: Seq<char>| deletions(u));
        // What the next level holds so far.
        let mut met_here: StringHashSet = StringHashSet::new();
        assert(words(queue@).skip(end as int) =~= Seq::empty());
        for idx in start..end
            invariant
                forall|x: Seq<char>|
                    met_here@.contains(x) <==> words(queue@).skip(end as int).contains(x),
                w == word@,
                full == expansion(w, depth as nat),
                k < depth,
                start < end,
                end <= queue.len(),
                end == done.len(),
                done == expansion(w, k as nat),
                current == level(w, k as nat),
                current == done.skip(start as int),
                groups == current.map_values(|u: Seq<char>| deletions(u)),
                words(queue@) == done + absorb_each(Seq::empty(), groups.take(idx - start)),
                limit matches Some(c) ==> queue.len() <= c,
        {
            let cur: String = queue[idx].clone();
            let n: usize = cur.as_str().unicode_len();
            let ghost met = absorb_each(Seq::<Seq<char>>::empty(), groups.take(idx - start));
            assert(words(queue@)[idx as int] == cur@);
            assert(cur@ == current[idx - start]);
            assert(groups[idx - start] == deletions(cur@));
            for i in 0..n
                invariant
                    w == word@,
                    full == expansion(w, depth as nat),
                    k < depth,
                    start <= idx < end,
                    end == done.len(),
                    end <= queue.len(),
                    n == cur@.len(),
                    done == expansion(w, k as nat),
                    current == level(w, k as nat),
                    groups == current.map_values(|u: Seq<char>| deletions(u)),
                    groups.len() == end - start,
                    groups[idx - start] == deletions(cur@),
                    met == absorb_each(Seq::<Seq<char>>::empty(), groups.take(idx - start)),
                    words(queue@) == done + absorb(met, deletions(cur@).take(i as int)),
                    limit matches Some(c) ==> queue.len() <= c,
                    forall|x: Seq<char>|
                        met_here@.contains(x) <==> words(queue@).skip(end as int).contains(x),
            {
                let ghost part = absorb(met, deletions(cur@).take(i as int));
                if let Some(c) = limit {
                    if queue.len() >= c {
                        proof {
                            lemma_absorb_each_partial(
                                Seq::<Seq<char>>::empty(),
                                groups,
                                idx - start,
                                i as int,
                            );
                            lemma_expansion_grows(w, (k + 1) as nat, depth as nat);
                            let next = expansion(w, (k + 1) as nat);
                            assert(next == done + next_level(current));
                            assert(words(queue@) =~= full.take(c as int));
                            if c == full.len() {
                                assert(full.take(c as int) =~= full);
                            }
                        }
                        return queue;
                    }
                }
                let t: String = without_char(cur.as_str(), i);
                let fresh: bool = met_here.insert(t.clone());
                proof {
                    assert(words(queue@).skip(end as int) =~= part);
                    let run = deletions(cur@).take(i + 1);
                    assert(run.drop_last() =~= deletions(cur@).take(i as int));
                    assert(run.last() == t@);
                }
                if fresh {
                    let ghost held = words(queue@);
                    queue.push(t);
                    assert(words(queue@) =~= held.push(t@));
                    assert(words(queue@) =~= done + part.push(t@));
                    assert(words(queue@).skip(end as int) =~= part.push(t@));
                    assert forall|x: Seq<char>|
                        met_here@.contains(x) <==> words(queue@).skip(end as int).contains(x) by {
                        lemma_push_contains(part, t@, x);
                    }
                }
            }
            proof {
                assert(deletions(cur@).take(n as int) =~= deletions(cur@));
                let upto = groups.take(idx + 1 - start);
                assert(upto.drop_last() =~= groups.take(idx - start));
                assert(upto.last() == deletions(cur@));
            }
        }
        proof {
            assert(groups.take(end - start) =~= groups);
            assert(words(queue@).skip(end as int) =~= next_level(current));
        }
        start = end;
        k = k + 1;
    }
    queue
}

/// Generates the deletion variants of `word` for the distance `max_distance`:
/// each string that between one and `max_distance` deletions make of it,
/// once, nearest first.
pub fn generate_deletes(word: &str, max_distance: u8) -> (variants: Vec<String>)
    ensures
        words(variants@) == deletion_variants(word@, max_distance as nat),
{
    let mut variants: Vec<String> = expand(word, max_distance, None);
    proof {
        lemma_expansion_grows(word@, 0, max_distance as nat);
    }
    let ghost all = words(variants@);
    variants.remove(0);
    assert(words(variants@) =~= all.skip(1));
    variants
}

} // verus!
