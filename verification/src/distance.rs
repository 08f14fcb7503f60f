//! Edit distance: the least number of insertions, deletions, substitutions
//! and transpositions of two adjacent characters that turn one word into
//! another.

use vstd::prelude::*;
use crate::deletes::{is_cut, picks};
use crate::text::chars_of;

verus! {

/// The smaller of two numbers.
pub open spec fn least(x: nat, y: nat) -> nat {
    if x <= y {
        x
    } else {
        y
    }
}

/// The last position among the first `upto` of `s` that holds `c`, counted
/// from one; zero if none of them holds it.
pub open spec fn last_position(s: Seq<char>, upto: nat, c: char) -> nat
    decreases upto,
{
    if upto == 0 {
        0
    } else if s[upto - 1] == c {
        upto
    } else {
        last_position(s, (upto - 1) as nat, c)
    }
}

/// The least cost of turning the first `i` characters of `a` into the first
/// `j` characters of `b`.
///
/// The last character of either prefix is deleted, inserted or substituted,
/// or it takes part in a transposition: where `a` holds the last character of
/// `b`'s prefix at position `k` and `b` holds the last character of `a`'s
/// prefix at position `l`, the two are swapped, after what stands between
/// them in `a` is deleted and before what stands between them in `b` is
/// inserted. The nearest such positions give the least cost.
pub open spec fn prefix_cost(a: Seq<char>, b: Seq<char>, i: nat, j: nat) -> nat
    decreases i + j,
{
    if i == 0 {
        j
    } else if j == 0 {
        i
    } else {
        let deletion = prefix_cost(a, b, (i - 1) as nat, j) + 1;
        let insertion = prefix_cost(a, b, i, (j - 1) as nat) + 1;
        let change: nat = if a[i - 1] == b[j - 1] {
            0
        } else {
            1
        };
        let substitution = prefix_cost(a, b, (i - 1) as nat, (j - 1) as nat) + change;
        let plain = least(least(deletion, insertion), substitution);
        let k = last_position(a, (i - 1) as nat, b[j - 1]);
        let l = last_position(b, (j - 1) as nat, a[i - 1]);
        if 0 < k < i && 0 < l < j {
            let swap = prefix_cost(a, b, (k - 1) as nat, (l - 1) as nat) + (i - k - 1) + 1 + (j - l
                - 1);
            least(plain, swap as nat)
        } else {
            plain
        }
    }
}

/// The edit distance between `a` and `b`.
pub open spec fn edit_distance(a: Seq<char>, b: Seq<char>) -> nat {
    prefix_cost(a, b, a.len(), b.len())
}

/// The edit distance between `a` and `b`, clamped to what a byte holds.
pub open spec fn reported_distance(a: Seq<char>, b: Seq<char>) -> u8 {
    if edit_distance(a, b) >= 255 {
        255u8
    } else {
        edit_distance(a, b) as u8
    }
}

/// A last position lies among the positions searched, and holds the
/// character looked for.
pub proof fn lemma_last_position(s: Seq<char>, upto: nat, c: char)
    ensures
        last_position(s, upto, c) <= upto,
        last_position(s, upto, c) > 0 ==> s[last_position(s, upto, c) - 1] == c,
    decreases upto,
{
    if upto > 0 && s[upto - 1] != c {
        lemma_last_position(s, (upto - 1) as nat, c);
    }
}

/// A prefix cost never exceeds the longer of the two prefixes.
pub proof fn lemma_cost_at_most_longer(a: Seq<char>, b: Seq<char>, i: nat, j: nat)
    ensures
        prefix_cost(a, b, i, j) <= if i >= j { i } else { j },
    decreases i + j,
{
    if i > 0 && j > 0 {
        lemma_cost_at_most_longer(a, b, (i - 1) as nat, (j - 1) as nat);
    }
}

proof fn lemma_cost_of_equal_prefixes(w: Seq<char>, i: nat)
    requires
        i <= w.len(),
    ensures
        prefix_cost(w, w, i, i) == 0,
    decreases i,
{
    if i > 0 {
        lemma_cost_of_equal_prefixes(w, (i - 1) as nat);
    }
}

proof fn lemma_cost_symmetric(a: Seq<char>, b: Seq<char>, i: nat, j: nat)
    ensures
        prefix_cost(a, b, i, j) == prefix_cost(b, a, j, i),
    decreases i + j,
{
    if i > 0 && j > 0 {
        lemma_cost_symmetric(a, b, (i - 1) as nat, j);
        lemma_cost_symmetric(a, b, i, (j - 1) as nat);
        lemma_cost_symmetric(a, b, (i - 1) as nat, (j - 1) as nat);
        let k = last_position(a, (i - 1) as nat, b[j - 1]);
        let l = last_position(b, (j - 1) as nat, a[i - 1]);
        if 0 < k < i && 0 < l < j {
            lemma_cost_symmetric(a, b, (k - 1) as nat, (l - 1) as nat);
        }
    }
}

proof fn lemma_zero_cost_means_equal_prefixes(a: Seq<char>, b: Seq<char>, i: nat, j: nat)
    requires
        i <= a.len(),
        j <= b.len(),
        prefix_cost(a, b, i, j) == 0,
    ensures
        i == j,
        a.take(i as int) == b.take(j as int),
    decreases i + j,
{
    if i > 0 && j > 0 {
        lemma_zero_cost_means_equal_prefixes(a, b, (i - 1) as nat, (j - 1) as nat);
        assert(a.take(i as int) =~= a.take(i - 1).push(a[i - 1]));
        assert(b.take(j as int) =~= b.take(j - 1).push(b[j - 1]));
    } else {
        assert(a.take(0) =~= b.take(0));
    }
}

/// Every word is at distance zero from itself.
pub proof fn lemma_distance_to_itself(w: Seq<char>)
    ensures
        edit_distance(w, w) == 0,
        reported_distance(w, w) == 0,
{
    lemma_cost_of_equal_prefixes(w, w.len());
}

/// The distance from `a` to `b` is the distance from `b` to `a`.
pub proof fn lemma_distance_symmetric(a: Seq<char>, b: Seq<char>)
    ensures
        edit_distance(a, b) == edit_distance(b, a),
        reported_distance(a, b) == reported_distance(b, a),
{
    lemma_cost_symmetric(a, b, a.len(), b.len());
}

/// Only equal words are at distance zero from each other.
pub proof fn lemma_zero_distance_means_equal(a: Seq<char>, b: Seq<char>)
    requires
        reported_distance(a, b) == 0,
    ensures
        a == b,
{
    lemma_zero_cost_means_equal_prefixes(a, b, a.len(), b.len());
    assert(a.take(a.len() as int) =~= a);
    assert(b.take(b.len() as int) =~= b);
}

/// A prefix cost is at least the difference of the lengths of the prefixes.
pub proof fn lemma_cost_at_least_difference(a: Seq<char>, b: Seq<char>, i: nat, j: nat)
    ensures
        prefix_cost(a, b, i, j) >= i - j,
        prefix_cost(a, b, i, j) >= j - i,
    decreases i + j,
{
    if i > 0 && j > 0 {
        lemma_cost_at_least_difference(a, b, (i - 1) as nat, j);
        lemma_cost_at_least_difference(a, b, i, (j - 1) as nat);
        lemma_cost_at_least_difference(a, b, (i - 1) as nat, (j - 1) as nat);
        let k = last_position(a, (i - 1) as nat, b[j - 1]);
        let l = last_position(b, (j - 1) as nat, a[i - 1]);
        if 0 < k < i && 0 < l < j {
            lemma_cost_at_least_difference(a, b, (k - 1) as nat, (l - 1) as nat);
        }
    }
}

proof fn lemma_cost_along_picks(w: Seq<char>, at: Seq<int>, v: Seq<char>, i: nat, j: nat)
    requires
        picks(w, at, v),
        i <= v.len(),
        j <= w.len(),
        i > 0 ==> at[i - 1] < j,
    ensures
        prefix_cost(v, w, i, j) <= j - i,
    decreases i + j,
{
    if i > 0 {
        assert(0 <= at[i - 1]);
        if j == at[i - 1] + 1 {
            if i > 1 {
                assert(at[i - 2] < at[i - 1]);
            }
            lemma_cost_along_picks(w, at, v, (i - 1) as nat, (j - 1) as nat);
            assert(v[i - 1] == w[j - 1]);
        } else {
            lemma_cost_along_picks(w, at, v, i, (j - 1) as nat);
        }
    }
}

/// A word is as far from what is left of it without some of its characters
/// as characters were removed.
pub proof fn lemma_distance_of_cut(word: Seq<char>, v: Seq<char>, k: nat)
    requires
        is_cut(word, v, k),
    ensures
        edit_distance(v, word) == k,
        edit_distance(word, v) == k,
{
    let at = choose|at: Seq<int>| picks(word, at, v);
    if v.len() > 0 {
        assert(at[v.len() - 1] < word.len());
    }
    lemma_cost_along_picks(word, at, v, v.len(), word.len());
    lemma_cost_at_least_difference(v, word, v.len(), word.len());
    lemma_distance_symmetric(v, word);
}

/// Whether `row` holds, up to column `upto`, the costs for the first `i`
/// characters of `a`.
spec fn row_holds(row: Seq<usize>, a: Seq<char>, b: Seq<char>, i: nat, upto: int) -> bool {
    &&& row.len() > upto
    &&& forall|k: int| 0 <= k <= upto ==> #[trigger] row[k] == prefix_cost(a, b, i, k as nat)
}

/// Whether the first `n` rows of `table` hold the costs in full.
spec fn rows_hold(table: Seq<Vec<usize>>, a: Seq<char>, b: Seq<char>, n: int) -> bool {
    &&& table.len() >= n
    &&& forall|r: int| 0 <= r < n ==> row_holds((#[trigger] table[r])@, a, b, r as nat, b.len() as int)
}

/// Whether `seen` holds, for each character of `b`, its last position among
/// the first `i` characters of `a`.
spec fn seen_holds(seen: Seq<usize>, a: Seq<char>, b: Seq<char>, i: nat) -> bool {
    &&& seen.len() == b.len()
    &&& forall|j: int| 0 <= j < b.len() ==> #[trigger] seen[j] == last_position(a, i, b[j])
}

fn clamp(n: usize) -> (d: u8)
    ensures
        d == if n >= 255 { 255u8 } else { n as u8 },
{
    if n >= 255 {
        255
    } else {
        n as u8
    }
}

fn smaller(x: usize, y: usize) -> (m: usize)
    ensures
        m == least(x as nat, y as nat),
{
    if x <= y {
        x
    } else {
        y
    }
}

/// The cost for two prefixes that are not empty, from the costs for shorter
/// ones.
spec fn step_cost(
    up: nat,
    left: nat,
    diagonal: nat,
    same: bool,
    swap: Option<nat>,
) -> nat {
    let change: nat = if same {
        0
    } else {
        1
    };
    let plain = least(least(up + 1, left + 1), diagonal + change);
    match swap {
        Some(cost) => least(plain, cost),
        None => plain,
    }
}

/// What a swap costs for the first `i` characters of `a` and the first `j`
/// of `b`, where there is one.
spec fn swap_cost(a: Seq<char>, b: Seq<char>, i: nat, j: nat) -> Option<nat> {
    let k = last_position(a, (i - 1) as nat, b[j - 1]);
    let l = last_position(b, (j - 1) as nat, a[i - 1]);
    if 0 < k < i && 0 < l < j {
        Some(
            (prefix_cost(a, b, (k - 1) as nat, (l - 1) as nat) + (i - k - 1) + 1 + (j - l
                - 1)) as nat,
        )
    } else {
        None
    }
}

proof fn lemma_cost_step(a: Seq<char>, b: Seq<char>, i: nat, j: nat)
    requires
        i > 0,
        j > 0,
    ensures
        prefix_cost(a, b, i, j) == step_cost(
            prefix_cost(a, b, (i - 1) as nat, j),
            prefix_cost(a, b, i, (j - 1) as nat),
            prefix_cost(a, b, (i - 1) as nat, (j - 1) as nat),
            a[i - 1] == b[j - 1],
            swap_cost(a, b, i, j),
        ),
{
}

/// The cost in row `i + 1` and column `j + 1`, from the row above, the
/// columns before and, where there is a swap, the cost that it starts from.
fn cell(
    above: &Vec<usize>,
    row: &Vec<usize>,
    a_chars: &Vec<char>,
    b_chars: &Vec<char>,
    i: usize,
    j: usize,
    last_in_a: usize,
    last_in_b: usize,
    corner: usize,
) -> (best: usize)
    requires
        i < a_chars.len(),
        j < b_chars.len(),
        row_holds(above@, a_chars@, b_chars@, i as nat, b_chars.len() as int),
        row@.len() == j + 1,
        row_holds(row@, a_chars@, b_chars@, (i + 1) as nat, j as int),
        last_in_a == last_position(a_chars@, i as nat, b_chars@[j as int]),
        last_in_b == last_position(b_chars@, j as nat, a_chars@[i as int]),
        last_in_a > 0 && last_in_b > 0 ==> corner == prefix_cost(
            a_chars@,
            b_chars@,
            (last_in_a - 1) as nat,
            (last_in_b - 1) as nat,
        ),
    ensures
        best == prefix_cost(a_chars@, b_chars@, (i + 1) as nat, (j + 1) as nat),
{
    let ghost sa = a_chars@;
    let ghost sb = b_chars@;
    let width: usize = above.len();
    let up: usize = above[j + 1];
    let diagonal: usize = above[j];
    let left: usize = row[j];
    let same: bool = a_chars[i] == b_chars[j];
    proof {
        lemma_cost_at_most_longer(sa, sb, i as nat, (j + 1) as nat);
        lemma_cost_at_most_longer(sa, sb, i as nat, j as nat);
        lemma_last_position(sa, i as nat, sb[j as int]);
        lemma_last_position(sb, j as nat, sa[i as int]);
        lemma_cost_step(sa, sb, (i + 1) as nat, (j + 1) as nat);
    }
    let swap: Option<usize> = if last_in_a > 0 && last_in_b > 0 {
        Some(corner)
    } else {
        None
    };
    combine(up, left, diagonal, same, swap, i - last_in_a, j - last_in_b)
}

/// The least of the costs of the four ways to deal with the last characters.
/// A swap costs `corner + dropped + 1 + added`.
fn combine(
    up: usize,
    left: usize,
    diagonal: usize,
    same: bool,
    swap: Option<usize>,
    dropped: usize,
    added: usize,
) -> (best: usize)
    requires
        up < usize::MAX,
        diagonal < usize::MAX,
    ensures
        best == step_cost(
            up as nat,
            left as nat,
            diagonal as nat,
            same,
            match swap {
                Some(corner) => Some((corner + dropped + 1 + added) as nat),
                None => None,
            },
        ),
{
    let change: usize = if same {
        0
    } else {
        1
    };
    let mut best: usize = smaller(up + 1, diagonal + change);
    if left < best {
        best = left + 1;
    }
    if let Some(corner) = swap {
        // The swap counts only where it costs less than the best so far.
        if corner < best {
            let room: usize = best - corner - 1;
            if dropped < room && added < room - dropped {
                best = corner + dropped + 1 + added;
            }
        }
    }
    best
}

/// Computes the clamped edit distance between `a` and `b`, comparing them
/// character by character.
pub fn damerau_levenshtein(a: &str, b: &str) -> (d: u8)
    ensures
        d == reported_distance(a@, b@),
{
    let a_chars: Vec<char> = chars_of(a);
    let b_chars: Vec<char> = chars_of(b);
    let alen: usize = a_chars.len();
    let blen: usize = b_chars.len();
    if alen == 0 {
        return clamp(blen);
    }
    if blen == 0 {
        return clamp(alen);
    }
    let ghost sa = a@;
    let ghost sb = b@;
    let mut first: Vec<usize> = Vec::new();
    let mut seen: Vec<usize> = Vec::new();
    first.push(0);
    for j in 0..blen
        invariant
            blen == sb.len(),
            row_holds(first@, sa, sb, 0, j as int),
            first@.len() == j + 1,
            seen@.len() == j,
            forall|c: int| 0 <= c < j ==> #[trigger] seen@[c] == 0,
    {
        first.push(j + 1);
        seen.push(0);
    }
    let width: usize = first.len();
    let mut table: Vec<Vec<usize>> = Vec::new();
    table.push(first);
    for i in 0..alen
        invariant
            sa == a_chars@,
            sb == b_chars@,
            alen == sa.len(),
            blen == sb.len(),
            width == blen + 1,
            table@.len() == i + 1,
            rows_hold(table@, sa, sb, i + 1),
            seen_holds(seen@, sa, sb, i as nat),
    {
        let mut row: Vec<usize> = Vec::new();
        row.push(i + 1);
        let mut last_in_b: usize = 0;
        for j in 0..blen
            invariant
                sa == a_chars@,
                sb == b_chars@,
                alen == sa.len(),
                blen == sb.len(),
                i < alen,
                width == blen + 1,
                table@.len() == i + 1,
                rows_hold(table@, sa, sb, i + 1),
                seen_holds(seen@, sa, sb, i as nat),
                row@.len() == j + 1,
                row_holds(row@, sa, sb, (i + 1) as nat, j as int),
                last_in_b == last_position(sb, j as nat, sa[i as int]),
        {
            let last_in_a: usize = seen[j];
            proof {
                lemma_last_position(sa, i as nat, sb[j as int]);
                lemma_last_position(sb, j as nat, sa[i as int]);
            }
            // Where a swap is possible, it starts from the cost before the
            // two characters that are swapped.
            let corner: usize = if last_in_a > 0 && last_in_b > 0 {
                assert(row_holds(
                    table@[last_in_a - 1]@,
                    sa,
                    sb,
                    (last_in_a - 1) as nat,
                    sb.len() as int,
                ));
                table[last_in_a - 1][last_in_b - 1]
            } else {
                0
            };
            assert(row_holds(table@[i as int]@, sa, sb, i as nat, sb.len() as int));
            let best: usize = cell(
                &table[i],
                &row,
                &a_chars,
                &b_chars,
                i,
                j,
                last_in_a,
                last_in_b,
                corner,
            );
            let ghost filled = row@;
            row.push(best);
            assert forall|k: int| 0 <= k <= j + 1 implies #[trigger] row@[k] == prefix_cost(
                sa,
                sb,
                (i + 1) as nat,
                k as nat,
            ) by {
                if k <= j {
                    assert(row@[k] == filled[k]);
                }
            }
            if a_chars[i] == b_chars[j] {
                last_in_b = j + 1;
            }
        }
        for j in 0..blen
            invariant
                sa == a_chars@,
                sb == b_chars@,
                blen == sb.len(),
                i < alen,
                alen == sa.len(),
                seen@.len() == blen,
                forall|c: int|
                    0 <= c < j ==> #[trigger] seen@[c] == last_position(sa, (i + 1) as nat, sb[c]),
                forall|c: int|
                    j <= c < blen ==> #[trigger] seen@[c] == last_position(sa, i as nat, sb[c]),
        {
            if a_chars[i] == b_chars[j] {
                seen.set(j, i + 1);
            }
        }
        let ghost above = table@;
        table.push(row);
        assert forall|r: int| 0 <= r < i + 2 implies row_holds(
            (#[trigger] table@[r])@,
            sa,
            sb,
            r as nat,
            sb.len() as int,
        ) by {
            if r <= i {
                assert(table@[r] == above[r]);
            }
        }
    }
    assert(row_holds(table@[alen as int]@, sa, sb, alen as nat, blen as int));
    clamp(table[alen][blen])
}

} // verus!
