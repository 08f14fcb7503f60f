//! Small helpers that move between `str`, `String` and sequences of
//! characters.

use vstd::prelude::*;
use vstd::string::*;

verus! {

/// The words that `v` holds, each as its sequence of characters.
pub open spec fn words(v: Seq<String>) -> Seq<Seq<char>> {
    v.map_values(|s: String| s@)
}

/// What each of `entries` stands for.
pub open spec fn entries_of(entries: Seq<(String, usize)>) -> Seq<(Seq<char>, usize)> {
    entries.map_values(|e: (String, usize)| (e.0@, e.1))
}

/// The characters of `s`, in order.
pub fn chars_of(s: &str) -> (chars: Vec<char>)
    ensures
        chars@ == s@,
{
    let n: usize = s.unicode_len();
    let mut chars: Vec<char> = Vec::new();
    for i in 0..n
        invariant
            n == s@.len(),
            chars@ == s@.take(i as int),
    {
        chars.push(s.get_char(i));
        assert(s@.take(i + 1) =~= s@.take(i as int).push(s@[i as int]));
    }
    assert(s@.take(n as int) =~= s@);
    chars
}

/// `s` without its character at position `i`.
pub fn without_char(s: &str, i: usize) -> (t: String)
    requires
        i < s@.len(),
    ensures
        t@ == s@.remove(i as int),
{
    let n: usize = s.unicode_len();
    let mut t: String = String::from_str(s.substring_char(0, i));
    t.append(s.substring_char(i + 1, n));
    assert(t@ =~= s@.remove(i as int));
    t
}

/// Whether `t` occurs in `queue` at position `from` or later.
pub fn holds_from(queue: &Vec<String>, from: usize, t: &String) -> (found: bool)
    requires
        from <= queue.len(),
    ensures
        found == words(queue@).skip(from as int).contains(t@),
{
    let ghost tail = words(queue@).skip(from as int);
    for j in from..queue.len()
        invariant
            from <= queue.len(),
            tail == words(queue@).skip(from as int),
            forall|k: int| 0 <= k < j - from ==> tail[k] != t@,
    {
        if queue[j] == *t {
            assert(tail[j - from] == t@);
            return true;
        }
    }
    false
}

/// A sequence that got one more member holds what it held and that member.
pub proof fn lemma_push_contains<A>(s: Seq<A>, x: A, y: A)
    ensures
        s.push(x).contains(y) <==> s.contains(y) || y == x,
{
    let grown = s.push(x);
    assert(grown[s.len() as int] == x);
    if s.contains(y) {
        let k = choose|k: int| 0 <= k < s.len() && s[k] == y;
        assert(grown[k] == y);
    }
    if grown.contains(y) {
        let k = choose|k: int| 0 <= k < grown.len() && grown[k] == y;
        if k < s.len() {
            assert(s[k] == y);
        }
    }
}

} // verus!
