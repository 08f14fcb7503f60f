use symspellrs::damerau_levenshtein;

#[test]
fn distance_to_itself_is_zero() {
    for w in ["", "a", "hello", "caf\u{e9}", "\u{1f600}\u{1f600}"] {
        assert_eq!(damerau_levenshtein(w, w), 0);
    }
}

#[test]
fn distance_is_symmetric() {
    let words = ["", "a", "ab", "ba", "hello", "helo", "world", "kitten", "sitting"];
    for a in words {
        for b in words {
            assert_eq!(damerau_levenshtein(a, b), damerau_levenshtein(b, a));
        }
    }
}

#[test]
fn transposition_costs_one() {
    assert_eq!(damerau_levenshtein("ab", "ba"), 1);
    assert_eq!(damerau_levenshtein("abcd", "acbd"), 1);
    assert_eq!(damerau_levenshtein("abcd", "badc"), 2);
}

#[test]
fn distance_against_the_empty_word_is_the_length() {
    assert_eq!(damerau_levenshtein("", "abc"), 3);
    assert_eq!(damerau_levenshtein("abcd", ""), 4);
    assert_eq!(damerau_levenshtein("", ""), 0);
}

#[test]
fn distance_counts_each_kind_of_edit() {
    assert_eq!(damerau_levenshtein("kitten", "sitting"), 3);
    assert_eq!(damerau_levenshtein("flaw", "lawn"), 2);
    assert_eq!(damerau_levenshtein("abc", "abd"), 1);
    assert_eq!(damerau_levenshtein("abc", "abcd"), 1);
    assert_eq!(damerau_levenshtein("abc", "xyz"), 3);
}

#[test]
fn swapped_letters_may_have_edits_between() {
    // Swap the two letters, then insert between them: two edits.
    assert_eq!(damerau_levenshtein("ca", "abc"), 2);
    assert_eq!(damerau_levenshtein("abc", "ca"), 2);
    assert_eq!(damerau_levenshtein("ab", "bxa"), 2);
    assert_eq!(damerau_levenshtein("a cat", "a abct"), 2);
    assert_eq!(damerau_levenshtein("abcdef", "badcfe"), 3);
    assert_eq!(damerau_levenshtein("abc", "cxxa"), 4);
}

fn one_edit_away(s: &[char], letters: &[char]) -> Vec<Vec<char>> {
    let mut out: Vec<Vec<char>> = Vec::new();
    for i in 0..s.len() {
        let mut deleted = s.to_vec();
        deleted.remove(i);
        out.push(deleted);
        for &c in letters {
            let mut changed = s.to_vec();
            changed[i] = c;
            out.push(changed);
        }
        if i + 1 < s.len() {
            let mut swapped = s.to_vec();
            swapped.swap(i, i + 1);
            out.push(swapped);
        }
    }
    for i in 0..=s.len() {
        for &c in letters {
            let mut inserted = s.to_vec();
            inserted.insert(i, c);
            out.push(inserted);
        }
    }
    out
}

fn fewest_edits(from: &[char], to: &[char], letters: &[char]) -> u8 {
    let mut reached: Vec<Vec<char>> = vec![from.to_vec()];
    let mut frontier: Vec<Vec<char>> = vec![from.to_vec()];
    let mut steps = 0u8;
    loop {
        if frontier.iter().any(|s| s.as_slice() == to) {
            return steps;
        }
        let mut next: Vec<Vec<char>> = Vec::new();
        for s in &frontier {
            for t in one_edit_away(s, letters) {
                if t.len() <= 5 && !reached.contains(&t) {
                    reached.push(t.clone());
                    next.push(t);
                }
            }
        }
        frontier = next;
        steps += 1;
    }
}

#[test]
fn distance_is_the_fewest_edits() {
    let letters = ['a', 'b', 'c'];
    let mut words: Vec<Vec<char>> = vec![Vec::new()];
    let mut longest: Vec<Vec<char>> = vec![Vec::new()];
    for _ in 0..3 {
        let mut longer: Vec<Vec<char>> = Vec::new();
        for w in &longest {
            for &c in &letters {
                let mut grown = w.clone();
                grown.push(c);
                longer.push(grown);
            }
        }
        words.extend(longer.iter().cloned());
        longest = longer;
    }
    for a in &words {
        for b in &words {
            let from: String = a.iter().collect();
            let to: String = b.iter().collect();
            assert_eq!(damerau_levenshtein(&from, &to), fewest_edits(a, b, &letters));
        }
    }
}

#[test]
fn distance_counts_characters_not_bytes() {
    assert_eq!(damerau_levenshtein("caf\u{e9}", "cafe"), 1);
    assert_eq!(damerau_levenshtein("\u{1f600}", ""), 1);
    assert_eq!(damerau_levenshtein("\u{e9}\u{e8}", "\u{e8}\u{e9}"), 1);
}

#[test]
fn distance_is_clamped() {
    let long = "a".repeat(300);
    let other = "b".repeat(300);
    assert_eq!(damerau_levenshtein(&long, ""), 255);
    assert_eq!(damerau_levenshtein("", &long), 255);
    assert_eq!(damerau_levenshtein(&long, &other), 255);
    assert_eq!(damerau_levenshtein(&"a".repeat(255), ""), 255);
    assert_eq!(damerau_levenshtein(&"a".repeat(254), ""), 254);
    assert_eq!(damerau_levenshtein(&long, &"a".repeat(46)), 254);
}
