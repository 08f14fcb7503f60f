//! The deletion index while it is being built: a hash map from each deletion
//! variant to the words filed under it.

use vstd::hash_map::StringHashMap;
use vstd::prelude::*;
use crate::deletes::with_new;
use crate::store::listed;
use crate::text::{holds_from, words};

verus! {

/// What a map from variants to lists of words files under each variant.
pub open spec fn filed_words(entries: Map<Seq<char>, Vec<String>>) -> Map<
    Seq<char>,
    Seq<Seq<char>>,
> {
    entries.map_values(|list: Vec<String>| words(list@))
}

/// `index` after filing `word` under `variant`: the word is added to the
/// entry of the variant, unless the entry holds it already.
pub open spec fn filed_under(
    index: Map<Seq<char>, Seq<Seq<char>>>,
    variant: Seq<char>,
    word: Seq<char>,
) -> Map<Seq<char>, Seq<Seq<char>>> {
    index.insert(variant, with_new(listed(index, variant), word))
}

/// `index` after filing `word` under each of `variants`: the word is added to
/// the entry of each variant, unless the entry holds it already.
pub open spec fn filed(
    index: Map<Seq<char>, Seq<Seq<char>>>,
    variants: Seq<Seq<char>>,
    word: Seq<char>,
) -> Map<Seq<char>, Seq<Seq<char>>> {
    Map::new(
        |v: Seq<char>| index.contains_key(v) || variants.contains(v),
        |v: Seq<char>|
            if variants.contains(v) {
                with_new(listed(index, v), word)
            } else {
                index[v]
            },
    )
}

/// Filing under one more variant is filing under that variant last.
pub proof fn lemma_filed_step(
    index: Map<Seq<char>, Seq<Seq<char>>>,
    variants: Seq<Seq<char>>,
    word: Seq<char>,
)
    requires
        variants.len() > 0,
    ensures
        filed(index, variants, word) == filed_under(
            filed(index, variants.drop_last(), word),
            variants.last(),
            word,
        ),
{
    let done = variants.drop_last();
    let key = variants.last();
    assert forall|v: Seq<char>| variants.contains(v) <==> done.contains(v) || v == key by {
        if done.contains(v) {
            let j = choose|j: int| 0 <= j < done.len() && done[j] == v;
            assert(variants[j] == v);
        }
        if v == key {
            assert(variants[variants.len() - 1] == v);
        }
        if variants.contains(v) {
            let j = choose|j: int| 0 <= j < variants.len() && variants[j] == v;
            if j < done.len() {
                assert(done[j] == v);
            }
        }
    }
    let older = listed(index, key);
    if done.contains(key) && !older.contains(word) {
        assert(older.push(word)[older.len() as int] == word);
    }
    assert(filed(index, variants, word) =~= filed_under(filed(index, done, word), key, word));
}

/// A copy of `list`.
pub fn copy_words(list: &Vec<String>) -> (copy: Vec<String>)
    ensures
        copy@ == list@,
{
    let mut copy: Vec<String> = Vec::new();
    for i in 0..list.len()
        invariant
            copy@ == list@.take(i as int),
    {
        copy.push(list[i].clone());
        assert(list@.take(i + 1) =~= list@.take(i as int).push(list@[i as int]));
    }
    assert(list@.take(list.len() as int) =~= list@);
    copy
}

/// Files `word` under `variant`.
pub fn file_under(deletes: &mut StringHashMap<Vec<String>>, variant: &str, word: &str)
    ensures
        filed_words(final(deletes)@) == filed_under(filed_words(old(deletes)@), variant@, word@),
{
    let ghost before = filed_words(deletes@);
    let mut list: Vec<String> = match deletes.get(variant) {
        Some(held) => copy_words(held),
        None => Vec::new(),
    };
    let ghost held = words(list@);
    assert(held =~= listed(before, variant@));
    let entry: String = word.to_owned();
    assert(held.skip(0) =~= held);
    if !holds_from(&list, 0, &entry) {
        list.push(entry);
        assert(words(list@) =~= held.push(word@));
    }
    deletes.insert(variant.to_owned(), list);
    assert(filed_words(deletes@) =~= filed_under(before, variant@, word@));
}

/// Files `word` under each of `variants`.
pub fn file_under_each(deletes: &mut StringHashMap<Vec<String>>, variants: &Vec<String>, word: &str)
    ensures
        filed_words(final(deletes)@) == filed(filed_words(old(deletes)@), words(variants@), word@),
{
    let ghost start = filed_words(deletes@);
    let ghost all = words(variants@);
    assert(filed_words(deletes@) =~= filed(start, all.take(0), word@));
    for k in 0..variants.len()
        invariant
            all == words(variants@),
            filed_words(deletes@) == filed(start, all.take(k as int), word@),
    {
        file_under(deletes, variants[k].as_str(), word);
        proof {
            assert(all.take(k + 1).drop_last() =~= all.take(k as int));
            lemma_filed_step(start, all.take(k + 1), word@);
        }
    }
    assert(all.take(variants.len() as int) =~= all);
}

} // verus!
