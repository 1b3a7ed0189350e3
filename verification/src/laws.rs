use vstd::prelude::*;

use crate::trie::{prefixes_of, Trie};

verus! {

/// `list` holds the word `w`.
pub open spec fn holds<T>(list: Seq<(String, T)>, w: Seq<char>) -> bool {
    exists|j: int| 0 <= j < list.len() && (#[trigger] list[j]).0@ == w
}

/// `list` holds the word `w` with a clone of `value`.
pub open spec fn holds_with<T: Clone>(list: Seq<(String, T)>, w: Seq<char>, value: T) -> bool {
    exists|j: int| 0 <= j < list.len() && (#[trigger] list[j]).0@ == w && cloned(value, list[j].1)
}

/// A word inserted with a value is stored with that value, and every list of
/// all the words holds it with a clone of that value.
pub proof fn insert_then_found<T: Clone>(
    pre: Trie<T>,
    word: Seq<char>,
    value: T,
    post: Trie<T>,
    all: Seq<(String, T)>,
)
    requires
        Trie::insertion(pre, word, Some(value), post),
        post.lists(Seq::<char>::empty(), all),
    ensures
        post@.contains_key(word),
        post@[word] == value,
        holds_with(all, word, value),
{
    assert(Seq::<char>::empty().is_prefix_of(word));
    assert(post@.contains_key(word));
    let i = choose|i: int| 0 <= i < all.len() && (#[trigger] all[i]).0@ == word;
    assert(cloned(post@[all[i].0@], all[i].1));
}

/// A stored word stays stored, with its value, while other words are
/// inserted.
pub proof fn insert_keeps_others<T: Clone>(
    pre: Trie<T>,
    word: Seq<char>,
    value: Option<T>,
    post: Trie<T>,
    other: Seq<char>,
)
    requires
        Trie::insertion(pre, word, value, post),
        other != word,
    ensures
        post@.contains_key(other) == pre@.contains_key(other),
        pre@.contains_key(other) ==> post@[other] == pre@[other],
{
}

/// Inserting a word without a value leaves the word not stored.
pub proof fn insert_none_forgets<T: Clone>(pre: Trie<T>, word: Seq<char>, post: Trie<T>)
    requires
        Trie::insertion(pre, word, None, post),
    ensures
        !post@.contains_key(word),
{
}

/// Two lists for one prefix hold the same words: each word of the one is in
/// the other, and both are as long.
pub proof fn lists_agree<T: Clone>(
    t: Trie<T>,
    prefix: Seq<char>,
    a: Seq<(String, T)>,
    b: Seq<(String, T)>,
)
    requires
        t.lists(prefix, a),
        t.lists(prefix, b),
    ensures
        forall|i: int| 0 <= i < a.len() ==> holds(b, (#[trigger] a[i]).0@),
        forall|i: int| 0 <= i < b.len() ==> holds(a, (#[trigger] b[i]).0@),
        a.len() == b.len(),
{
    lists_within(t, prefix, prefix, a, b);
    lists_within(t, prefix, prefix, b, a);
    let wa = a.map_values(|e: (String, T)| e.0@);
    let wb = b.map_values(|e: (String, T)| e.0@);
    assert(wa.no_duplicates());
    assert(wb.no_duplicates());
    assert(wa.to_set() =~= wb.to_set()) by {
        assert forall|w: Seq<char>| wa.to_set().contains(w) <==> wb.to_set().contains(w) by {
            if wa.to_set().contains(w) {
                let i = choose|i: int| 0 <= i < wa.len() && wa[i] == w;
                assert(holds(b, a[i].0@));
                let j = choose|j: int| 0 <= j < b.len() && (#[trigger] b[j]).0@ == a[i].0@;
                assert(wb[j] == w);
            }
            if wb.to_set().contains(w) {
                let i = choose|i: int| 0 <= i < wb.len() && wb[i] == w;
                assert(holds(a, b[i].0@));
                let j = choose|j: int| 0 <= j < a.len() && (#[trigger] a[j]).0@ == b[i].0@;
                assert(wa[j] == w);
            }
        }
    }
    wa.unique_seq_to_set();
    wb.unique_seq_to_set();
}

/// The list for a longer prefix is within the list for a shorter one: every
/// word of `long` is in `short`.
pub proof fn lists_within<T: Clone>(
    t: Trie<T>,
    shorter: Seq<char>,
    longer: Seq<char>,
    long: Seq<(String, T)>,
    short: Seq<(String, T)>,
)
    requires
        shorter.is_prefix_of(longer),
        t.lists(longer, long),
        t.lists(shorter, short),
    ensures
        forall|i: int| 0 <= i < long.len() ==> holds(short, (#[trigger] long[i]).0@),
{
    assert forall|i: int| 0 <= i < long.len() implies holds(short, (#[trigger] long[i]).0@) by {
        let w = long[i].0@;
        assert(longer.is_prefix_of(w));
        assert(shorter.is_prefix_of(w)) by {
            assert(shorter =~= w.subrange(0, shorter.len() as int)) by {
                assert forall|k: int| 0 <= k < shorter.len() implies shorter[k] == w[k] by {
                    assert(shorter[k] == longer.subrange(0, shorter.len() as int)[k]);
                    assert(longer[k] == w.subrange(0, longer.len() as int)[k]);
                }
            }
        }
        assert(t@.contains_key(w));
    }
}

/// After a word was removed it is not stored; every other word is stored as
/// before, with its value, and every list for a prefix of it still holds it.
pub proof fn remove_only_that_word<T: Clone>(
    pre: Trie<T>,
    word: Seq<char>,
    post: Trie<T>,
    found: bool,
    other: Seq<char>,
    prefix: Seq<char>,
    list: Seq<(String, T)>,
)
    requires
        Trie::removal(pre, word, post, found),
        other != word,
        pre@.contains_key(other),
        prefix.is_prefix_of(other),
        post.lists(prefix, list),
    ensures
        !post@.contains_key(word),
        post@.contains_key(other),
        post@[other] == pre@[other],
        holds_with(list, other, pre@[other]),
{
    assert(post@.contains_key(other));
    let i = choose|i: int| 0 <= i < list.len() && (#[trigger] list[i]).0@ == other;
    assert(cloned(post@[list[i].0@], list[i].1));
}

/// Removing a word that is no path returns `false` and leaves the tree as
/// it is: its paths, its words and its leaf flags.
pub proof fn remove_missing_changes_nothing<T: Clone>(
    pre: Trie<T>,
    word: Seq<char>,
    post: Trie<T>,
    found: bool,
)
    requires
        !pre.has_path(word),
        Trie::removal(pre, word, post, found),
    ensures
        !found,
        post.paths() == pre.paths(),
        post@ == pre@,
        post.leaves() == pre.leaves(),
{
    pre.lemma_on_path(word);
    assert(pre@.remove(word) =~= pre@);
}

/// Removing a word a second time returns what the first call returned, and
/// leaves the tree as the first call left it.
pub proof fn remove_twice<T: Clone>(
    pre: Trie<T>,
    word: Seq<char>,
    mid: Trie<T>,
    first: bool,
    post: Trie<T>,
    second: bool,
)
    requires
        Trie::removal(pre, word, mid, first),
        Trie::removal(mid, word, post, second),
    ensures
        second == first,
        post.paths() == mid.paths(),
        post@ == mid@,
        post.leaves() == mid.leaves(),
{
    assert(mid.has_path(word) == pre.has_path(word)) by {
        assert(mid.paths().contains(word) == pre.paths().contains(word));
    }
    assert(pre@.remove(word).remove(word) =~= pre@.remove(word));
    same_stored_prefix(pre, mid, word, word.len());
    match pre.previous_word(word) {
        Some(n) => {
            let at = word.take(n as int);
            assert(pre.leaves().insert(at).insert(at) =~= pre.leaves().insert(at));
        },
        None => {},
    }
}

/// An insertion takes no node out of the tree: every path is still a path,
/// and the inserted word is one.
pub proof fn insert_grows_paths<T: Clone>(
    pre: Trie<T>,
    word: Seq<char>,
    value: Option<T>,
    post: Trie<T>,
)
    requires
        Trie::insertion(pre, word, value, post),
    ensures
        pre.paths().subset_of(post.paths()),
        post.paths().contains(word),
{
    assert(prefixes_of(word).contains(word));
}

/// Trees that store the same proper prefixes of `word` have the same longest
/// one among them.
pub proof fn same_stored_prefix<T: Clone>(a: Trie<T>, b: Trie<T>, word: Seq<char>, n: nat)
    requires
        n <= word.len(),
        b@ == a@.remove(word),
    ensures
        b.stored_prefix_below(word, n) == a.stored_prefix_below(word, n),
    decreases n,
{
    if n > 0 {
        assert(word.take(n - 1) != word) by {
            assert(word.take(n - 1).len() != word.len());
        }
        same_stored_prefix(a, b, word, (n - 1) as nat);
    }
}

} // verus!
