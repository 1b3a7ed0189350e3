use std::collections::hash_map::Entry;
use std::collections::HashMap;
use vstd::prelude::*;

use vstd::string::StringExecFns;

use crate::text::{byte_len, char_from_code, push_char};

mod proofs;

verus! {

/// A prefix tree from words to values.
///
/// Every node owns its children, one per character, and may hold the value of
/// the word that the path from the root to it spells. Children are keyed by
/// the character's code point.
#[derive(Debug)]
pub struct Trie<T> {
    children: HashMap<u32, Trie<T>>,
    is_leaf: bool,
    value: Option<T>,
}

/// The words that `w` extends, `w` itself among them.
pub open spec fn prefixes_of(w: Seq<char>) -> Set<Seq<char>> {
    Set::new(|p: Seq<char>| p.is_prefix_of(w))
}

impl<T> Trie<T> {
    spec fn edges_are_chars(self) -> bool {
        forall|k: u32| self.children@.contains_key(k) ==> vstd::utf8::is_scalar(k)
    }

    spec fn is_fresh(self) -> bool {
        &&& self.children@ == Map::<u32, Trie<T>>::empty()
        &&& !self.is_leaf
        &&& self.value is None
    }

    spec fn child(self, c: char) -> Option<Trie<T>> {
        if self.children@.contains_key(c as u32) {
            Some(self.children@[c as u32])
        } else {
            None
        }
    }

    spec fn node_at(self, w: Seq<char>) -> Option<Trie<T>>
        decreases w.len(),
    {
        if w.len() == 0 {
            Some(self)
        } else {
            match self.child(w[0]) {
                Some(n) => n.node_at(w.skip(1)),
                None => None,
            }
        }
    }

    spec fn sound_at(self, w: Seq<char>) -> bool {
        match self.node_at(w) {
            Some(n) => n.edges_are_chars(),
            None => true,
        }
    }

    /// Every edge of the tree is labelled by a character.
    pub closed spec fn wf(self) -> bool {
        forall|w: Seq<char>| #[trigger] self.sound_at(w)
    }

    /// Walking from the root along `w` finds an edge for every character.
    pub closed spec fn has_path(self, w: Seq<char>) -> bool {
        self.node_at(w) is Some
    }

    /// The value held by the node at the end of `w`, if the path exists and
    /// the node holds one.
    pub closed spec fn value_at(self, w: Seq<char>) -> Option<T> {
        match self.node_at(w) {
            Some(n) => n.value,
            None => None,
        }
    }

    /// The leaf flag of the node at the end of `w`; `false` where there is no
    /// such node.
    pub closed spec fn leaf_at(self, w: Seq<char>) -> bool {
        match self.node_at(w) {
            Some(n) => n.is_leaf,
            None => false,
        }
    }

    /// The paths of the tree: one per node.
    pub open spec fn paths(self) -> Set<Seq<char>> {
        Set::new(|w: Seq<char>| self.has_path(w))
    }

    /// The paths to the nodes whose leaf flag is set.
    pub open spec fn leaves(self) -> Set<Seq<char>> {
        Set::new(|w: Seq<char>| self.leaf_at(w))
    }

    /// The node at the end of `w` has at least one child.
    pub open spec fn has_child_at(self, w: Seq<char>) -> bool {
        exists|c: char| self.has_path(#[trigger] w.push(c))
    }

    /// The leaf flags after `word` was inserted: cleared on every proper prefix
    /// of `word`, set at `word` exactly if the node there has no child, and
    /// elsewhere as they were.
    pub open spec fn leaves_after_insert(self, word: Seq<char>) -> Set<Seq<char>> {
        Set::new(
            |w: Seq<char>|
                if w == word {
                    !self.has_child_at(word)
                } else {
                    self.leaf_at(w) && !w.is_prefix_of(word)
                },
        )
    }

    /// What `insert` makes of a tree: `post` is `pre` after `word` was
    /// inserted with `value`.
    ///
    /// Every prefix of `word` becomes a path. `word` maps to `value`, or to
    /// nothing where `value` is `None`. The leaf flag is cleared on every
    /// proper prefix of `word`, and at `word` it is set exactly if the node
    /// has no child.
    pub open spec fn insertion(pre: Self, word: Seq<char>, value: Option<T>, post: Self) -> bool {
        &&& post.paths() == pre.paths().union(prefixes_of(word))
        &&& post@ == (match value {
            Some(v) => pre@.insert(word, v),
            None => pre@.remove(word),
        })
        &&& post.leaves() == pre.leaves_after_insert(word)
    }

    /// The longest proper prefix of `word` below length `n` that is a stored
    /// word, by its length.
    pub open spec fn stored_prefix_below(self, word: Seq<char>, n: nat) -> Option<nat>
        decreases n,
    {
        if n == 0 {
            None
        } else if self@.contains_key(word.take(n - 1)) {
            Some((n - 1) as nat)
        } else {
            self.stored_prefix_below(word, (n - 1) as nat)
        }
    }

    /// The longest proper prefix of `word` that is a stored word, by its
    /// length; `None` where `word` is no path or no such prefix is stored.
    pub open spec fn previous_word(self, word: Seq<char>) -> Option<nat> {
        if self.has_path(word) {
            self.stored_prefix_below(word, word.len())
        } else {
            None
        }
    }

    /// The leaf flags after `word` was removed: set in addition on the
    /// longest proper prefix of `word` that is a stored word.
    pub open spec fn leaves_after_remove(self, word: Seq<char>) -> Set<Seq<char>> {
        match self.previous_word(word) {
            Some(n) => self.leaves().insert(word.take(n as int)),
            None => self.leaves(),
        }
    }

    /// What `remove` makes of a tree: `post` is `pre` after `word` was
    /// removed, and `found` is what the call returned.
    ///
    /// `found` tells whether `word` is a path. No node leaves the tree; only
    /// the value of `word` does.
    pub open spec fn removal(pre: Self, word: Seq<char>, post: Self, found: bool) -> bool {
        &&& found == pre.has_path(word)
        &&& post.paths() == pre.paths()
        &&& post@ == pre@.remove(word)
        &&& post.leaves() == pre.leaves_after_remove(word)
    }
}

impl<T> View for Trie<T> {
    type V = Map<Seq<char>, T>;

    /// The stored words, each with its value.
    open spec fn view(&self) -> Map<Seq<char>, T> {
        Map::new(
            |w: Seq<char>| self.value_at(w) is Some,
            |w: Seq<char>| self.value_at(w).unwrap(),
        )
    }
}

impl<T> Default for Trie<T> {
    fn default() -> (t: Self)
        ensures
            t.wf(),
            t@ == Map::<Seq<char>, T>::empty(),
            t.paths() == set![Seq::<char>::empty()],
            t.leaves() == Set::<Seq<char>>::empty(),
    {
        Self::fresh()
    }
}

impl<T> Trie<T> {
    fn fresh() -> (t: Self)
        ensures
            t.is_fresh(),
            t.wf(),
            t@ == Map::<Seq<char>, T>::empty(),
            t.paths() == set![Seq::<char>::empty()],
            t.leaves() == Set::<Seq<char>>::empty(),
    {
        let t = Trie { children: HashMap::new(), is_leaf: false, value: None };
        proof {
            t.lemma_fresh();
        }
        t
    }
}

impl<T: Clone> Trie<T> {
    /// `out` lists the stored words that start with `prefix`: each of them
    /// once, in some order, with a clone of its value, and nothing else.
    pub open spec fn lists(self, prefix: Seq<char>, out: Seq<(String, T)>) -> bool {
        &&& forall|i: int|
            0 <= i < out.len() ==> {
                let word = (#[trigger] out[i]).0@;
                &&& prefix.is_prefix_of(word)
                &&& self@.contains_key(word)
                &&& cloned(self@[word], out[i].1)
            }
        &&& forall|w: Seq<char>|
            prefix.is_prefix_of(w) && #[trigger] self@.contains_key(w) ==> exists|i: int|
                0 <= i < out.len() && (#[trigger] out[i]).0@ == w
        &&& forall|i: int, j: int|
            0 <= i < j < out.len() ==> (#[trigger] out[i]).0@ != (#[trigger] out[j]).0@
    }

    /// Creates a root node.
    pub fn new() -> (t: Self)
        ensures
            t.wf(),
            t@ == Map::<Seq<char>, T>::empty(),
            t.paths() == set![Seq::<char>::empty()],
            t.leaves() == Set::<Seq<char>>::empty(),
    {
        Trie::default()
    }

    /// Returns `true` if the given word exists.
    pub fn contains(&self, word: &str) -> (found: bool)
        ensures
            found == self@.contains_key(word@),
    {
        match self.descend(word) {
            Some(node) => node.value.is_some(),
            None => false,
        }
    }

    /// Creates the nodes that represent a new word.
    pub fn insert(&mut self, word: &str, value: Option<T>)
        requires
            old(self).wf(),
        ensures
            final(self).wf(),
            Self::insertion(*old(self), word@, value, *final(self)),
    {
        let ghost pre = *self;
        let mut cur = self;
        proof {
            Self::lemma_nothing_above_root(word@.take(0));
        }
        for c in it: word.chars()
            invariant
                it.seq() == word@,
                pre.wf(),
                final(self).node_at(word@.take(it.index())) == Some(*final(cur)),
                Self::same_off_path(pre, *final(self), word@.take(it.index())),
                Self::cleared_above(pre, *final(self), word@.take(it.index())),
                Self::found_or_fresh(pre, word@.take(it.index()), *cur),
        {
            let ghost p = word@.take(it.index());
            let ghost node = *cur;
            cur.is_leaf = false;
            cur = cur.children.entry(c as u32).or_insert(Self::fresh());
            proof {
                let up = final(self).node_at(p).unwrap();
                assert(p.push(c) =~= word@.take(it.index() + 1));
                Self::lemma_insert_step(pre, *final(self), p, c, node, up, *cur, *final(cur));
            }
        }
        let ghost node = *cur;
        cur.value = value;
        cur.is_leaf = cur.children.is_empty();
        proof {
            assert(word@.take(word@.len() as int) =~= word@);
            Self::lemma_insert_done(pre, *final(self), word@, value, node, *cur);
        }
    }

    /// Removes a word by reinitializing its `value`
    /// and by updating leaf position as necessary.
    pub fn remove(&mut self, word: &str) -> (found: bool)
        ensures
            Self::removal(*old(self), word@, *final(self), found),
            old(self).wf() ==> final(self).wf(),
    {
        let previous_word_index = self.get_previous_word_index(word);
        let ghost pre = *self;
        let ghost mark = pre.previous_word(word@);
        // A word has no more characters than bytes, so the index below fits.
        let limit = byte_len(word);
        let mut cur = self;
        let mut i: usize = 0;
        proof {
            Self::lemma_nothing_above_root(word@.take(0));
        }
        for c in it: word.chars()
            invariant
                it.seq() == word@,
                i == it.index(),
                word@.len() <= limit,
                pre == *old(self),
                mark == pre.previous_word(word@),
                match previous_word_index {
                    Some(j) => mark == Some(j as nat),
                    None => mark is None,
                },
                final(self).node_at(word@.take(it.index())) == Some(*final(cur)),
                pre.node_at(word@.take(it.index())) == Some(*cur),
                Self::same_off_path(pre, *final(self), word@.take(it.index())),
                Self::marked_above(pre, *final(self), word@.take(it.index()), mark),
        {
            let ghost p = word@.take(it.index());
            let ghost node = *cur;
            if previous_word_index.is_some() && previous_word_index.unwrap() == i {
                cur.is_leaf = true;
            }
            match cur.children.entry(c as u32) {
                Entry::Occupied(entry) => {
                    cur = entry.into_mut();
                },
                Entry::Vacant(_) => {
                    proof {
                        pre.lemma_node_at_push(p, c);
                        assert(p.push(c) =~= word@.take(it.index() + 1));
                        pre.lemma_node_at_prefix(p.push(c), word@);
                        let last = final(self).node_at(p).unwrap();
                        assert(last.children@ =~= node.children@);
                        Self::lemma_remove_done(pre, *final(self), word@, p, node, last, mark, false);
                    }
                    return false;
                },
            }
            proof {
                let up = final(self).node_at(p).unwrap();
                assert(p.push(c) =~= word@.take(it.index() + 1));
                Self::lemma_remove_step(pre, *final(self), p, c, node, up, *final(cur), mark);
            }
            i += 1;
        }
        let ghost node = *cur;
        cur.value = None;
        proof {
            assert(word@.take(word@.len() as int) =~= word@);
            pre.lemma_previous_word(word@);
            Self::lemma_remove_done(pre, *final(self), word@, word@, node, *cur, mark, true);
        }
        true
    }

    /// Returns the index of the most direct parent for a given word.
    fn get_previous_word_index(&self, word: &str) -> (previous: Option<usize>)
        ensures
            match previous {
                Some(i) => self.previous_word(word@) == Some(i as nat),
                None => self.previous_word(word@) is None,
            },
    {
        // A word has no more characters than bytes, so the index below fits.
        let limit = byte_len(word);
        let mut cur = self;
        let mut previous_word_index: Option<usize> = None;
        let mut i: usize = 0;
        for c in it: word.chars()
            invariant
                it.seq() == word@,
                i == it.index(),
                word@.len() <= limit,
                self.node_at(word@.take(it.index())) == Some(*cur),
                match previous_word_index {
                    Some(j) => self.stored_prefix_below(word@, i as nat) == Some(j as nat),
                    None => self.stored_prefix_below(word@, i as nat) is None,
                },
        {
            if cur.value.is_some() {
                previous_word_index = Some(i);
            }
            proof {
                self.lemma_node_at_push(word@.take(it.index()), c);
                assert(word@.take(it.index()).push(c) =~= word@.take(it.index() + 1));
            }
            match cur.children.get(&(c as u32)) {
                Some(next) => {
                    cur = next;
                },
                None => {
                    proof {
                        self.lemma_node_at_prefix(word@.take(it.index() + 1), word@);
                    }
                    return None;
                },
            }
            i += 1;
        }
        assert(word@.take(word@.len() as int) =~= word@);
        previous_word_index
    }

    /// Returns all the words from the Trie.
    pub fn get_all(&self) -> (words: Vec<(String, T)>)
        requires
            self.wf(),
        ensures
            self.lists(Seq::<char>::empty(), words@),
    {
        proof {
            reveal_strlit("");
            assert(""@ =~= Seq::<char>::empty());
        }
        self.starts_with("")
    }

    /// Returns the words that start with the given prefix.
    /// Words are returned in a tuple with their associated value.
    pub fn starts_with(&self, prefix: &str) -> (words: Vec<(String, T)>)
        requires
            self.wf(),
        ensures
            self.lists(prefix@, words@),
    {
        let current_node = match self.descend(prefix) {
            Some(node) => node,
            None => {
                proof {
                    self.lemma_lists_none(prefix@);
                }
                return Vec::new();
            },
        };
        proof {
            reveal_strlit("");
            assert(prefix@ + ""@ =~= prefix@);
            self.lemma_wf_below(prefix@);
        }
        let mut words = current_node.dfs(prefix, "");
        let ghost below = words@;

        // If it's a word, add the prefix itself.
        if let Some(value) = &current_node.value {
            words.push((prefix.to_string(), value.clone()));
        }
        proof {
            assert(current_node.value is Some ==> words@.take(below.len() as int) =~= below);
            self.lemma_lists_from_node(prefix@, *current_node, below, words@);
        }
        words
    }

    /// Depth-first search.
    fn dfs(&self, prefix: &str, buffer: &str) -> (words: Vec<(String, T)>)
        requires
            self.wf(),
        ensures
            self.lists_under(prefix@ + buffer@, words@, Set::full()),
        decreases self,
    {
        let ghost base = prefix@ + buffer@;
        let ghost mut seen: Set<u32> = Set::empty();
        let mut words: Vec<(String, T)> = Vec::new();
        for (k, v) in it: self.children.iter()
            invariant
                self.wf(),
                base == prefix@ + buffer@,
                it.seq().no_duplicates(),
                forall|j: int|
                    0 <= j < it.seq().len() ==> self.children@.contains_key(
                        *(#[trigger] it.seq()[j]).0,
                    ) && self.children@[*it.seq()[j].0] == *it.seq()[j].1,
                forall|j: int|
                    it.index() <= j < it.seq().len() ==> !seen.contains(*(#[trigger] it.seq()[j]).0),
                forall|key: u32|
                    self.children@.contains_key(key) ==> seen.contains(key) || exists|j: int|
                        it.index() <= j < it.seq().len() && *(#[trigger] it.seq()[j]).0 == key,
                self.lists_under(base, words@, seen),
        {
            let ghost before = words@;
            proof {
                assert(self.sound_at(Seq::<char>::empty()));
            }
            let c = char_from_code(*k).unwrap();
            proof {
                self.lemma_wf_child(c);
            }
            let mut buffer = String::from_str(buffer);
            push_char(&mut buffer, c);

            if let Some(value) = &v.value {
                let mut new_word = String::from_str(prefix);
                new_word.append(buffer.as_str());

                words.push((new_word, value.clone()));
            }
            let ghost own = words@.skip(before.len() as int);

            let mut below = v.dfs(prefix, buffer.as_str());
            let ghost rest = below@;
            words.append(&mut below);
            proof {
                assert(prefix@ + buffer@ =~= base.push(c));
                assert(words@ =~= before + own + rest);
                self.lemma_dfs_step(*v, c, base, before, own, rest, seen);
                assert forall|j: int| it.index() + 1 <= j < it.seq().len() implies *(#[trigger] it.seq()[j]).0 != *k by {
                    if *it.seq()[j].0 == *k {
                        assert(it.seq()[j] == it.seq()[it.index()]);
                    }
                }
                seen = seen.insert(c as u32);
            }
        }
        proof {
            self.lemma_lists_under_all(base, words@, seen);
        }
        words
    }

    /// Walks from this node along `word`.
    fn descend(&self, word: &str) -> (r: Option<&Trie<T>>)
        ensures
            match r {
                Some(n) => self.node_at(word@) == Some(*n),
                None => self.node_at(word@) is None,
            },
    {
        let mut cur = self;
        for c in it: word.chars()
            invariant
                it.seq() == word@,
                self.node_at(word@.take(it.index())) == Some(*cur),
        {
            proof {
                self.lemma_node_at_push(word@.take(it.index()), c);
                assert(word@.take(it.index()).push(c) =~= word@.take(it.index() + 1));
            }
            match cur.children.get(&(c as u32)) {
                Some(next) => {
                    cur = next;
                },
                None => {
                    proof {
                        self.lemma_node_at_prefix(word@.take(it.index() + 1), word@);
                    }
                    return None;
                },
            }
        }
        assert(word@.take(word@.len() as int) =~= word@);
        Some(cur)
    }
}

} // verus!
