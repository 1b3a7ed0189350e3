use vstd::prelude::*;

use super::{prefixes_of, Trie};

verus! {

impl<T> Trie<T> {
    /// Above `p`, `post` has the nodes of `pre` with the same value and
    /// edges, and the leaf flag set in addition at length `mark`.
    pub(super) open spec fn marked_above(pre: Self, post: Self, p: Seq<char>, mark: Option<nat>) -> bool {
        forall|q: Seq<char>|
            q.is_prefix_of(p) && q != p ==> match (#[trigger] post.node_at(q), pre.node_at(q)) {
                (Some(n), Some(m)) => {
                    &&& n.value == m.value
                    &&& n.is_leaf == (m.is_leaf || mark == Some(q.len()))
                    &&& n.children@.dom() == m.children@.dom()
                },
                _ => false,
            }
    }

    /// Off the path `p`, `post` has the nodes of `pre`.
    pub(super) open spec fn same_off_path(pre: Self, post: Self, p: Seq<char>) -> bool {
        forall|w: Seq<char>|
            !p.is_prefix_of(w) && !w.is_prefix_of(p) ==> #[trigger] post.node_at(w) == pre.node_at(
                w,
            )
    }

    /// Above `p`, `post` has a node for every prefix, with the value that
    /// `pre` has there and the leaf flag cleared.
    pub(super) open spec fn cleared_above(pre: Self, post: Self, p: Seq<char>) -> bool {
        forall|q: Seq<char>|
            q.is_prefix_of(p) && q != p ==> match #[trigger] post.node_at(q) {
                Some(n) => n.value == pre.value_at(q) && !n.is_leaf && n.edges_are_chars(),
                None => false,
            }
    }

    /// `node` is what `pre` has at `p`, or a new node where `pre` has none.
    pub(super) open spec fn found_or_fresh(pre: Self, p: Seq<char>, node: Self) -> bool {
        pre.node_at(p) == Some(node) || (pre.node_at(p) is None && node.is_fresh())
    }

    /// The empty word has no proper prefix.
    pub(super) proof fn lemma_nothing_above_root(root: Seq<char>)
        requires
            root.len() == 0,
        ensures
            forall|q: Seq<char>| q.is_prefix_of(root) ==> q == root,
    {
        assert forall|q: Seq<char>| q.is_prefix_of(root) implies q == root by {
            assert(q =~= root);
        }
    }

    pub(super) proof fn lemma_prefix_of_push(q: Seq<char>, p: Seq<char>, c: char)
        requires
            q.is_prefix_of(p.push(c)),
            q != p.push(c),
        ensures
            q.is_prefix_of(p),
    {
        if q.len() == p.len() + 1 {
            assert(q =~= p.push(c));
        }
        assert(q =~= p.subrange(0, q.len() as int));
    }

    /// One step down the path keeps the nodes off the path.
    pub(super) proof fn lemma_step_off_path(pre: Self, post: Self, p: Seq<char>, c: char, node: Self, up: Self)
        requires
            Self::same_off_path(pre, post, p),
            Self::found_or_fresh(pre, p, node),
            post.node_at(p) == Some(up),
            forall|d: char| d != c ==> up.child(d) == node.child(d),
        ensures
            Self::same_off_path(pre, post, p.push(c)),
    {
        let pc = p.push(c);
        assert forall|w: Seq<char>| !pc.is_prefix_of(w) && !w.is_prefix_of(pc) implies #[trigger] post.node_at(w) == pre.node_at(w) by {
            if p.is_prefix_of(w) {
                let s = w.skip(p.len() as int);
                post.lemma_node_at_prefix(p, w);
                pre.lemma_node_at_prefix(p, w);
                if s.len() == 0 {
                    assert(w =~= p);
                }
                if s[0] == c {
                    assert(pc.is_prefix_of(w));
                }
                assert(up.child(s[0]) == node.child(s[0]));
            } else {
                assert(!w.is_prefix_of(p));
            }
        }
    }

    /// A node that keeps its edges keeps what is below it.
    pub(super) proof fn lemma_same_below(pre: Self, post: Self, p: Seq<char>, node: Self, last: Self)
        requires
            Self::found_or_fresh(pre, p, node),
            post.node_at(p) == Some(last),
            last.children@ == node.children@,
        ensures
            forall|w: Seq<char>| p.is_prefix_of(w) && w != p ==> #[trigger] post.node_at(w) == pre.node_at(w),
    {
        assert forall|w: Seq<char>| p.is_prefix_of(w) && w != p implies #[trigger] post.node_at(w) == pre.node_at(w) by {
            let s = w.skip(p.len() as int);
            post.lemma_node_at_prefix(p, w);
            pre.lemma_node_at_prefix(p, w);
            if s.len() == 0 {
                assert(w =~= p);
            }
            assert(last.child(s[0]) == node.child(s[0]));
        }
    }

    /// The nodes of a well-formed tree are well-formed trees.
    pub(super) proof fn lemma_wf_below(self, p: Seq<char>)
        requires
            self.wf(),
        ensures
            match self.node_at(p) {
                Some(n) => n.wf(),
                None => true,
            },
    {
        match self.node_at(p) {
            Some(n) => {
                assert forall|w: Seq<char>| #[trigger] n.sound_at(w) by {
                    self.lemma_node_at_concat(p, w);
                    assert(self.sound_at(p + w));
                }
            },
            None => {},
        }
    }

    pub(super) proof fn lemma_wf_child(self, c: char)
        requires
            self.wf(),
        ensures
            match self.child(c) {
                Some(n) => n.wf(),
                None => true,
            },
    {
        self.lemma_node_at_push(Seq::<char>::empty(), c);
        self.lemma_wf_below(Seq::<char>::empty().push(c));
    }

    pub(super) proof fn lemma_code_distinct(c: char, d: char)
        requires
            c != d,
        ensures
            c as u32 != d as u32,
    {
        vstd::utf8::char_u32_cast(c, c as u32);
        vstd::utf8::char_u32_cast(d, d as u32);
    }

    pub(super) proof fn lemma_insert_step(
        pre: Self,
        post: Self,
        p: Seq<char>,
        c: char,
        node: Self,
        up: Self,
        next: Self,
        next_post: Self,
    )
        requires
            pre.wf(),
            post.node_at(p) == Some(up),
            Self::same_off_path(pre, post, p),
            Self::cleared_above(pre, post, p),
            Self::found_or_fresh(pre, p, node),
            up.children@ == node.children@.insert(c as u32, next_post),
            !up.is_leaf,
            up.value == node.value,
            node.child(c) == Some(next) || (node.child(c) is None && next.is_fresh()),
        ensures
            post.node_at(p.push(c)) == Some(next_post),
            Self::same_off_path(pre, post, p.push(c)),
            Self::cleared_above(pre, post, p.push(c)),
            Self::found_or_fresh(pre, p.push(c), next),
    {
        let pc = p.push(c);
        post.lemma_node_at_push(p, c);
        pre.lemma_node_at_push(p, c);
        assert(pre.sound_at(p));
        vstd::utf8::char_is_scalar(c);
        assert forall|d: char| d != c implies up.child(d) == node.child(d) by {
            Self::lemma_code_distinct(c, d);
        }
        Self::lemma_step_off_path(pre, post, p, c, node, up);
        assert forall|q: Seq<char>| q.is_prefix_of(pc) && q != pc implies match #[trigger] post.node_at(q) {
            Some(n) => n.value == pre.value_at(q) && !n.is_leaf && n.edges_are_chars(),
            None => false,
        } by {
            Self::lemma_prefix_of_push(q, p, c);
        }
    }

    pub(super) proof fn lemma_insert_done(
        pre: Self,
        post: Self,
        word: Seq<char>,
        value: Option<T>,
        node: Self,
        last: Self,
    )
        requires
            pre.wf(),
            post.node_at(word) == Some(last),
            Self::same_off_path(pre, post, word),
            Self::cleared_above(pre, post, word),
            Self::found_or_fresh(pre, word, node),
            last.children@ == node.children@,
            last.value == value,
            last.is_leaf == node.children@.is_empty(),
        ensures
            post.wf(),
            Self::insertion(pre, word, value, post),
    {
        assert(pre.sound_at(word));
        Self::lemma_same_below(pre, post, word, node, last);
        assert forall|w: Seq<char>| #[trigger] post.sound_at(w) by {
            assert(pre.sound_at(w));
        }
        assert(last.is_leaf == !pre.has_child_at(word)) by {
            if pre.has_child_at(word) {
                let c = choose|c: char| pre.has_path(#[trigger] word.push(c));
                pre.lemma_node_at_push(word, c);
                assert(node.children@.contains_key(c as u32));
            }
            if !node.children@.is_empty() {
                let k = choose|k: u32| node.children@.contains_key(k);
                assert(node.children@.dom().contains(k));
                assert(vstd::utf8::is_scalar(k));
                let c = k as char;
                assert(c as u32 == k);
                pre.lemma_node_at_push(word, c);
                assert(pre.has_path(word.push(c)));
            }
        }
        assert(post.paths() =~= pre.paths().union(prefixes_of(word)));
        assert(post@ =~= (match value {
            Some(v) => pre@.insert(word, v),
            None => pre@.remove(word),
        }));
        assert(post.leaves() =~= pre.leaves_after_insert(word));
    }

    pub(super) proof fn lemma_remove_step(
        pre: Self,
        post: Self,
        p: Seq<char>,
        c: char,
        node: Self,
        up: Self,
        next_post: Self,
        mark: Option<nat>,
    )
        requires
            post.node_at(p) == Some(up),
            pre.node_at(p) == Some(node),
            Self::same_off_path(pre, post, p),
            Self::marked_above(pre, post, p, mark),
            node.children@.contains_key(c as u32),
            up.children@ == node.children@.insert(c as u32, next_post),
            up.value == node.value,
            up.is_leaf == (node.is_leaf || mark == Some(p.len())),
        ensures
            post.node_at(p.push(c)) == Some(next_post),
            pre.node_at(p.push(c)) == Some(node.children@[c as u32]),
            Self::same_off_path(pre, post, p.push(c)),
            Self::marked_above(pre, post, p.push(c), mark),
    {
        let pc = p.push(c);
        post.lemma_node_at_push(p, c);
        pre.lemma_node_at_push(p, c);
        assert forall|d: char| d != c implies up.child(d) == node.child(d) by {
            Self::lemma_code_distinct(c, d);
        }
        Self::lemma_step_off_path(pre, post, p, c, node, up);
        assert(up.children@.dom() =~= node.children@.dom());
        assert forall|q: Seq<char>| q.is_prefix_of(pc) && q != pc implies match (#[trigger] post.node_at(q), pre.node_at(q)) {
            (Some(n), Some(m)) => {
                &&& n.value == m.value
                &&& n.is_leaf == (m.is_leaf || mark == Some(q.len()))
                &&& n.children@.dom() == m.children@.dom()
            },
            _ => false,
        } by {
            Self::lemma_prefix_of_push(q, p, c);
        }
    }

    /// The walk of `remove` has come to an end at `p`, a prefix of `word`:
    /// either `word` itself, or the last prefix of it that is a path.
    pub(super) proof fn lemma_remove_done(
        pre: Self,
        post: Self,
        word: Seq<char>,
        p: Seq<char>,
        node: Self,
        last: Self,
        mark: Option<nat>,
        found: bool,
    )
        requires
            p.is_prefix_of(word),
            post.node_at(p) == Some(last),
            pre.node_at(p) == Some(node),
            Self::same_off_path(pre, post, p),
            Self::marked_above(pre, post, p, mark),
            mark == pre.previous_word(word),
            last.children@ == node.children@,
            last.is_leaf == (node.is_leaf || mark == Some(p.len())),
            found == pre.has_path(word),
            found ==> p == word && last.value is None,
            !found ==> last.value == node.value,
        ensures
            pre.wf() ==> post.wf(),
            Self::removal(pre, word, post, found),
    {
        Self::lemma_same_below(pre, post, p, node, last);
        pre.lemma_previous_word(word);
        if pre.wf() {
            assert forall|w: Seq<char>| #[trigger] post.sound_at(w) by {
                assert(pre.sound_at(w));
            }
        }
        assert(post.paths() =~= pre.paths());
        assert(post@ =~= pre@.remove(word));
        assert(post.leaves() =~= pre.leaves_after_remove(word)) by {
            assert forall|w: Seq<char>| post.leaf_at(w) == (pre.leaf_at(w) || (w.is_prefix_of(p) && mark == Some(w.len()))) by {
                if p.is_prefix_of(w) {
                    if w != p {
                    }
                } else if w.is_prefix_of(p) {
                } else {
                }
            }
            match mark {
                Some(n) => {
                    assert forall|w: Seq<char>| (w.is_prefix_of(p) && mark == Some(w.len())) == (w == word.take(n as int)) by {
                        if w == word.take(n as int) {
                        }
                        if w.is_prefix_of(p) && mark == Some(w.len()) {
                            assert(w =~= word.take(n as int));
                        }
                    }
                },
                None => {},
            }
        }
    }

    /// The root is a path, and every prefix of a path is a path.
    pub proof fn lemma_paths_closed(self, p: Seq<char>, w: Seq<char>)
        requires
            p.is_prefix_of(w),
            self.has_path(w),
        ensures
            self.has_path(p),
            self.has_path(Seq::<char>::empty()),
    {
        self.lemma_node_at_prefix(p, w);
    }

    /// A stored word is a path, and so is the place of every leaf flag.
    pub proof fn lemma_on_path(self, w: Seq<char>)
        ensures
            self@.contains_key(w) ==> self.has_path(w),
            self.leaf_at(w) ==> self.has_path(w),
            self@.contains_key(w) <==> self.value_at(w) is Some,
            self@.contains_key(w) ==> self.value_at(w) == Some(self@[w]),
    {
    }

    /// What `previous_word` finds.
    pub proof fn lemma_previous_word(self, word: Seq<char>)
        ensures
            match self.previous_word(word) {
                Some(n) => {
                    &&& n < word.len()
                    &&& self.has_path(word)
                    &&& self@.contains_key(word.take(n as int))
                    &&& forall|m: int| n < m < word.len() ==> !self@.contains_key(#[trigger] word.take(m))
                },
                None => !self.has_path(word) || forall|m: int|
                    0 <= m < word.len() ==> !self@.contains_key(#[trigger] word.take(m)),
            },
    {
        self.lemma_stored_prefix_below(word, word.len());
    }

    pub(super) proof fn lemma_stored_prefix_below(self, word: Seq<char>, n: nat)
        ensures
            match self.stored_prefix_below(word, n) {
                Some(k) => {
                    &&& k < n
                    &&& self@.contains_key(word.take(k as int))
                    &&& forall|m: int| k < m < n ==> !self@.contains_key(#[trigger] word.take(m))
                },
                None => forall|m: int| 0 <= m < n ==> !self@.contains_key(#[trigger] word.take(m)),
            },
        decreases n,
    {
        if n > 0 {
            self.lemma_stored_prefix_below(word, (n - 1) as nat);
        }
    }

    pub(super) proof fn lemma_node_at_concat(self, a: Seq<char>, b: Seq<char>)
        ensures
            self.node_at(a + b) == (match self.node_at(a) {
                Some(n) => n.node_at(b),
                None => None,
            }),
        decreases a.len(),
    {
        if a.len() == 0 {
            assert(a + b =~= b);
        } else {
            assert((a + b)[0] == a[0]);
            assert((a + b).skip(1) =~= a.skip(1) + b);
            match self.child(a[0]) {
                Some(n) => n.lemma_node_at_concat(a.skip(1), b),
                None => {},
            }
        }
    }

    pub(super) proof fn lemma_node_at_push(self, w: Seq<char>, c: char)
        ensures
            self.node_at(w.push(c)) == (match self.node_at(w) {
                Some(n) => n.child(c),
                None => None,
            }),
    {
        self.lemma_node_at_concat(w, seq![c]);
        assert(w + seq![c] =~= w.push(c));
        match self.node_at(w) {
            Some(n) => {
                assert(seq![c].skip(1) =~= Seq::<char>::empty());
                match n.child(c) {
                    Some(m) => {
                        assert(m.node_at(seq![c].skip(1)) == Some(m));
                    },
                    None => {},
                }
            },
            None => {},
        }
    }

    pub(super) proof fn lemma_node_at_prefix(self, p: Seq<char>, w: Seq<char>)
        requires
            p.is_prefix_of(w),
        ensures
            self.node_at(w) == (match self.node_at(p) {
                Some(n) => n.node_at(w.skip(p.len() as int)),
                None => None,
            }),
    {
        self.lemma_node_at_concat(p, w.skip(p.len() as int));
        assert(p + w.skip(p.len() as int) =~= w);
    }

    pub(super) proof fn lemma_fresh(self)
        requires
            self.is_fresh(),
        ensures
            self.wf(),
            self@ == Map::<Seq<char>, T>::empty(),
            self.paths() == set![Seq::<char>::empty()],
            self.leaves() == Set::<Seq<char>>::empty(),
            forall|w: Seq<char>| w.len() > 0 ==> self.node_at(w) is None,
    {
        assert forall|w: Seq<char>| w.len() > 0 implies self.node_at(w) is None by {}
        assert(self.node_at(Seq::<char>::empty()) == Some(self));
        assert forall|w: Seq<char>| #[trigger] self.sound_at(w) by {
            if w.len() > 0 {
            }
        }
        assert(self@ =~= Map::<Seq<char>, T>::empty()) by {
            assert forall|w: Seq<char>| !(#[trigger] self@.contains_key(w)) by {
                if w.len() > 0 {
                }
            }
        }
        assert(self.paths() =~= set![Seq::<char>::empty()]) by {
            assert forall|w: Seq<char>| #[trigger] self.paths().contains(w) <==> w == Seq::<char>::empty() by {
                if w.len() == 0 {
                    assert(w =~= Seq::<char>::empty());
                }
            }
        }
        assert(self.leaves() =~= Set::<Seq<char>>::empty()) by {
            assert forall|w: Seq<char>| !(#[trigger] self.leaves().contains(w)) by {
                if w.len() > 0 {
                }
            }
        }
    }
}

impl<T: Clone> Trie<T> {
    /// `entry` is `base`, then a word stored below this node whose first
    /// character is among `keys`, with a clone of its value.
    pub(super) open spec fn entry_under(self, base: Seq<char>, entry: (String, T), keys: Set<u32>) -> bool {
        let word = entry.0@;
        &&& base.is_prefix_of(word)
        &&& word.len() > base.len()
        &&& keys.contains(word[base.len() as int] as u32)
        &&& match self.value_at(word.skip(base.len() as int)) {
            Some(v) => cloned(v, entry.1),
            None => false,
        }
    }

    /// `out` lists, each behind `base`, the words stored below this node
    /// whose first character is among `keys`: each of them once.
    pub(super) open spec fn lists_under(self, base: Seq<char>, out: Seq<(String, T)>, keys: Set<u32>) -> bool {
        &&& forall|i: int| 0 <= i < out.len() ==> self.entry_under(base, #[trigger] out[i], keys)
        &&& forall|s: Seq<char>|
            s.len() > 0 && keys.contains(s[0] as u32) && (#[trigger] self.value_at(s)) is Some
                ==> exists|i: int| 0 <= i < out.len() && (#[trigger] out[i]).0@ == base + s
        &&& forall|i: int, j: int|
            0 <= i < j < out.len() ==> (#[trigger] out[i]).0@ != (#[trigger] out[j]).0@
    }

    /// A list that covers every edge of the node covers all that is below it.
    pub(super) proof fn lemma_lists_under_all(self, base: Seq<char>, out: Seq<(String, T)>, keys: Set<u32>)
        requires
            self.lists_under(base, out, keys),
            forall|key: u32| self.children@.contains_key(key) ==> keys.contains(key),
        ensures
            self.lists_under(base, out, Set::full()),
    {
        assert forall|i: int| 0 <= i < out.len() implies self.entry_under(base, #[trigger] out[i], Set::full()) by {
            assert(self.entry_under(base, out[i], keys));
        }
    }

    pub(super) proof fn lemma_under_push(base: Seq<char>, c: char, word: Seq<char>)
        requires
            base.push(c).is_prefix_of(word),
        ensures
            base.is_prefix_of(word),
            word[base.len() as int] == c,
            word.skip(base.len() as int) == seq![c] + word.skip(base.len() as int + 1),
    {
        let bc = base.push(c);
        assert(word.subrange(0, bc.len() as int)[base.len() as int] == bc[base.len() as int]);
        assert(base =~= word.subrange(0, base.len() as int)) by {
            assert forall|i: int| 0 <= i < base.len() implies base[i] == word[i] by {
                assert(word.subrange(0, bc.len() as int)[i] == bc[i]);
            }
        }
        assert(word.skip(base.len() as int) =~= seq![c] + word.skip(base.len() as int + 1));
    }

    /// What is below a child is below the node, behind the child's
    /// character.
    pub(super) proof fn lemma_entry_under_child(self, child: Self, c: char, base: Seq<char>, entry: (String, T))
        requires
            self.child(c) == Some(child),
            child.entry_under(base.push(c), entry, Set::full()),
        ensures
            self.entry_under(base, entry, set![c as u32]),
            entry.0@.len() > base.len() + 1,
    {
        let word = entry.0@;
        Self::lemma_under_push(base, c, word);
        self.lemma_child_at(c, word.skip(base.len() as int + 1));
    }

    /// The node below the edge `c`, and what is below it.
    pub(super) proof fn lemma_child_at(self, c: char, t: Seq<char>)
        ensures
            self.node_at(seq![c] + t) == (match self.child(c) {
                Some(n) => n.node_at(t),
                None => None,
            }),
    {
        self.lemma_node_at_concat(seq![c], t);
        self.lemma_node_at_push(Seq::<char>::empty(), c);
        assert(Seq::<char>::empty().push(c) =~= seq![c]);
    }

    /// One child of the node has been walked: `own` is its own word, if it
    /// holds one, and `below` is what was found below it.
    pub(super) proof fn lemma_dfs_step(
        self,
        child: Self,
        c: char,
        base: Seq<char>,
        out: Seq<(String, T)>,
        own: Seq<(String, T)>,
        below: Seq<(String, T)>,
        keys: Set<u32>,
    )
        requires
            self.child(c) == Some(child),
            !keys.contains(c as u32),
            self.lists_under(base, out, keys),
            child.lists_under(base.push(c), below, Set::full()),
            match child.value {
                Some(v) => own.len() == 1 && own[0].0@ == base.push(c) && cloned(v, own[0].1),
                None => own.len() == 0,
            },
        ensures
            self.lists_under(base, out + own + below, keys.insert(c as u32)),
    {
        let all = out + own + below;
        let more = keys.insert(c as u32);
        let bc = base.push(c);
        let split = out.len() + own.len();
        assert forall|i: int| 0 <= i < all.len() implies (if i < out.len() {
            all[i] == out[i] && self.entry_under(base, all[i], keys)
        } else {
            self.entry_under(base, all[i], set![c as u32]) && (if i < split {
                all[i].0@ == bc
            } else {
                all[i] == below[i - split] && all[i].0@.len() > bc.len()
            })
        }) by {
            if i < out.len() {
                assert(self.entry_under(base, out[i], keys));
            } else if i < split {
                assert(all[i] == own[0]);
                assert(bc.skip(base.len() as int) =~= seq![c]);
                self.lemma_child_at(c, Seq::<char>::empty());
                assert(seq![c] + Seq::<char>::empty() =~= seq![c]);
            } else {
                assert(child.entry_under(bc, below[i - split], Set::full()));
                self.lemma_entry_under_child(child, c, base, below[i - split]);
            }
        }
        assert forall|i: int| 0 <= i < all.len() implies self.entry_under(base, #[trigger] all[i], more) by {
            if i < out.len() {
                assert(self.entry_under(base, all[i], keys));
            } else {
                assert(self.entry_under(base, all[i], set![c as u32]));
            }
        }
        assert forall|s: Seq<char>| s.len() > 0 && more.contains(s[0] as u32) && (#[trigger] self.value_at(s)) is Some implies exists|i: int| 0 <= i < all.len() && (#[trigger] all[i]).0@ == base + s by {
            if keys.contains(s[0] as u32) {
                let i = choose|i: int| 0 <= i < out.len() && (#[trigger] out[i]).0@ == base + s;
                assert(all[i] == out[i]);
            } else {
                if s[0] != c {
                    Self::lemma_code_distinct(s[0], c);
                }
                let t = s.skip(1);
                assert(s =~= seq![c] + t);
                self.lemma_child_at(c, t);
                if t.len() == 0 {
                    assert(all[out.len() as int] == own[0]);
                    assert(bc =~= base + s);
                } else {
                    assert(child.value_at(t) is Some);
                    let i = choose|i: int| 0 <= i < below.len() && (#[trigger] below[i]).0@ == bc + t;
                    assert(all[split + i] == below[i]);
                    assert(bc + t =~= base + s);
                }
            }
        }
        assert forall|i: int, j: int| 0 <= i < j < all.len() implies (#[trigger] all[i]).0@ != (#[trigger] all[j]).0@ by {
            if j < out.len() {
            } else if i < out.len() {
                assert(self.entry_under(base, all[i], keys));
                assert(self.entry_under(base, all[j], set![c as u32]));
            } else if i < split {
            } else {
            }
        }
    }

    /// Where `prefix` is no path, no stored word starts with it.
    pub(super) proof fn lemma_lists_none(self, prefix: Seq<char>)
        requires
            self.node_at(prefix) is None,
        ensures
            self.lists(prefix, Seq::<(String, T)>::empty()),
    {
        assert forall|w: Seq<char>| prefix.is_prefix_of(w) implies !(#[trigger] self@.contains_key(w)) by {
            self.lemma_node_at_prefix(prefix, w);
        }
    }

    /// The words below the node at `prefix`, and the node's own, are the
    /// stored words that start with `prefix`.
    pub(super) proof fn lemma_lists_from_node(
        self,
        prefix: Seq<char>,
        node: Self,
        below: Seq<(String, T)>,
        out: Seq<(String, T)>,
    )
        requires
            self.node_at(prefix) == Some(node),
            node.lists_under(prefix, below, Set::full()),
            match node.value {
                Some(v) => out.len() == below.len() + 1 && out.take(below.len() as int) == below
                    && out.last().0@ == prefix && cloned(v, out.last().1),
                None => out == below,
            },
        ensures
            self.lists(prefix, out),
    {
        let n = below.len() as int;
        assert forall|i: int| 0 <= i < out.len() implies {
            let word = (#[trigger] out[i]).0@;
            &&& prefix.is_prefix_of(word)
            &&& self@.contains_key(word)
            &&& cloned(self@[word], out[i].1)
        } by {
            let word = out[i].0@;
            if i < n {
                assert(out[i] == below[i]) by {
                    if node.value is Some {
                        assert(out.take(n)[i] == out[i]);
                    }
                }
                assert(node.entry_under(prefix, below[i], Set::full()));
            } else {
                assert(word.skip(prefix.len() as int) =~= Seq::<char>::empty());
            }
            self.lemma_node_at_prefix(prefix, word);
        }
        assert forall|w: Seq<char>| prefix.is_prefix_of(w) && #[trigger] self@.contains_key(w) implies exists|i: int| 0 <= i < out.len() && (#[trigger] out[i]).0@ == w by {
            let s = w.skip(prefix.len() as int);
            self.lemma_node_at_prefix(prefix, w);
            assert(prefix + s =~= w);
            if s.len() == 0 {
                assert(out[n].0@ == w);
            } else {
                assert(node.value_at(s) is Some);
                let i = choose|i: int| 0 <= i < below.len() && (#[trigger] below[i]).0@ == prefix + s;
                assert(out[i] == below[i]) by {
                    if node.value is Some {
                        assert(out.take(n)[i] == out[i]);
                    }
                }
            }
        }
        assert forall|i: int, j: int| 0 <= i < j < out.len() implies (#[trigger] out[i]).0@ != (#[trigger] out[j]).0@ by {
            assert(out[i] == below[i]) by {
                if node.value is Some {
                    assert(out.take(n)[i] == out[i]);
                }
            }
            assert(node.entry_under(prefix, below[i], Set::full()));
            if j < n {
                assert(out[j] == below[j]) by {
                    if node.value is Some {
                        assert(out.take(n)[j] == out[j]);
                    }
                }
            }
        }
    }
}

} // verus!
