//! A tree of word sequences that answers whether a stored sequence is a
//! prefix of a given one, as in matching `com.example.api` and everything
//! below it.
//!
//! A node keeps its keys and its children in two vectors, side by side, and
//! finds a key by going through them: what is proved here rests on knowing
//! when two keys are the same text, which a vector of strings tells and a
//! table hashed by strings does not.

use vstd::prelude::*;

verus! {

/// A node of the tree. The root stands for the empty sequence; every other
/// node stands for the sequence of words on the path that leads to it.
pub struct WordTreeNode {
    is_leaf: bool,
    keys: Vec<String>,
    nodes: Vec<WordTreeNode>,
}

/// The words of a slice, as plain character sequences.
pub open spec fn words_view(words: Seq<&str>) -> Seq<Seq<char>> {
    Seq::new(words.len(), |i: int| words[i]@)
}

impl WordTreeNode {
    /// Every node has one child per key, and no key twice.
    pub closed spec fn wf(&self) -> bool
        decreases self,
    {
        &&& self.keys.len() == self.nodes.len()
        &&& forall|i: int, j: int|
            0 <= i < j < self.keys.len() ==> (#[trigger] self.keys[i])@ != (#[trigger] self.keys[j])@
        &&& forall|i: int| 0 <= i < self.nodes.len() ==> (#[trigger] self.nodes[i]).wf()
    }

    /// Whether the node itself ends a stored sequence.
    pub closed spec fn is_marked(&self) -> bool {
        self.is_leaf
    }

    /// The position of the child under `key`, if there is one.
    pub closed spec fn position(&self, key: Seq<char>) -> Option<int> {
        if exists|i: int| 0 <= i < self.keys.len() && (#[trigger] self.keys[i])@ == key {
            Some(choose|i: int| 0 <= i < self.keys.len() && (#[trigger] self.keys[i])@ == key)
        } else {
            None
        }
    }

    /// Whether `path` was stored below this node: it is not empty, and the
    /// node that it leads to is marked.
    pub closed spec fn has_entry(&self, path: Seq<Seq<char>>) -> bool
        decreases path.len(),
    {
        if path.len() == 0 {
            false
        } else {
            match self.position(path[0]) {
                None => false,
                Some(i) => if 0 <= i < self.nodes.len() {
                    if path.len() == 1 {
                        self.nodes[i].is_leaf
                    } else {
                        self.nodes[i].has_entry(path.drop_first())
                    }
                } else {
                    false
                },
            }
        }
    }

    /// The sequences stored below this node.
    pub open spec fn entries(&self) -> Set<Seq<Seq<char>>> {
        Set::new(|path: Seq<Seq<char>>| self.has_entry(path))
    }

    /// Whether a stored sequence is a prefix of `words`.
    pub open spec fn covers(&self, words: Seq<Seq<char>>) -> bool {
        exists|k: int| 1 <= k <= words.len() && self.has_entry(#[trigger] words.take(k))
    }

    /// What is covered stays covered however it goes on.
    pub proof fn law_covers_extension(&self, words: Seq<Seq<char>>, more: Seq<Seq<char>>)
        requires
            self.covers(words),
        ensures
            self.covers(words + more),
    {
        let k = choose|k: int| 1 <= k <= words.len() && self.has_entry(#[trigger] words.take(k));
        assert((words + more).take(k) =~= words.take(k));
    }

    /// A sequence is covered exactly when one of its prefixes, itself
    /// included, is stored; the empty sequence never is.
    pub proof fn law_covers_entries(&self, words: Seq<Seq<char>>)
        ensures
            self.covers(words) <==> exists|k: int|
                1 <= k <= words.len() && self.entries().contains(#[trigger] words.take(k)),
            !self.covers(Seq::<Seq<char>>::empty()),
            !self.entries().contains(Seq::<Seq<char>>::empty()),
    {
        if self.covers(words) {
            let k = choose|k: int| 1 <= k <= words.len() && self.has_entry(#[trigger] words.take(k));
            assert(self.entries().contains(words.take(k)));
        }
    }

    /// The child under a key is the one at the position where the key stands.
    proof fn lemma_position(&self, key: Seq<char>, i: int)
        requires
            self.wf(),
            0 <= i < self.keys.len(),
            self.keys[i]@ == key,
        ensures
            self.position(key) == Some(i),
    {
        let j = choose|j: int| 0 <= j < self.keys.len() && (#[trigger] self.keys[j])@ == key;
        if i < j {
            assert(self.keys[i]@ != self.keys[j]@);
        } else if j < i {
            assert(self.keys[j]@ != self.keys[i]@);
        }
    }

    /// A path whose first word is a key goes on in the child under that key.
    proof fn lemma_entry_below(&self, path: Seq<Seq<char>>, i: int)
        requires
            self.wf(),
            path.len() > 0,
            0 <= i < self.keys.len(),
            self.keys[i]@ == path[0],
        ensures
            self.has_entry(path) == if path.len() == 1 {
                self.nodes[i].is_leaf
            } else {
                self.nodes[i].has_entry(path.drop_first())
            },
    {
        self.lemma_position(path[0], i);
    }

    /// No path is stored whose first word is not a key.
    proof fn lemma_entry_nowhere(&self, path: Seq<Seq<char>>)
        requires
            path.len() > 0 ==> forall|i: int|
                0 <= i < self.keys.len() ==> (#[trigger] self.keys[i])@ != path[0],
        ensures
            !self.has_entry(path),
    {
    }

    /// Below a marked child, every sequence that starts with its key is
    /// covered; below an unmarked one, the rest of the sequence decides.
    proof fn lemma_covers_below(&self, words: Seq<Seq<char>>, i: int)
        requires
            self.wf(),
            words.len() > 0,
            0 <= i < self.keys.len(),
            self.keys[i]@ == words[0],
        ensures
            self.covers(words) == (self.nodes[i].is_leaf || self.nodes[i].covers(
                words.drop_first(),
            )),
    {
        let rest = words.drop_first();
        let child = self.nodes[i];
        if self.covers(words) {
            let k = choose|k: int| 1 <= k <= words.len() && self.has_entry(#[trigger] words.take(k));
            self.lemma_entry_below(words.take(k), i);
            if k > 1 {
                assert(words.take(k).drop_first() =~= rest.take(k - 1));
                assert(child.has_entry(rest.take(k - 1)));
            }
        }
        if child.is_leaf {
            self.lemma_entry_below(words.take(1), i);
            assert(self.has_entry(words.take(1)));
        }
        if child.covers(rest) {
            let k = choose|k: int| 1 <= k <= rest.len() && child.has_entry(#[trigger] rest.take(k));
            assert(words.take(k + 1).drop_first() =~= rest.take(k));
            self.lemma_entry_below(words.take(k + 1), i);
            assert(self.has_entry(words.take(k + 1)));
        }
    }

    /// Nothing that starts with a word that is not a key is covered.
    proof fn lemma_covers_nowhere(&self, words: Seq<Seq<char>>)
        requires
            words.len() > 0 ==> forall|i: int|
                0 <= i < self.keys.len() ==> (#[trigger] self.keys[i])@ != words[0],
        ensures
            !self.covers(words),
    {
        if self.covers(words) {
            let k = choose|k: int| 1 <= k <= words.len() && self.has_entry(#[trigger] words.take(k));
            self.lemma_entry_nowhere(words.take(k));
        }
    }

    /// The position of the child under `word`, if there is one.
    fn find(&self, word: &str) -> (found: Option<usize>)
        requires
            self.wf(),
        ensures
            match found {
                Some(i) => i < self.keys.len() && self.keys[i as int]@ == word@,
                None => forall|i: int|
                    0 <= i < self.keys.len() ==> (#[trigger] self.keys[i])@ != word@,
            },
    {
        let key = word.to_owned();
        let mut i: usize = 0;
        while i < self.keys.len()
            invariant
                i <= self.keys.len(),
                key@ == word@,
                forall|k: int| 0 <= k < i ==> (#[trigger] self.keys[k])@ != word@,
            decreases self.keys.len() - i,
        {
            if self.keys[i] == key {
                return Some(i);
            }
            i = i + 1;
        }
        None
    }

    /// Whether one of the stored sequences is a prefix of `words`. The empty
    /// sequence is never stored, so nothing is a prefix of no words.
    pub fn contains(&self, words: &[&str]) -> (res: bool)
        requires
            self.wf(),
        ensures
            res == self.covers(words_view(words@)),
    {
        let ghost all = words_view(words@);
        if words.len() == 0 {
            return false;
        }
        let mut node = self;
        let mut i: usize = 0;
        assert(all.skip(0) =~= all);
        while i < words.len()
            invariant
                i <= words.len(),
                all == words_view(words@),
                node.wf(),
                self.covers(all) == node.covers(all.skip(i as int)),
            decreases words.len() - i,
        {
            let ghost rest = all.skip(i as int);
            assert(rest[0] == words[i as int]@);
            match node.find(words[i]) {
                None => {
                    proof {
                        node.lemma_covers_nowhere(rest);
                    }
                    return false;
                },
                Some(j) => {
                    proof {
                        node.lemma_covers_below(rest, j as int);
                        assert(rest.drop_first() =~= all.skip(i + 1));
                    }
                    if node.nodes[j].is_leaf {
                        return true;
                    }
                    node = &node.nodes[j];
                },
            }
            i = i + 1;
        }
        false
    }

    /// Stores the words from position `from` on below this node, unless a
    /// sequence stored here is a prefix of them already.
    fn insert_from(&mut self, words: &[&str], from: usize)
        requires
            old(self).wf(),
            from < words.len(),
        ensures
            final(self).wf(),
            final(self).is_leaf == old(self).is_leaf,
            forall|path: Seq<Seq<char>>|
                final(self).has_entry(path) == (old(self).has_entry(path) || (path == words_view(
                    words@,
                ).skip(from as int) && !old(self).covers(path))),
        decreases words.len() - from,
    {
        let ghost before = *self;
        let ghost suffix = words_view(words@).skip(from as int);
        let ghost rest = words_view(words@).skip(from + 1);
        let word = words[from];
        let last = from + 1 == words.len();
        proof {
            assert(suffix[0] == word@);
            assert(suffix.drop_first() =~= rest);
            assert(last ==> suffix.len() == 1);
        }
        match self.find(word) {
            None => {
                let mut node = WordTreeNode::default();
                let ghost fresh = node;
                if last {
                    node.is_leaf = true;
                } else {
                    node.insert_from(words, from + 1);
                }
                self.keys.push(word.to_owned());
                self.nodes.push(node);
                proof {
                    let i = before.keys.len() as int;
                    assert(self.wf()) by {
                        assert forall|a: int, b: int| 0 <= a < b < self.keys.len() implies (
                        #[trigger] self.keys[a])@ != (#[trigger] self.keys[b])@ by {
                            if b < i {
                                assert(before.keys[a]@ != before.keys[b]@);
                            } else {
                                assert(before.keys[a]@ != word@);
                            }
                        }
                        assert forall|a: int| 0 <= a < self.nodes.len() implies (
                        #[trigger] self.nodes[a]).wf() by {
                            if a < i {
                                assert(before.nodes[a].wf());
                            }
                        }
                    }
                    before.lemma_covers_nowhere(suffix);
                    assert forall|path: Seq<Seq<char>>| !fresh.has_entry(path) by {
                        assert(!fresh.entries().contains(path));
                    }
                    assert forall|path: Seq<Seq<char>>|
                        self.has_entry(path) == (before.has_entry(path) || (path == suffix
                            && !before.covers(path))) by {
                        if path.len() == 0 {
                        } else if path[0] == word@ {
                            before.lemma_entry_nowhere(path);
                            self.lemma_entry_below(path, i);
                            assert(!fresh.covers(path.drop_first()));
                            if path.len() == 1 {
                                if last {
                                    assert(path =~= suffix);
                                }
                            } else if last {
                                lemma_same_entries(self.nodes[i], fresh, path.drop_first());
                            } else {
                                if path.drop_first() == rest {
                                    lemma_same_tail(path, suffix);
                                }
                            }
                        } else {
                            if exists|a: int|
                                0 <= a < before.keys.len() && (#[trigger] before.keys[a])@
                                    == path[0] {
                                let a = choose|a: int|
                                    0 <= a < before.keys.len() && (#[trigger] before.keys[a])@
                                        == path[0];
                                assert(self.keys[a] == before.keys[a]);
                                before.lemma_entry_below(path, a);
                                self.lemma_entry_below(path, a);
                            } else {
                                before.lemma_entry_nowhere(path);
                                assert forall|a: int| 0 <= a < self.keys.len() implies (
                                #[trigger] self.keys[a])@ != path[0] by {
                                    if a < i {
                                        assert(before.keys[a]@ != path[0]);
                                    }
                                }
                                self.lemma_entry_nowhere(path);
                            }
                        }
                    }
                }
            },
            Some(i) => {
                proof {
                    before.lemma_covers_below(suffix, i as int);
                    assert(before.nodes[i as int].wf());
                }
                if self.nodes[i].is_leaf {
                    return ;
                }
                let ghost child = self.nodes[i as int];
                if last {
                    self.nodes[i].is_leaf = true;
                } else {
                    self.nodes[i].insert_from(words, from + 1);
                }
                proof {
                    assert(self.keys == before.keys);
                    assert(self.wf()) by {
                        assert forall|a: int, b: int| 0 <= a < b < self.keys.len() implies (
                        #[trigger] self.keys[a])@ != (#[trigger] self.keys[b])@ by {
                            assert(before.keys[a]@ != before.keys[b]@);
                        }
                        assert forall|a: int| 0 <= a < self.nodes.len() implies (
                        #[trigger] self.nodes[a]).wf() by {
                            if a != i {
                                assert(self.nodes[a] == before.nodes[a]);
                                assert(before.nodes[a].wf());
                            } else if last {
                                assert(self.nodes[a].keys == child.keys);
                                assert(self.nodes[a].nodes == child.nodes);
                            }
                        }
                    }
                    if last {
                        child.lemma_covers_nowhere(rest);
                    }
                    assert forall|path: Seq<Seq<char>>|
                        self.has_entry(path) == (before.has_entry(path) || (path == suffix
                            && !before.covers(path))) by {
                        if path.len() == 0 {
                        } else if path[0] == word@ {
                            before.lemma_entry_below(path, i as int);
                            self.lemma_entry_below(path, i as int);
                            if path.len() == 1 {
                                if last {
                                    assert(path =~= suffix);
                                }
                            } else if last {
                                assert(self.nodes[i as int].has_entry(path.drop_first())
                                    == child.has_entry(path.drop_first())) by {
                                    lemma_same_entries(self.nodes[i as int], child, path.drop_first());
                                }
                            } else {
                                if path.drop_first() == rest {
                                    lemma_same_tail(path, suffix);
                                }
                            }
                        } else {
                            if exists|a: int|
                                0 <= a < before.keys.len() && (#[trigger] before.keys[a])@
                                    == path[0] {
                                let a = choose|a: int|
                                    0 <= a < before.keys.len() && (#[trigger] before.keys[a])@
                                        == path[0];
                                assert(a != i);
                                assert(self.nodes[a] == before.nodes[a]);
                                before.lemma_entry_below(path, a);
                                self.lemma_entry_below(path, a);
                            } else {
                                before.lemma_entry_nowhere(path);
                                self.lemma_entry_nowhere(path);
                            }
                        }
                    }
                }
            },
        }
    }

    /// Stores `words`, unless they are empty or a stored sequence is a prefix
    /// of them already.
    pub fn insert(&mut self, words: Vec<&str>)
        requires
            old(self).wf(),
        ensures
            final(self).wf(),
            final(self).entries() == if words@.len() == 0 || old(self).covers(words_view(words@)) {
                old(self).entries()
            } else {
                old(self).entries().insert(words_view(words@))
            },
            words@.len() > 0 ==> final(self).covers(words_view(words@)),
    {
        if words.len() == 0 {
            return ;
        }
        let slice = words.as_slice();
        assert(slice@ == words@);
        self.insert_from(slice, 0);
        proof {
            let all = words_view(words@);
            assert(all.skip(0) =~= all);
            if old(self).covers(all) {
                assert(self.entries() =~= old(self).entries());
                let k = choose|k: int|
                    1 <= k <= all.len() && old(self).has_entry(#[trigger] all.take(k));
                assert(self.has_entry(all.take(k)));
            } else {
                assert(self.entries() =~= old(self).entries().insert(all));
                assert(all.take(all.len() as int) =~= all);
                assert(self.has_entry(all.take(all.len() as int)));
            }
        }
    }
}

/// Two sequences with the same first element and the same rest are the same.
proof fn lemma_same_tail<A>(a: Seq<A>, b: Seq<A>)
    requires
        a.len() > 0,
        b.len() > 0,
        a[0] == b[0],
        a.drop_first() == b.drop_first(),
    ensures
        a == b,
{
    assert(a.len() == b.len()) by {
        assert(a.drop_first().len() == a.len() - 1);
        assert(b.drop_first().len() == b.len() - 1);
    }
    assert forall|k: int| 0 <= k < a.len() implies a[k] == b[k] by {
        if k > 0 {
            assert(a[k] == a.drop_first()[k - 1]);
            assert(b[k] == b.drop_first()[k - 1]);
        }
    }
    assert(a =~= b);
}

/// What is stored below a node does not depend on whether the node itself is
/// marked.
proof fn lemma_same_entries(a: WordTreeNode, b: WordTreeNode, path: Seq<Seq<char>>)
    requires
        a.keys == b.keys,
        a.nodes == b.nodes,
    ensures
        a.has_entry(path) == b.has_entry(path),
{
    assert(a.position(path[0]) == b.position(path[0]));
}

impl Default for WordTreeNode {
    /// A tree in which nothing is stored.
    fn default() -> (node: Self)
        ensures
            node.wf(),
            node.entries() == Set::<Seq<Seq<char>>>::empty(),
            !node.is_marked(),
    {
        let node = WordTreeNode { is_leaf: false, keys: Vec::new(), nodes: Vec::new() };
        proof {
            assert forall|path: Seq<Seq<char>>| !node.has_entry(path) by {
                node.lemma_entry_nowhere(path);
            }
            assert(node.entries() =~= Set::<Seq<Seq<char>>>::empty());
        }
        node
    }
}

} // verus!
