use vstd::prelude::*;

verus! {

/// `p` is a prefix of `w` (`w` itself included).
pub open spec fn is_prefix(p: Seq<char>, w: Seq<char>) -> bool {
    p.len() <= w.len() && w.subrange(0, p.len() as int) == p
}

/// Some word of `words` starts with `p`.
pub open spec fn has_extension(words: Set<Seq<char>>, p: Seq<char>) -> bool {
    exists|w: Seq<char>| #[trigger] words.contains(w) && is_prefix(p, w)
}

/// One node of the prefix tree: its outgoing edges and its end-of-word flag.
pub struct TrieNode {
    children: Vec<(char, usize)>,
    is_end: bool,
}

/// A prefix tree over a set of words, stored as an arena of nodes; node 0 is
/// the root. Each node stands for the prefix spelled by the edges from the root.
pub struct Trie {
    nodes: Vec<TrieNode>,
    /// The words inserted so far.
    words: Ghost<Set<Seq<char>>>,
    /// The prefix that each node stands for.
    pre: Ghost<Seq<Seq<char>>>,
    /// The node that stands for each prefix present in the tree.
    idx: Ghost<Map<Seq<char>, int>>,
    /// For each node but the root: its parent and the slot of the edge to it.
    par: Ghost<Seq<(int, int)>>,
    /// For each node but the root: a word that runs through it.
    wit: Ghost<Seq<Seq<char>>>,
}

impl View for Trie {
    type V = Set<Seq<char>>;

    closed spec fn view(&self) -> Set<Seq<char>> {
        self.words@
    }
}

impl Trie {
    pub closed spec fn child(&self, i: int, k: int) -> (char, usize) {
        self.nodes@[i].children@[k]
    }

    /// The tree's structure: prefixes are unique per node, edges extend the
    /// parent's prefix by their character, and every node but the root hangs
    /// under its parent.
    pub closed spec fn shape(&self) -> bool {
        let n = self.nodes@.len();
        &&& n >= 1
        &&& self.pre@.len() == n
        &&& self.par@.len() == n
        &&& self.wit@.len() == n
        &&& self.pre@[0] == Seq::<char>::empty()
        &&& forall|i: int|
            0 <= i < n ==> self.idx@.contains_key(#[trigger] self.pre@[i]) && self.idx@[self.pre@[i]]
                == i
        &&& forall|p: Seq<char>|
            #[trigger] self.idx@.contains_key(p) ==> 0 <= self.idx@[p] < n && self.pre@[self.idx@[p]]
                == p
        &&& forall|i: int, k: int|
            0 <= i < n && 0 <= k < self.nodes@[i].children@.len() ==> {
                let (c, j) = #[trigger] self.child(i, k);
                &&& j < n
                &&& self.pre@[j as int] == self.pre@[i].push(c)
            }
        &&& forall|j: int|
            0 < j < n ==> {
                let (i, k) = #[trigger] self.par@[j];
                &&& 0 <= i < n
                &&& 0 <= k < self.nodes@[i].children@.len()
                &&& self.child(i, k).1 == j
            }
    }

    /// The tree's contents: it holds exactly the prefixes of `words`, and the
    /// end-of-word flags mark exactly `words`.
    pub closed spec fn holds(&self, words: Set<Seq<char>>, wits: Set<Seq<char>>) -> bool {
        let n = self.nodes@.len();
        &&& forall|j: int|
            0 < j < n ==> #[trigger] wits.contains(self.wit@[j]) && is_prefix(
                self.pre@[j],
                self.wit@[j],
            )
        &&& forall|w: Seq<char>, k: int|
            words.contains(w) && 0 <= k <= w.len() ==> #[trigger] self.idx@.contains_key(
                w.subrange(0, k),
            )
        &&& forall|i: int|
            0 <= i < n ==> (#[trigger] self.nodes@[i].is_end == words.contains(self.pre@[i]))
    }

    pub closed spec fn wf(&self) -> bool {
        self.shape() && self.holds(self.words@, self.words@)
    }

    proof fn lemma_no_edge(&self, i: int, c: char)
        requires
            self.shape(),
            0 <= i < self.nodes@.len(),
            forall|k: int| 0 <= k < self.nodes@[i].children@.len() ==> #[trigger] self.child(i, k).0 != c,
        ensures
            !self.idx@.contains_key(self.pre@[i].push(c)),
    {
        let p = self.pre@[i].push(c);
        if self.idx@.contains_key(p) {
            let j = self.idx@[p];
            assert(self.pre@[j] == p);
            assert(j != 0) by {
                assert(self.pre@[0].len() == 0);
            }
            let (pi, k) = self.par@[j];
            let (c2, j2) = self.child(pi, k);
            assert(self.pre@[j] == self.pre@[pi].push(c2));
            assert(self.pre@[pi] =~= p.drop_last());
            assert(self.pre@[i] =~= p.drop_last());
            assert(self.idx@[self.pre@[i]] == i);
            assert(self.idx@[self.pre@[pi]] == pi);
            assert(c2 == p.last());
        }
    }

    /// Looks for the edge labelled `c` out of `node`.
    fn find_child(&self, node: usize, c: char) -> (r: Option<usize>)
        requires
            self.shape(),
            node < self.nodes@.len(),
        ensures
            match r {
                Some(j) => j < self.nodes@.len() && self.pre@[j as int] == self.pre@[node as int].push(
                    c,
                ),
                None => !self.idx@.contains_key(self.pre@[node as int].push(c)),
            },
    {
        let children = &self.nodes[node].children;
        let mut k: usize = 0;
        while k < children.len()
            invariant
                self.shape(),
                node < self.nodes@.len(),
                children == &self.nodes@[node as int].children,
                0 <= k <= children@.len(),
                forall|m: int| 0 <= m < k ==> #[trigger] self.child(node as int, m).0 != c,
            decreases children@.len() - k,
        {
            let (d, j) = children[k];
            assert(self.child(node as int, k as int) == (d, j));
            if d == c {
                return Some(j);
            }
            k = k + 1;
        }
        proof {
            self.lemma_no_edge(node as int, c);
        }
        None
    }

    /// Follows `s` from the root: the node that stands for `s`, if any.
    fn walk(&self, s: &str) -> (r: Option<usize>)
        requires
            self.wf(),
        ensures
            match r {
                Some(j) => j < self.nodes@.len() && self.pre@[j as int] == s@,
                None => !has_extension(self@, s@),
            },
    {
        let len = s.unicode_len();
        let mut node: usize = 0;
        let mut k: usize = 0;
        while k < len
            invariant
                self.wf(),
                len == s@.len(),
                0 <= k <= len,
                node < self.nodes@.len(),
                self.pre@[node as int] == s@.subrange(0, k as int),
            decreases len - k,
        {
            let c = s.get_char(k);
            match self.find_child(node, c) {
                Some(j) => {
                    assert(s@.subrange(0, k + 1) =~= s@.subrange(0, k as int).push(c));
                    node = j;
                },
                None => {
                    proof {
                        let p = s@.subrange(0, k + 1);
                        assert(p =~= s@.subrange(0, k as int).push(c));
                        assert forall|w: Seq<char>| #[trigger]
                            self@.contains(w) implies !is_prefix(s@, w) by {
                            if is_prefix(s@, w) {
                                assert(w.subrange(0, k + 1) =~= p);
                                assert(self.idx@.contains_key(w.subrange(0, k + 1)));
                            }
                        }
                    }
                    return None;
                },
            }
            k = k + 1;
        }
        assert(s@.subrange(0, len as int) =~= s@);
        Some(node)
    }

    /// An empty tree.
    pub fn new() -> (r: Trie)
        ensures
            r.wf(),
            r@ == Set::<Seq<char>>::empty(),
    {
        let mut nodes: Vec<TrieNode> = Vec::new();
        nodes.push(TrieNode { children: Vec::new(), is_end: false });
        let ghost e = Seq::<char>::empty();
        let ghost pre = seq![e];
        let ghost idx = map![e => 0int];
        let ghost par = seq![(0int, 0int)];
        let t = Trie {
            nodes,
            words: Ghost(Set::empty()),
            pre: Ghost(pre),
            idx: Ghost(idx),
            par: Ghost(par),
            wit: Ghost(pre),
        };
        assert(t.shape());
        t
    }

    /// Adds `word`; intermediate nodes are created as needed and the last one
    /// is marked as the end of a word.
    pub fn insert(&mut self, word: &str)
        requires
            old(self).wf(),
        ensures
            final(self).wf(),
            final(self)@ == old(self)@.insert(word@),
    {
        let ghost w = word@;
        let ghost words0 = self.words@;
        let ghost wits = words0.insert(w);
        assert forall|jj: int| 0 < jj < self.nodes@.len() implies #[trigger] wits.contains(self.wit@[jj]) && is_prefix(
            self.pre@[jj],
            self.wit@[jj],
        ) by {
            assert(words0.contains(self.wit@[jj]));
        }
        let len = word.unicode_len();
        let mut node: usize = 0;
        let mut k: usize = 0;
        assert(w.subrange(0, 0) =~= Seq::<char>::empty());
        while k < len
            invariant
                self.shape(),
                self.holds(words0, wits),
                wits == words0.insert(w),
                self.words@ == words0,
                w == word@,
                len == w.len(),
                0 <= k <= len,
                node < self.nodes@.len(),
                self.pre@[node as int] == w.subrange(0, k as int),
                forall|m: int| 0 <= m <= k ==> #[trigger] self.idx@.contains_key(w.subrange(0, m)),
            decreases len - k,
        {
            let c = word.get_char(k);
            let ghost p = w.subrange(0, k + 1);
            assert(p =~= w.subrange(0, k as int).push(c));
            match self.find_child(node, c) {
                Some(j) => {
                    node = j;
                },
                None => {
                    let ghost old_self = *self;
                    let new_id = self.nodes.len();
                    let ghost slot = self.nodes@[node as int].children@.len() as int;
                    self.nodes.push(TrieNode { children: Vec::new(), is_end: false });
                    self.nodes[node].children.push((c, new_id));
                    self.pre = Ghost(self.pre@.push(p));
                    self.idx = Ghost(self.idx@.insert(p, new_id as int));
                    self.par = Ghost(self.par@.push((node as int, slot)));
                    self.wit = Ghost(self.wit@.push(w));
                    proof {
                        let n = self.nodes@.len();
                        assert forall|i: int, kk: int|
                            0 <= i < n && 0 <= kk < self.nodes@[i].children@.len() implies {
                            let (c1, j1) = #[trigger] self.child(i, kk);
                            &&& j1 < n
                            &&& self.pre@[j1 as int] == self.pre@[i].push(c1)
                        } by {
                            if i < n - 1 && !(i == node && kk == slot) {
                                assert(self.child(i, kk) == old_self.child(i, kk));
                            }
                        }
                        assert forall|jj: int| 0 < jj < n implies {
                            let (i, kk) = #[trigger] self.par@[jj];
                            &&& 0 <= i < n
                            &&& 0 <= kk < self.nodes@[i].children@.len()
                            &&& self.child(i, kk).1 == jj
                        } by {
                            if jj < n - 1 {
                                let (i, kk) = old_self.par@[jj];
                                assert(self.child(i, kk) == old_self.child(i, kk));
                            }
                        }
                        assert forall|q: Seq<char>| #[trigger] self.idx@.contains_key(q) implies 0
                            <= self.idx@[q] < n && self.pre@[self.idx@[q]] == q by {
                            if q != p {
                                assert(old_self.idx@.contains_key(q));
                            }
                        }
                        assert forall|i: int| 0 <= i < n implies self.idx@.contains_key(
                            #[trigger] self.pre@[i],
                        ) && self.idx@[self.pre@[i]] == i by {
                            if i < n - 1 {
                                assert(old_self.pre@[i] == self.pre@[i]);
                                assert(old_self.idx@.contains_key(old_self.pre@[i]));
                            }
                        }
                        assert(self.shape());
                        assert forall|i: int| 0 <= i < n implies (#[trigger] self.nodes@[i].is_end
                            == words0.contains(self.pre@[i])) by {
                            if i < n - 1 {
                                assert(old_self.nodes@[i].is_end == self.nodes@[i].is_end);
                            } else {
                                if words0.contains(p) {
                                    assert(p.subrange(0, p.len() as int) =~= p);
                                    assert(old_self.idx@.contains_key(p.subrange(0, p.len() as int)));
                                }
                            }
                        }
                        assert forall|ww: Seq<char>, m: int|
                            words0.contains(ww) && 0 <= m <= ww.len() implies #[trigger] self.idx@.contains_key(
                            ww.subrange(0, m)) by {
                            assert(old_self.idx@.contains_key(ww.subrange(0, m)));
                        }
                        assert forall|jj: int| 0 < jj < n implies #[trigger] wits.contains(self.wit@[jj]) && is_prefix(
                            self.pre@[jj],
                            self.wit@[jj],
                        ) by {
                            if jj == n - 1 {
                                assert(w.subrange(0, p.len() as int) =~= p);
                            }
                        }
                    }
                    node = new_id;
                },
            }
            k = k + 1;
        }
        assert(w.subrange(0, len as int) =~= w);
        let ghost old_self = *self;
        self.nodes[node].is_end = true;
        self.words = Ghost(words0.insert(w));
        proof {
            let n = self.nodes@.len();
            assert forall|i: int, kk: int|
                0 <= i < n && 0 <= kk < self.nodes@[i].children@.len() implies {
                let (c1, j1) = #[trigger] self.child(i, kk);
                &&& j1 < n
                &&& self.pre@[j1 as int] == self.pre@[i].push(c1)
            } by {
                assert(self.child(i, kk) == old_self.child(i, kk));
            }
            assert forall|jj: int| 0 < jj < n implies {
                let (i, kk) = #[trigger] self.par@[jj];
                &&& 0 <= i < n
                &&& 0 <= kk < self.nodes@[i].children@.len()
                &&& self.child(i, kk).1 == jj
            } by {
                let (i, kk) = old_self.par@[jj];
                assert(self.child(i, kk) == old_self.child(i, kk));
            }
            assert forall|i: int| 0 <= i < n implies (#[trigger] self.nodes@[i].is_end
                == self.words@.contains(self.pre@[i])) by {
                if i != node {
                    assert(self.idx@[self.pre@[i]] == i);
                }
            }
            assert forall|ww: Seq<char>, m: int|
                self.words@.contains(ww) && 0 <= m <= ww.len() implies #[trigger] self.idx@.contains_key(
                ww.subrange(0, m)) by {
            }
            assert(self.shape());
        }
    }

    /// Whether `word` is one of the inserted words.
    pub fn is_word(&self, word: &str) -> (r: bool)
        requires
            self.wf(),
        ensures
            r == self@.contains(word@),
    {
        match self.walk(word) {
            Some(j) => self.nodes[j].is_end,
            None => {
                assert(is_prefix(word@, word@)) by {
                    assert(word@.subrange(0, word@.len() as int) =~= word@);
                }
                false
            },
        }
    }

    /// Whether some inserted word starts with `prefix` (the word itself
    /// included); for the empty string, whether the tree holds any word.
    pub fn is_prefix_or_word(&self, prefix: &str) -> (r: bool)
        requires
            self.wf(),
        ensures
            r == has_extension(self@, prefix@),
    {
        match self.walk(prefix) {
            Some(j) => {
                if j != 0 {
                    assert(self@.contains(self.wit@[j as int]));
                    true
                } else {
                    let r = self.nodes[0].is_end || self.nodes[0].children.len() > 0;
                    proof {
                        if self.nodes@[0].is_end {
                            assert(self@.contains(prefix@));
                            assert(prefix@.subrange(0, prefix@.len() as int) =~= prefix@);
                        }
                        if self.nodes@[0].children@.len() > 0 {
                            let (c, j1) = self.child(0, 0);
                            assert(self.pre@[j1 as int].len() == 1);
                            assert(self@.contains(self.wit@[j1 as int]));
                            assert(prefix@.len() == 0);
                            assert(self.wit@[j1 as int].subrange(0, 0) =~= prefix@);
                        }
                        if has_extension(self@, prefix@) && !self.nodes@[0].is_end {
                            let w = choose|w: Seq<char>| #[trigger] self@.contains(w) && is_prefix(prefix@, w);
                            if w.len() == 0 {
                                assert(w =~= self.pre@[0]);
                            } else {
                                assert(self.idx@.contains_key(w.subrange(0, 1)));
                                let j1 = self.idx@[w.subrange(0, 1)];
                                assert(self.pre@[j1].len() == 1);
                                let (pi, kk) = self.par@[j1];
                                let (c2, j2) = self.child(pi, kk);
                                assert(self.pre@[pi] =~= Seq::<char>::empty());
                                assert(self.idx@[self.pre@[pi]] == pi);
                                assert(self.idx@[self.pre@[0]] == 0);
                            }
                        }
                    }
                    r
                }
            },
            None => false,
        }
    }
}


/// Inserting a word twice gives the same tree contents as inserting it once:
/// if `once` is `start` after `insert(w)` and `twice` is `once` after
/// `insert(w)`, both hold the same words, so `is_word` and
/// `is_prefix_or_word` answer alike on them.
pub proof fn lemma_insert_twice(start: Trie, once: Trie, twice: Trie, w: Seq<char>)
    requires
        once@ == start@.insert(w),
        twice@ == once@.insert(w),
    ensures
        twice@ == once@,
        forall|s: Seq<char>| twice@.contains(s) == once@.contains(s),
        forall|s: Seq<char>| has_extension(twice@, s) == has_extension(once@, s),
{
    assert(twice@ =~= once@);
}

} // verus!
