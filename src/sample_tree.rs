//! A prefix tree of sample weights keyed by path components.
use vstd::prelude::*;

verus! {

broadcast use vstd::std_specs::vec::axiom_vec_index_decreases;

/// A named subtree of a `SampleTree`.
pub struct Child {
    pub name: String,
    pub node: SampleTree,
}

/// A prefix tree of weights: each node's `total` is the weight of the samples
/// whose path passes through it.
pub struct SampleTree {
    total: u64,
    children: Vec<Child>,
}

/// The components of a path as sequences of characters.
pub open spec fn path_view(p: Seq<String>) -> Seq<Seq<char>> {
    Seq::new(p.len(), |i: int| p[i]@)
}

/// Whether `q` is a prefix of `p`.
pub open spec fn is_prefix(q: Seq<Seq<char>>, p: Seq<Seq<char>>) -> bool {
    q.len() <= p.len() && p.take(q.len() as int) == q
}

impl SampleTree {
    pub closed spec fn spec_total(self) -> u64 {
        self.total
    }

    pub closed spec fn spec_len(self) -> nat {
        self.children@.len()
    }

    pub closed spec fn has_key(self, k: Seq<char>) -> bool {
        exists|i: int| 0 <= i < self.children@.len() && self.children@[i].name@ == k
    }

    /// The subtree under the component `k`, if there is one.
    pub closed spec fn child(self, k: Seq<char>) -> Option<SampleTree> {
        if self.has_key(k) {
            Some(
                self.children@[choose|i: int|
                    0 <= i < self.children@.len() && self.children@[i].name@ == k].node,
            )
        } else {
            None
        }
    }

    /// The weight recorded at the node that `q` leads to, or 0 where there is none.
    pub closed spec fn at(self, q: Seq<Seq<char>>) -> nat
        decreases q.len(),
    {
        if q.len() == 0 {
            self.total as nat
        } else {
            match self.child(q[0]) {
                Some(c) => c.at(q.drop_first()),
                None => 0,
            }
        }
    }

    /// Whether the tree has a node at `q`.
    pub closed spec fn reaches(self, q: Seq<Seq<char>>) -> bool
        decreases q.len(),
    {
        if q.len() == 0 {
            true
        } else {
            match self.child(q[0]) {
                Some(c) => c.reaches(q.drop_first()),
                None => false,
            }
        }
    }

    /// Whether `sub` empties a node on the way from the root to `q`: a node
    /// that `other` reaches and that holds no more weight than in `other`.
    pub open spec fn pruned(s: SampleTree, other: SampleTree, q: Seq<Seq<char>>) -> bool {
        exists|n: int|
            0 <= n <= q.len() && #[trigger] other.reaches(q.take(n)) && s.at(q.take(n)) <= other.at(q.take(n))
    }

    /// Whether `sub` empties a node strictly above `q` on its way from the root.
    pub open spec fn pruned_above(s: SampleTree, other: SampleTree, q: Seq<Seq<char>>) -> bool {
        exists|n: int|
            0 <= n < q.len() && #[trigger] other.reaches(q.take(n)) && s.at(q.take(n)) <= other.at(q.take(n))
    }

    pub closed spec fn unique_names(self) -> bool {
        forall|i: int, j: int|
            0 <= i < self.children@.len() && 0 <= j < self.children@.len() && i != j
                ==> self.children@[i].name@ != self.children@[j].name@
    }

    /// Well-formed: the children of every node have distinct names.
    pub closed spec fn wf(self) -> bool
        decreases self,
    {
        self.unique_names() && forall|i: int|
            0 <= i < self.children.len() ==> (#[trigger] self.children[i]).node.wf()
    }

    /// No node holds more weight than its parent.
    pub open spec fn monotone(self) -> bool {
        forall|q: Seq<Seq<char>>, c: Seq<char>| #[trigger] self.at(q.push(c)) <= self.at(q)
    }

    proof fn lemma_child_index(self, i: int)
        requires
            self.unique_names(),
            0 <= i < self.children@.len(),
        ensures
            self.child(self.children@[i].name@) == Some(self.children@[i].node),
    {
    }

    /// The weight at `r` below the child named `k`, or 0 where there is none.
    pub closed spec fn child_at(self, k: Seq<char>, r: Seq<Seq<char>>) -> nat {
        match self.child(k) {
            Some(c) => c.at(r),
            None => 0,
        }
    }

    /// Whether the child named `k` exists and reaches `r`.
    pub closed spec fn child_reaches(self, k: Seq<char>, r: Seq<Seq<char>>) -> bool {
        match self.child(k) {
            Some(c) => c.reaches(r),
            None => false,
        }
    }

    proof fn lemma_reaches_cons(self, k: Seq<char>, r: Seq<Seq<char>>)
        ensures
            self.reaches(seq![k] + r) == self.child_reaches(k, r),
    {
        let q = seq![k] + r;
        assert(q.drop_first() =~= r);
        assert(q[0] == k);
    }

    proof fn lemma_take_cons(k: Seq<char>, r: Seq<Seq<char>>, n: int)
        requires
            1 <= n <= r.len() + 1,
        ensures
            (seq![k] + r).take(n) == seq![k] + r.take(n - 1),
    {
        assert((seq![k] + r).take(n) =~= seq![k] + r.take(n - 1));
    }

    proof fn lemma_pruned_cons(s: SampleTree, o: SampleTree, k: Seq<char>, r: Seq<Seq<char>>)
        requires
            s.total > o.total,
        ensures
            Self::pruned(s, o, seq![k] + r) == match o.child(k) {
                None => false,
                Some(v) => match s.child(k) {
                    None => true,
                    Some(c) => Self::pruned(c, v, r),
                },
            },
    {
        let q = seq![k] + r;
        assert(q.take(0) =~= Seq::<Seq<char>>::empty());
        assert forall|n: int| 1 <= n <= q.len() implies
            (#[trigger] o.reaches(q.take(n)) == o.reaches(seq![k] + r.take(n - 1))
            && s.at(q.take(n)) == s.child_at(k, r.take(n - 1))
            && o.at(q.take(n)) == o.child_at(k, r.take(n - 1))) by {
            Self::lemma_take_cons(k, r, n);
            s.lemma_at_cons(k, r.take(n - 1));
            o.lemma_at_cons(k, r.take(n - 1));
        }
        if Self::pruned(s, o, q) {
            let n = choose|n: int|
                0 <= n <= q.len() && #[trigger] o.reaches(q.take(n)) && s.at(q.take(n)) <= o.at(q.take(n));
            assert(n != 0);
            o.lemma_reaches_cons(k, r.take(n - 1));
            match o.child(k) {
                None => {},
                Some(v) => match s.child(k) {
                    None => {},
                    Some(c) => {
                        assert(v.reaches(r.take(n - 1)) && c.at(r.take(n - 1)) <= v.at(r.take(n - 1)));
                    },
                },
            }
        } else {
            match o.child(k) {
                None => {},
                Some(v) => {
                    o.lemma_reaches_cons(k, r.take(0));
                    assert(r.take(0) =~= Seq::<Seq<char>>::empty());
                    assert(o.reaches(q.take(1)));
                    match s.child(k) {
                        None => {
                            assert(s.at(q.take(1)) <= o.at(q.take(1)));
                        },
                        Some(c) => {
                            if Self::pruned(c, v, r) {
                                let m = choose|m: int|
                                    0 <= m <= r.len() && #[trigger] v.reaches(r.take(m)) && c.at(r.take(m)) <= v.at(r.take(m));
                                o.lemma_reaches_cons(k, r.take(m));
                                assert(o.reaches(q.take(m + 1)));
                            }
                        },
                    }
                },
            }
        }
    }

    proof fn lemma_pruned_above_cons(s: SampleTree, o: SampleTree, k: Seq<char>, r: Seq<Seq<char>>)
        requires
            s.total > o.total,
        ensures
            o.child(k).is_none() ==> !Self::pruned_above(s, o, seq![k] + r),
            s.child(k).is_some() && o.child(k).is_some() ==> Self::pruned_above(s, o, seq![k] + r)
                == Self::pruned_above(s.child(k).unwrap(), o.child(k).unwrap(), r),
    {
        let q = seq![k] + r;
        assert(q.take(0) =~= Seq::<Seq<char>>::empty());
        assert forall|n: int| 1 <= n <= q.len() implies
            (#[trigger] o.reaches(q.take(n)) == o.child_reaches(k, r.take(n - 1))
            && s.at(q.take(n)) == s.child_at(k, r.take(n - 1))
            && o.at(q.take(n)) == o.child_at(k, r.take(n - 1))) by {
            Self::lemma_take_cons(k, r, n);
            s.lemma_at_cons(k, r.take(n - 1));
            o.lemma_at_cons(k, r.take(n - 1));
            o.lemma_reaches_cons(k, r.take(n - 1));
        }
        if Self::pruned_above(s, o, q) {
            let n = choose|n: int|
                0 <= n < q.len() && #[trigger] o.reaches(q.take(n)) && s.at(q.take(n)) <= o.at(q.take(n));
            assert(n != 0);
            if s.child(k).is_some() && o.child(k).is_some() {
                let c = s.child(k).unwrap();
                let v = o.child(k).unwrap();
                assert(v.reaches(r.take(n - 1)) && c.at(r.take(n - 1)) <= v.at(r.take(n - 1)));
            }
        } else {
            if s.child(k).is_some() && o.child(k).is_some() {
                let c = s.child(k).unwrap();
                let v = o.child(k).unwrap();
                if Self::pruned_above(c, v, r) {
                    let m = choose|m: int|
                        0 <= m < r.len() && #[trigger] v.reaches(r.take(m)) && c.at(r.take(m)) <= v.at(r.take(m));
                    assert(o.reaches(q.take(m + 1)));
                }
            }
        }
    }

    proof fn lemma_at_cons(self, k: Seq<char>, r: Seq<Seq<char>>)
        ensures
            self.at(seq![k] + r) == self.child_at(k, r),
    {
        let q = seq![k] + r;
        assert(q.drop_first() =~= r);
        assert(q[0] == k);
    }

    proof fn lemma_replace_child(a: SampleTree, b: SampleTree, idx: int)
        requires
            a.unique_names(),
            0 <= idx < a.children@.len(),
            b.children@.len() == a.children@.len(),
            b.children@[idx].name@ == a.children@[idx].name@,
            forall|i: int| 0 <= i < a.children@.len() && i != idx ==> b.children@[i] == a.children@[i],
        ensures
            b.unique_names(),
            b.child(a.children@[idx].name@) == Some(b.children@[idx].node),
            forall|k: Seq<char>| k != a.children@[idx].name@ ==> #[trigger] b.child(k) == a.child(k),
    {
        assert(b.unique_names()) by {
            assert forall|i: int, j: int|
                0 <= i < b.children@.len() && 0 <= j < b.children@.len() && i != j
                implies b.children@[i].name@ != b.children@[j].name@ by {
                if i != idx {
                    assert(b.children@[i] == a.children@[i]);
                }
                if j != idx {
                    assert(b.children@[j] == a.children@[j]);
                }
            }
        }
        b.lemma_child_index(idx);
        assert forall|k: Seq<char>| k != a.children@[idx].name@ implies #[trigger] b.child(k) == a.child(k) by {
            if a.has_key(k) {
                let j = choose|j: int| 0 <= j < a.children@.len() && a.children@[j].name@ == k;
                a.lemma_child_index(j);
                assert(b.children@[j] == a.children@[j]);
                b.lemma_child_index(j);
            } else {
                assert forall|j: int| 0 <= j < b.children@.len() implies b.children@[j].name@ != k by {
                    if j != idx {
                        assert(b.children@[j] == a.children@[j]);
                    }
                }
            }
        }
    }

    proof fn lemma_prefix_cons(k: Seq<char>, r: Seq<Seq<char>>, p0: Seq<char>, p: Seq<Seq<char>>)
        ensures
            is_prefix(seq![k] + r, seq![p0] + p) == (k == p0 && is_prefix(r, p)),
    {
        let q = seq![k] + r;
        let pp = seq![p0] + p;
        if is_prefix(q, pp) {
            assert(pp.take(q.len() as int)[0] == q[0]);
            assert(p.take(r.len() as int) =~= pp.take(q.len() as int).drop_first());
            assert(q.drop_first() =~= r);
        }
        if k == p0 && is_prefix(r, p) {
            assert(pp.take(q.len() as int) =~= q);
        }
    }

    proof fn lemma_suffix_cons(path: Seq<String>, i: int)
        requires
            0 <= i < path.len(),
        ensures
            path_view(path).skip(i) == seq![path[i]@] + path_view(path).skip(i + 1),
    {
        assert(path_view(path).skip(i) =~= seq![path[i]@] + path_view(path).skip(i + 1));
    }

    pub fn new() -> (r: Self)
        ensures
            r.wf(),
            r.monotone(),
            r.spec_total() == 0,
            r.spec_len() == 0,
            forall|q: Seq<Seq<char>>| #[trigger] r.at(q) == 0,
            forall|q: Seq<Seq<char>>| #[trigger] r.reaches(q) == (q.len() == 0),
    {
        let r = SampleTree { total: 0, children: Vec::new() };
        assert forall|q: Seq<Seq<char>>| #[trigger] r.at(q) == 0 && r.reaches(q) == (q.len() == 0) by {
            if q.len() > 0 {
                assert(!r.has_key(q[0]));
            }
        }
        r
    }

    /// The weight recorded at this node.
    pub fn total(&self) -> (r: u64)
        ensures
            r == self.spec_total(),
            r == self.at(seq![]),
    {
        self.total
    }
    fn find_child(&self, k: &String) -> (r: Option<usize>)
        ensures
            match r {
                Some(i) => i < self.children@.len() && self.children@[i as int].name@ == k@,
                None => !self.has_key(k@),
            },
    {
        let mut i: usize = 0;
        while i < self.children.len()
            invariant
                i <= self.children@.len(),
                forall|j: int| 0 <= j < i ==> self.children@[j].name@ != k@,
            decreases self.children.len() - i,
        {
            if self.children[i].name == *k {
                return Some(i);
            }
            i += 1;
        }
        None
    }

    /// The index of the child named `k`, added empty if it was missing.
    fn get_or_create_child(&mut self, k: &String) -> (idx: usize)
        requires
            old(self).wf(),
        ensures
            final(self).wf(),
            final(self).total == old(self).total,
            idx < final(self).children@.len(),
            final(self).children@[idx as int].name@ == k@,
            final(self).child(k@) == Some(final(self).children@[idx as int].node),
            forall|kk: Seq<char>| kk != k@ ==> #[trigger] final(self).child(kk) == old(self).child(kk),
            forall|q: Seq<Seq<char>>| #[trigger] final(self).children@[idx as int].node.at(q) == match old(self).child(k@) {
                Some(c) => c.at(q),
                None => 0,
            },
            forall|q: Seq<Seq<char>>| #[trigger] final(self).at(q) == old(self).at(q),
            forall|r: Seq<Seq<char>>| #[trigger] final(self).children@[idx as int].node.reaches(r) == (old(self).child_reaches(k@, r) || r.len() == 0),
    {
        match self.find_child(k) {
            Some(i) => {
                proof {
                    self.lemma_child_index(i as int);
                    assert forall|r: Seq<Seq<char>>| #[trigger] self.children@[i as int].node.reaches(r) == (self.child_reaches(k@, r) || r.len() == 0) by {
                        if r.len() == 0 {
                            assert(self.children@[i as int].node.reaches(r));
                        }
                    }
                }
                i
            },
            None => {
                let ghost a = *self;
                let fresh = SampleTree::new();
                let ghost f = fresh;
                self.children.push(Child { name: k.clone(), node: fresh });
                let idx = self.children.len() - 1;
                proof {
                    let b = *self;
                    assert(b.unique_names());
                    b.lemma_child_index(idx as int);
                    assert forall|kk: Seq<char>| kk != k@ implies #[trigger] b.child(kk) == a.child(kk) by {
                        if a.has_key(kk) {
                            let j = choose|j: int| 0 <= j < a.children@.len() && a.children@[j].name@ == kk;
                            a.lemma_child_index(j);
                            assert(b.children@[j] == a.children@[j]);
                            b.lemma_child_index(j);
                        } else {
                            assert forall|j: int| 0 <= j < b.children@.len() implies b.children@[j].name@ != kk by {
                                if j < a.children@.len() {
                                    assert(b.children@[j] == a.children@[j]);
                                }
                            }
                        }
                    }
                    assert(b.wf()) by {
                        assert forall|j: int| 0 <= j < b.children.len() implies (#[trigger] b.children[j]).node.wf() by {
                            if j < a.children@.len() {
                                assert(b.children[j] == a.children[j]);
                            }
                        }
                    }
                    assert forall|q: Seq<Seq<char>>| #[trigger] b.at(q) == a.at(q) by {
                        if q.len() > 0 {
                            if q[0] != k@ {
                                assert(b.child(q[0]) == a.child(q[0]));
                            } else {
                                assert(b.children@[idx as int].node == f);
                                assert(f.at(q.drop_first()) == 0);
                            }
                        }
                    }
                    assert forall|r: Seq<Seq<char>>| #[trigger] b.children@[idx as int].node.reaches(r) == (a.child_reaches(k@, r) || r.len() == 0) by {
                        assert(b.children@[idx as int].node == f);
                        assert(!a.has_key(k@));
                    }
                }
                idx
            },
        }
    }

    pub open spec fn samples_added(old_t: SampleTree, new_t: SampleTree, p: Seq<Seq<char>>, n: nat) -> bool {
        forall|q: Seq<Seq<char>>| #[trigger] new_t.at(q) == old_t.at(q) + if is_prefix(q, p) { n } else { 0 }
    }

    fn add_samples_from(&mut self, path: &Vec<String>, i: usize, n: u64)
        requires
            old(self).wf(),
            i <= path@.len(),
            forall|q: Seq<Seq<char>>| is_prefix(q, path_view(path@).skip(i as int)) ==> #[trigger] old(self).at(q) + n <= u64::MAX,
        ensures
            final(self).wf(),
            Self::samples_added(*old(self), *final(self), path_view(path@).skip(i as int), n as nat),
            forall|q: Seq<Seq<char>>| #[trigger] final(self).reaches(q) == (old(self).reaches(q) || is_prefix(q, path_view(path@).skip(i as int))),
        decreases path@.len() - i,
    {
        let ghost p = path_view(path@).skip(i as int);
        proof {
            assert(p.take(0) =~= Seq::<Seq<char>>::empty());
            assert(is_prefix(seq![], p));
            assert(old(self).at(seq![]) == old(self).total);
        }
        self.total = self.total + n;
        if i < path.len() {
            let ghost a = *self;
            let idx = self.get_or_create_child(&path[i]);
            let ghost b = *self;
            proof {
                Self::lemma_suffix_cons(path@, i as int);
                assert forall|r: Seq<Seq<char>>| is_prefix(r, path_view(path@).skip(i + 1)) implies
                    #[trigger] b.children@[idx as int].node.at(r) + n <= u64::MAX by {
                    Self::lemma_prefix_cons(path@[i as int]@, r, path@[i as int]@, path_view(path@).skip(i + 1));
                    old(self).lemma_at_cons(path@[i as int]@, r);
                    assert(old(self).child(path@[i as int]@) == a.child(path@[i as int]@));
                }
                assert(b.children[idx as int].node.wf());
            }
            self.children[idx].node.add_samples_from(path, i + 1, n);
            proof {
                let c = *self;
                Self::lemma_replace_child(b, c, idx as int);
                assert(c.wf()) by {
                    assert forall|j: int| 0 <= j < c.children.len() implies (#[trigger] c.children[j]).node.wf() by {
                        if j != idx {
                            assert(c.children[j] == b.children[j]);
                        }
                    }
                }
                let k = path@[i as int]@;
                assert forall|q: Seq<Seq<char>>| #[trigger] c.at(q) == old(self).at(q) + if is_prefix(q, p) { n as nat } else { 0 } by {
                    if q.len() == 0 {
                        assert(p.take(0) =~= q);
                        assert(is_prefix(q, p));
                    } else {
                        let r = q.drop_first();
                        assert(q == seq![q[0]] + r);
                        Self::lemma_prefix_cons(q[0], r, k, path_view(path@).skip(i + 1));
                        c.lemma_at_cons(q[0], r);
                        old(self).lemma_at_cons(q[0], r);
                        b.lemma_at_cons(q[0], r);
                        a.lemma_at_cons(q[0], r);
                    }
                }
                assert forall|q: Seq<Seq<char>>| #[trigger] c.reaches(q) == (old(self).reaches(q) || is_prefix(q, p)) by {
                    if q.len() == 0 {
                        assert(p.take(0) =~= q);
                    } else {
                        let r = q.drop_first();
                        assert(q == seq![q[0]] + r);
                        Self::lemma_prefix_cons(q[0], r, k, path_view(path@).skip(i + 1));
                        c.lemma_reaches_cons(q[0], r);
                        old(self).lemma_reaches_cons(q[0], r);
                        assert(old(self).child(q[0]) == a.child(q[0]));
                        if q[0] == k {
                            assert(c.child_reaches(k, r) == c.children@[idx as int].node.reaches(r));
                            if r.len() == 0 {
                                assert(path_view(path@).skip(i + 1).take(0) =~= r);
                            }
                        } else {
                            assert(c.child(q[0]) == b.child(q[0]));
                            assert(b.child(q[0]) == a.child(q[0]));
                        }
                    }
                }
            }
        } else {
            proof {
                assert forall|q: Seq<Seq<char>>| #[trigger] self.at(q) == old(self).at(q) + if is_prefix(q, p) { n as nat } else { 0 } by {
                    if q.len() > 0 {
                        assert(!is_prefix(q, p));
                        let r = q.drop_first();
                        assert(q == seq![q[0]] + r);
                        self.lemma_at_cons(q[0], r);
                        old(self).lemma_at_cons(q[0], r);
                        assert(self.child(q[0]) == old(self).child(q[0]));
                    } else {
                        assert(p.take(0) =~= q);
                    }
                }
                assert forall|q: Seq<Seq<char>>| #[trigger] self.reaches(q) == (old(self).reaches(q) || is_prefix(q, p)) by {
                    if q.len() > 0 {
                        assert(!is_prefix(q, p));
                        let r = q.drop_first();
                        assert(q == seq![q[0]] + r);
                        self.lemma_reaches_cons(q[0], r);
                        old(self).lemma_reaches_cons(q[0], r);
                        assert(self.child(q[0]) == old(self).child(q[0]));
                    } else {
                        assert(p.take(0) =~= q);
                    }
                }
            }
        }
    }

    /// Adds `n` to every node along `path`, creating the missing ones.
    pub fn add_samples(&mut self, path: &Vec<String>, n: u64)
        requires
            old(self).wf(),
            forall|q: Seq<Seq<char>>| is_prefix(q, path_view(path@)) ==> #[trigger] old(self).at(q) + n <= u64::MAX,
        ensures
            final(self).wf(),
            Self::samples_added(*old(self), *final(self), path_view(path@), n as nat),
            forall|q: Seq<Seq<char>>| #[trigger] final(self).reaches(q) == (old(self).reaches(q) || is_prefix(q, path_view(path@))),
            old(self).monotone() ==> final(self).monotone(),
    {
        proof {
            assert(path_view(path@).skip(0) =~= path_view(path@));
        }
        self.add_samples_from(path, 0, n);
        proof {
            let p = path_view(path@);
            if old(self).monotone() {
                assert forall|q: Seq<Seq<char>>, c: Seq<char>| #[trigger] self.at(q.push(c)) <= self.at(q) by {
                    if is_prefix(q.push(c), p) {
                        assert(p.take(q.len() as int) =~= p.take(q.len() as int + 1).take(q.len() as int));
                        assert(q.push(c).take(q.len() as int) =~= q);
                    }
                    assert(old(self).at(q.push(c)) <= old(self).at(q));
                }
            }
        }
    }

    /// Records one sample along `path`.
    pub fn add_sample(&mut self, path: &Vec<String>)
        requires
            old(self).wf(),
            forall|q: Seq<Seq<char>>| is_prefix(q, path_view(path@)) ==> #[trigger] old(self).at(q) + 1 <= u64::MAX,
        ensures
            final(self).wf(),
            Self::samples_added(*old(self), *final(self), path_view(path@), 1),
            forall|q: Seq<Seq<char>>| #[trigger] final(self).reaches(q) == (old(self).reaches(q) || is_prefix(q, path_view(path@))),
            old(self).monotone() ==> final(self).monotone(),
    {
        self.add_samples(path, 1);
    }

    fn total_at_from(&self, path: &Vec<String>, i: usize) -> (r: u64)
        requires
            self.wf(),
            i <= path@.len(),
        ensures
            r == self.at(path_view(path@).skip(i as int)),
        decreases path@.len() - i,
    {
        if i == path.len() {
            proof {
                assert(path_view(path@).skip(i as int) =~= Seq::<Seq<char>>::empty());
            }
            return self.total;
        }
        proof {
            Self::lemma_suffix_cons(path@, i as int);
            self.lemma_at_cons(path@[i as int]@, path_view(path@).skip(i + 1));
        }
        match self.find_child(&path[i]) {
            None => 0,
            Some(j) => {
                proof {
                    self.lemma_child_index(j as int);
                    assert(decreases_to!(self.children => self.children[j as int]));
                }
                self.children[j].node.total_at_from(path, i + 1)
            },
        }
    }

    /// The weight at the node that `path` leads to, or 0 where there is none.
    pub fn total_at(&self, path: &Vec<String>) -> (r: u64)
        requires
            self.wf(),
        ensures
            r == self.at(path_view(path@)),
    {
        proof {
            assert(path_view(path@).skip(0) =~= path_view(path@));
        }
        self.total_at_from(path, 0)
    }

    /// The number of children of this node.
    pub fn child_count(&self) -> (r: usize)
        ensures
            r == self.spec_len(),
    {
        self.children.len()
    }

    pub closed spec fn spec_child_name(self, i: int) -> Seq<char> {
        self.children@[i].name@
    }

    pub closed spec fn spec_child_node(self, i: int) -> SampleTree {
        self.children@[i].node
    }

    /// The name of the `i`-th child.
    pub fn child_name(&self, i: usize) -> (r: &String)
        requires
            i < self.spec_len(),
        ensures
            r@ == self.spec_child_name(i as int),
            self.unique_names() ==> self.child(r@) == Some(self.spec_child_node(i as int)),
    {
        proof {
            if self.unique_names() {
                self.lemma_child_index(i as int);
            }
        }
        &self.children[i].name
    }

    /// The `i`-th child.
    pub fn child_node(&self, i: usize) -> (r: &SampleTree)
        requires
            i < self.spec_len(),
        ensures
            *r == self.spec_child_node(i as int),
    {
        &self.children[i].node
    }

    /// The indices of the children, each once, ordered by non-increasing
    /// total; children of equal total keep their order.
    pub fn children_by_total(&self) -> (r: Vec<usize>)
        ensures
            r@.len() == self.spec_len(),
            forall|a: int| 0 <= a < r@.len() ==> #[trigger] r@[a] < self.spec_len(),
            forall|a: int, b: int| 0 <= a < r@.len() && 0 <= b < r@.len() && a != b ==> r@[a] != r@[b],
            forall|a: int, b: int| 0 <= a < b < r@.len() ==>
                self.spec_child_node(r@[a] as int).spec_total() >= self.spec_child_node(r@[b] as int).spec_total(),
    {
        let n = self.children.len();
        let mut r: Vec<usize> = Vec::new();
        let mut i: usize = 0;
        while i < n
            invariant
                n == self.children@.len(),
                i <= n,
                r@.len() == i,
                forall|a: int| 0 <= a < r@.len() ==> #[trigger] r@[a] < i,
                forall|a: int, b: int| 0 <= a < r@.len() && 0 <= b < r@.len() && a != b ==> r@[a] != r@[b],
                forall|a: int, b: int| 0 <= a < b < r@.len() ==>
                    self.children@[r@[a] as int].node.total >= self.children@[r@[b] as int].node.total,
            decreases n - i,
        {
            let t = self.children[i].node.total;
            let mut pos: usize = 0;
            while pos < r.len() && self.children[r[pos]].node.total >= t
                invariant
                    n == self.children@.len(),
                    pos <= r@.len(),
                    forall|a: int| 0 <= a < r@.len() ==> #[trigger] r@[a] < i,
                    i < n,
                    forall|a: int| 0 <= a < pos ==> self.children@[#[trigger] r@[a] as int].node.total >= t,
                decreases r.len() - pos,
            {
                pos += 1;
            }
            let ghost r0 = r@;
            r.insert(pos, i);
            proof {
                assert(r@ == r0.insert(pos as int, i));
                assert forall|a: int, b: int| 0 <= a < b < r@.len() implies
                    self.children@[r@[a] as int].node.total >= self.children@[r@[b] as int].node.total by {
                    if b == pos {
                        assert(r@[a] == r0[a]);
                    } else if a == pos {
                        assert(r@[b] == r0[b - 1]);
                        assert(self.children@[r0[pos as int] as int].node.total < t);
                        if b - 1 > pos {
                            assert(self.children@[r0[pos as int] as int].node.total >= self.children@[r0[b - 1] as int].node.total);
                        }
                    } else {
                        let a0 = if a < pos { a } else { a - 1 };
                        let b0 = if b < pos { b } else { b - 1 };
                        assert(r@[a] == r0[a0] && r@[b] == r0[b0]);
                    }
                }
                assert forall|a: int, b: int| 0 <= a < r@.len() && 0 <= b < r@.len() && a != b implies r@[a] != r@[b] by {
                    let a0 = if a < pos { a } else { a - 1 };
                    let b0 = if b < pos { b } else { b - 1 };
                    if a != pos && b != pos {
                        assert(r@[a] == r0[a0] && r@[b] == r0[b0]);
                    } else if a == pos {
                        assert(r@[b] == r0[b0]);
                    } else {
                        assert(r@[a] == r0[a0]);
                    }
                }
                assert forall|a: int| 0 <= a < r@.len() implies #[trigger] r@[a] < i + 1 by {
                    if a != pos {
                        let a0 = if a < pos { a } else { a - 1 };
                        assert(r@[a] == r0[a0]);
                    }
                }
            }
            i += 1;
        }
        r
    }

    /// `r` has a node exactly where `a` or `b` has one.
    pub open spec fn union_of(a: SampleTree, b: SampleTree, r: SampleTree) -> bool {
        forall|q: Seq<Seq<char>>| #[trigger] r.reaches(q) == (a.reaches(q) || b.reaches(q))
    }

    pub open spec fn sum_of(a: SampleTree, b: SampleTree, r: SampleTree) -> bool {
        forall|q: Seq<Seq<char>>| #[trigger] r.at(q) == a.at(q) + b.at(q)
    }

    /// Adds the weights of `other` node by node, creating the missing nodes.
    pub fn add(&mut self, other: &Self)
        requires
            old(self).wf(),
            other.wf(),
            forall|q: Seq<Seq<char>>| #[trigger] old(self).at(q) + other.at(q) <= u64::MAX,
        ensures
            final(self).wf(),
            Self::sum_of(*old(self), *other, *final(self)),
            Self::union_of(*old(self), *other, *final(self)),
            old(self).monotone() && other.monotone() ==> final(self).monotone(),
        decreases other,
    {
        proof {
            assert(old(self).at(seq![]) + other.at(seq![]) <= u64::MAX);
        }
        self.total = self.total + other.total;
        proof {
            assert(self.children == old(self).children);
            assert forall|k: Seq<char>, r: Seq<Seq<char>>| #[trigger] self.child_at(k, r) == old(self).child_at(k, r) by {
                assert(self.child(k) == old(self).child(k));
            }
            assert forall|k: Seq<char>, r: Seq<Seq<char>>| #[trigger] self.child_reaches(k, r) == old(self).child_reaches(k, r) by {
                assert(self.child(k) == old(self).child(k));
            }
        }
        let mut j: usize = 0;
        while j < other.children.len()
            invariant
                j <= other.children@.len(),
                other.wf(),
                self.wf(),
                self.total == old(self).total + other.total,
                forall|q: Seq<Seq<char>>| #[trigger] old(self).at(q) + other.at(q) <= u64::MAX,
                forall|k: Seq<char>, r: Seq<Seq<char>>| #[trigger] self.child_at(k, r) == old(self).child_at(k, r) + if (exists|jj: int| 0 <= jj < j && other.children@[jj].name@ == k) { other.child_at(k, r) } else { 0 },
                forall|k: Seq<char>, r: Seq<Seq<char>>| #[trigger] self.child_reaches(k, r) == (old(self).child_reaches(k, r) || ((exists|jj: int| 0 <= jj < j && other.children@[jj].name@ == k) && other.child_reaches(k, r))),
            decreases other.children.len() - j,
        {
            let ghost s0 = *self;
            let ghost k = other.children@[j as int].name@;
            proof {
                other.lemma_child_index(j as int);
                assert(!(exists|jj: int| 0 <= jj < j && other.children@[jj].name@ == k));
            }
            let idx = self.get_or_create_child(&other.children[j].name);
            let ghost s1 = *self;
            proof {
                assert(decreases_to!(other.children => other.children[j as int]));
                assert(other.children[j as int].node.wf());
                assert forall|r: Seq<Seq<char>>| #[trigger] s1.children@[idx as int].node.at(r) + other.children@[j as int].node.at(r) <= u64::MAX by {
                    assert(s1.children@[idx as int].node.at(r) == s0.child_at(k, r));
                    old(self).lemma_at_cons(k, r);
                    other.lemma_at_cons(k, r);
                }
            }
            self.children[idx].node.add(&other.children[j].node);
            proof {
                let s2 = *self;
                Self::lemma_replace_child(s1, s2, idx as int);
                assert(s2.wf()) by {
                    assert forall|i: int| 0 <= i < s2.children.len() implies (#[trigger] s2.children[i]).node.wf() by {
                        if i != idx {
                            assert(s2.children[i] == s1.children[i]);
                        }
                    }
                }
                assert forall|kk: Seq<char>, r: Seq<Seq<char>>| #[trigger] s2.child_at(kk, r) == old(self).child_at(kk, r) + if (exists|jj: int| 0 <= jj < j + 1 && other.children@[jj].name@ == kk) { other.child_at(kk, r) } else { 0 } by {
                    if kk == k {
                        assert(exists|jj: int| 0 <= jj < j + 1 && other.children@[jj].name@ == kk);
                        assert(s2.child_at(kk, r) == s2.children@[idx as int].node.at(r));
                        assert(s2.children@[idx as int].node.at(r) == s1.children@[idx as int].node.at(r) + other.children@[j as int].node.at(r));
                        assert(s1.children@[idx as int].node.at(r) == s0.child_at(k, r));
                        assert(s0.child_at(k, r) == old(self).child_at(k, r));
                        assert(other.child_at(k, r) == other.children@[j as int].node.at(r));
                    } else {
                        assert(s2.child(kk) == s1.child(kk));
                        assert(s1.child(kk) == s0.child(kk));
                        assert(s2.child_at(kk, r) == s0.child_at(kk, r));
                        if exists|jj: int| 0 <= jj < j + 1 && other.children@[jj].name@ == kk {
                            let jj = choose|jj: int| 0 <= jj < j + 1 && other.children@[jj].name@ == kk;
                            assert(jj != j);
                            assert(exists|jj: int| 0 <= jj < j && other.children@[jj].name@ == kk);
                        } else {
                            assert(!(exists|jj: int| 0 <= jj < j && other.children@[jj].name@ == kk));
                        }
                    }
                }
            }
            proof {
                let s2 = *self;
                assert forall|kk: Seq<char>, r: Seq<Seq<char>>| #[trigger] s2.child_reaches(kk, r) == (old(self).child_reaches(kk, r) || ((exists|jj: int| 0 <= jj < j + 1 && other.children@[jj].name@ == kk) && other.child_reaches(kk, r))) by {
                    if kk == k {
                        assert(exists|jj: int| 0 <= jj < j + 1 && other.children@[jj].name@ == kk);
                        assert(s2.child_reaches(kk, r) == s2.children@[idx as int].node.reaches(r));
                        assert(s2.children@[idx as int].node.reaches(r) == (s1.children@[idx as int].node.reaches(r) || other.children@[j as int].node.reaches(r)));
                        assert(s1.children@[idx as int].node.reaches(r) == (s0.child_reaches(k, r) || r.len() == 0));
                        assert(s0.child_reaches(k, r) == old(self).child_reaches(k, r));
                        assert(other.child_reaches(k, r) == other.children@[j as int].node.reaches(r));
                        if r.len() == 0 {
                            assert(other.children@[j as int].node.reaches(r));
                        }
                    } else {
                        assert(s2.child(kk) == s1.child(kk));
                        assert(s1.child(kk) == s0.child(kk));
                        assert(s2.child_reaches(kk, r) == s0.child_reaches(kk, r));
                        if exists|jj: int| 0 <= jj < j + 1 && other.children@[jj].name@ == kk {
                            let jj = choose|jj: int| 0 <= jj < j + 1 && other.children@[jj].name@ == kk;
                            assert(jj != j);
                            assert(exists|jj: int| 0 <= jj < j && other.children@[jj].name@ == kk);
                        } else {
                            assert(!(exists|jj: int| 0 <= jj < j && other.children@[jj].name@ == kk));
                        }
                    }
                }
            }
            j += 1;
        }
        proof {
            let s = *self;
            assert forall|q: Seq<Seq<char>>| #[trigger] s.at(q) == old(self).at(q) + other.at(q) by {
                if q.len() > 0 {
                    let r = q.drop_first();
                    let k = q[0];
                    assert(q == seq![k] + r);
                    s.lemma_at_cons(k, r);
                    old(self).lemma_at_cons(k, r);
                    other.lemma_at_cons(k, r);
                    if !(exists|jj: int| 0 <= jj < j && other.children@[jj].name@ == k) {
                        assert(!other.has_key(k));
                    }
                }
            }
            assert forall|q: Seq<Seq<char>>| #[trigger] s.reaches(q) == (old(self).reaches(q) || other.reaches(q)) by {
                if q.len() > 0 {
                    let r = q.drop_first();
                    let k = q[0];
                    assert(q == seq![k] + r);
                    s.lemma_reaches_cons(k, r);
                    old(self).lemma_reaches_cons(k, r);
                    other.lemma_reaches_cons(k, r);
                    if !(exists|jj: int| 0 <= jj < j && other.children@[jj].name@ == k) {
                        assert(!other.has_key(k));
                    }
                }
            }
            if old(self).monotone() && other.monotone() {
                assert forall|q: Seq<Seq<char>>, c: Seq<char>| #[trigger] s.at(q.push(c)) <= s.at(q) by {
                    assert(old(self).at(q.push(c)) <= old(self).at(q));
                    assert(other.at(q.push(c)) <= other.at(q));
                }
            }
        }
    }

    pub open spec fn difference_of(a: SampleTree, b: SampleTree, r: SampleTree) -> bool {
        forall|q: Seq<Seq<char>>| #[trigger] r.at(q) == if Self::pruned(a, b, q) {
            0
        } else {
            a.at(q) - b.at(q)
        }
    }

    spec fn child_sub_reaches(a: SampleTree, b: SampleTree, k: Seq<char>, r: Seq<Seq<char>>) -> bool {
        match a.child(k) {
            None => false,
            Some(c) => match b.child(k) {
                None => c.reaches(r),
                Some(v) => c.reaches(r) && !Self::pruned_above(c, v, r),
            },
        }
    }

    spec fn child_difference(a: SampleTree, b: SampleTree, k: Seq<char>, r: Seq<Seq<char>>) -> int {
        match a.child(k) {
            None => 0,
            Some(c) => match b.child(k) {
                None => c.at(r) as int,
                Some(v) => if Self::pruned(c, v, r) {
                    0
                } else {
                    c.at(r) - v.at(r)
                },
            },
        }
    }

    /// Subtracts the weights of `other` node by node. A node left with no
    /// weight loses all its children; nodes of `other` missing here are skipped.
    pub fn sub(&mut self, other: &Self)
        requires
            old(self).wf(),
            other.wf(),
            forall|q: Seq<Seq<char>>| #[trigger] old(self).reaches(q) && !Self::pruned_above(*old(self), *other, q) ==> other.at(q) <= old(self).at(q),
        ensures
            final(self).wf(),
            final(self).spec_total() == old(self).spec_total() - other.spec_total(),
            final(self).spec_total() == 0 ==> final(self).spec_len() == 0,
            Self::difference_of(*old(self), *other, *final(self)),
            forall|q: Seq<Seq<char>>| #[trigger] final(self).reaches(q) == (old(self).reaches(q) && !Self::pruned_above(*old(self), *other, q)),
        decreases other,
    {
        proof {
            assert(old(self).reaches(seq![]));
            assert(other.reaches(seq![]));
            assert(!Self::pruned_above(*old(self), *other, seq![]));
        }
        self.total = self.total - other.total;
        if self.total == 0 {
            self.children.clear();
            proof {
                let s = *self;
                assert forall|q: Seq<Seq<char>>| #[trigger] s.at(q) == if Self::pruned(*old(self), *other, q) {
                    0
                } else {
                    old(self).at(q) - other.at(q)
                } by {
                    assert(q.take(0) =~= Seq::<Seq<char>>::empty());
                    assert(other.reaches(q.take(0)));
                    if q.len() > 0 {
                        assert(!s.has_key(q[0]));
                    }
                }
                assert forall|q: Seq<Seq<char>>| #[trigger] s.reaches(q) == (old(self).reaches(q) && !Self::pruned_above(*old(self), *other, q)) by {
                    assert(q.take(0) =~= Seq::<Seq<char>>::empty());
                    assert(other.reaches(q.take(0)));
                    assert(old(self).at(q.take(0)) == old(self).total);
                    if q.len() > 0 {
                        assert(!s.has_key(q[0]));
                    }
                }
            }
            return;
        }
        proof {
            assert(self.children == old(self).children);
            assert forall|k: Seq<char>| #[trigger] self.child(k) == old(self).child(k) by {}
        }
        let mut j: usize = 0;
        while j < other.children.len()
            invariant
                j <= other.children@.len(),
                other.wf(),
                self.wf(),
                self.total == old(self).total - other.total,
                self.total > 0,
                forall|q: Seq<Seq<char>>| #[trigger] old(self).reaches(q) && !Self::pruned_above(*old(self), *other, q) ==> other.at(q) <= old(self).at(q),
                forall|k: Seq<char>| #[trigger] self.child(k).is_some() == old(self).child(k).is_some(),
                forall|k: Seq<char>, r: Seq<Seq<char>>| (exists|jj: int| 0 <= jj < j && other.children@[jj].name@ == k) ==> #[trigger] self.child_reaches(k, r) == Self::child_sub_reaches(*old(self), *other, k, r),
                forall|k: Seq<char>| !(exists|jj: int| 0 <= jj < j && other.children@[jj].name@ == k) ==> #[trigger] self.child(k) == old(self).child(k),
                forall|k: Seq<char>, r: Seq<Seq<char>>| (exists|jj: int| 0 <= jj < j && other.children@[jj].name@ == k) ==> #[trigger] self.child_at(k, r) == Self::child_difference(*old(self), *other, k, r),
            decreases other.children.len() - j,
        {
            let ghost s0 = *self;
            let ghost k = other.children@[j as int].name@;
            proof {
                other.lemma_child_index(j as int);
                assert(!(exists|jj: int| 0 <= jj < j && other.children@[jj].name@ == k));
                assert(s0.child(k) == old(self).child(k));
            }
            match self.find_child(&other.children[j].name) {
                Some(idx) => {
                    proof {
                        s0.lemma_child_index(idx as int);
                        assert(decreases_to!(other.children => other.children[j as int]));
                        assert(other.children[j as int].node.wf());
                        assert(s0.children[idx as int].node.wf());
                        assert forall|r: Seq<Seq<char>>| #[trigger] s0.children@[idx as int].node.reaches(r)
                            && !Self::pruned_above(s0.children@[idx as int].node, other.children@[j as int].node, r) implies
                            other.children@[j as int].node.at(r) <= s0.children@[idx as int].node.at(r) by {
                            old(self).lemma_reaches_cons(k, r);
                            old(self).lemma_at_cons(k, r);
                            other.lemma_at_cons(k, r);
                            Self::lemma_pruned_above_cons(*old(self), *other, k, r);
                            assert(old(self).reaches(seq![k] + r));
                        }
                    }
                    self.children[idx].node.sub(&other.children[j].node);
                    proof {
                        let s2 = *self;
                        assert forall|kk: Seq<char>, r: Seq<Seq<char>>| (exists|jj: int| 0 <= jj < j + 1 && other.children@[jj].name@ == kk) implies #[trigger] s2.child_reaches(kk, r) == Self::child_sub_reaches(*old(self), *other, kk, r) by {
                            Self::lemma_replace_child(s0, s2, idx as int);
                            if kk == k {
                                assert(s2.child_reaches(kk, r) == s2.children@[idx as int].node.reaches(r));
                            } else {
                                assert(s2.child(kk) == s0.child(kk));
                                assert(s2.child_reaches(kk, r) == s0.child_reaches(kk, r));
                                let jj = choose|jj: int| 0 <= jj < j + 1 && other.children@[jj].name@ == kk;
                                assert(jj != j);
                                assert(exists|jj: int| 0 <= jj < j && other.children@[jj].name@ == kk);
                            }
                        }
                        Self::lemma_replace_child(s0, s2, idx as int);
                        assert(s2.wf()) by {
                            assert forall|i: int| 0 <= i < s2.children.len() implies (#[trigger] s2.children[i]).node.wf() by {
                                if i != idx {
                                    assert(s2.children[i] == s0.children[i]);
                                }
                            }
                        }
                        assert forall|kk: Seq<char>| #[trigger] s2.child(kk).is_some() == old(self).child(kk).is_some() by {
                            if kk != k {
                                assert(s2.child(kk) == s0.child(kk));
                            }
                        }
                        assert forall|kk: Seq<char>| !(exists|jj: int| 0 <= jj < j + 1 && other.children@[jj].name@ == kk) implies #[trigger] s2.child(kk) == old(self).child(kk) by {
                            assert(kk != k);
                            assert(s2.child(kk) == s0.child(kk));
                        }
                        assert forall|kk: Seq<char>, r: Seq<Seq<char>>| (exists|jj: int| 0 <= jj < j + 1 && other.children@[jj].name@ == kk) implies #[trigger] s2.child_at(kk, r) == Self::child_difference(*old(self), *other, kk, r) by {
                            if kk == k {
                                assert(s2.child_at(kk, r) == s2.children@[idx as int].node.at(r));
                            } else {
                                assert(s2.child(kk) == s0.child(kk));
                                assert(s2.child_at(kk, r) == s0.child_at(kk, r));
                                let jj = choose|jj: int| 0 <= jj < j + 1 && other.children@[jj].name@ == kk;
                                assert(jj != j);
                                assert(exists|jj: int| 0 <= jj < j && other.children@[jj].name@ == kk);
                            }
                        }
                    }
                },
                None => {
                    proof {
                        assert(old(self).child(k).is_none());
                        assert forall|kk: Seq<char>, r: Seq<Seq<char>>| (exists|jj: int| 0 <= jj < j + 1 && other.children@[jj].name@ == kk) implies #[trigger] s0.child_reaches(kk, r) == Self::child_sub_reaches(*old(self), *other, kk, r) by {
                            if kk != k {
                                let jj = choose|jj: int| 0 <= jj < j + 1 && other.children@[jj].name@ == kk;
                                assert(jj != j);
                                assert(exists|jj: int| 0 <= jj < j && other.children@[jj].name@ == kk);
                            }
                        }
                        assert forall|kk: Seq<char>| !(exists|jj: int| 0 <= jj < j + 1 && other.children@[jj].name@ == kk) implies #[trigger] s0.child(kk) == old(self).child(kk) by {
                            assert(kk != k);
                        }
                        assert forall|kk: Seq<char>, r: Seq<Seq<char>>| (exists|jj: int| 0 <= jj < j + 1 && other.children@[jj].name@ == kk) implies #[trigger] s0.child_at(kk, r) == Self::child_difference(*old(self), *other, kk, r) by {
                            if kk != k {
                                let jj = choose|jj: int| 0 <= jj < j + 1 && other.children@[jj].name@ == kk;
                                assert(jj != j);
                                assert(exists|jj: int| 0 <= jj < j && other.children@[jj].name@ == kk);
                            }
                        }
                    }
                },
            }
            j += 1;
        }
        proof {
            let s = *self;
            assert forall|q: Seq<Seq<char>>| #[trigger] s.at(q) == if Self::pruned(*old(self), *other, q) {
                0
            } else {
                old(self).at(q) - other.at(q)
            } by {
                if q.len() > 0 {
                    let r = q.drop_first();
                    let k = q[0];
                    assert(q == seq![k] + r);
                    s.lemma_at_cons(k, r);
                    old(self).lemma_at_cons(k, r);
                    other.lemma_at_cons(k, r);
                    Self::lemma_pruned_cons(*old(self), *other, k, r);
                    if !(exists|jj: int| 0 <= jj < j && other.children@[jj].name@ == k) {
                        assert(!other.has_key(k));
                        assert(s.child(k) == old(self).child(k));
                    } else {
                        assert(other.has_key(k));
                    }
                } else {
                    assert(q.take(0) =~= q);
                    assert(other.reaches(q.take(0)));
                }
            }
            assert forall|q: Seq<Seq<char>>| #[trigger] s.reaches(q) == (old(self).reaches(q) && !Self::pruned_above(*old(self), *other, q)) by {
                if q.len() > 0 {
                    let r = q.drop_first();
                    let k = q[0];
                    assert(q == seq![k] + r);
                    s.lemma_reaches_cons(k, r);
                    old(self).lemma_reaches_cons(k, r);
                    Self::lemma_pruned_above_cons(*old(self), *other, k, r);
                    if !(exists|jj: int| 0 <= jj < j && other.children@[jj].name@ == k) {
                        assert(!other.has_key(k));
                        assert(s.child(k) == old(self).child(k));
                    } else {
                        assert(other.has_key(k));
                    }
                }
            }
        }
    }
}

/// The weight that `samples` (each a path and a weight) put on the node at `q`:
/// the sum of the weights of the samples whose path passes through `q`.
pub open spec fn weight_through(samples: Seq<(Seq<Seq<char>>, nat)>, q: Seq<Seq<char>>) -> nat
    decreases samples.len(),
{
    if samples.len() == 0 {
        0
    } else {
        weight_through(samples.drop_last(), q) + if is_prefix(q, samples.last().0) {
            samples.last().1
        } else {
            0
        }
    }
}

/// The sum of the weights of `samples`.
pub open spec fn weight_sum(samples: Seq<(Seq<Seq<char>>, nat)>) -> nat
    decreases samples.len(),
{
    if samples.len() == 0 {
        0
    } else {
        weight_sum(samples.drop_last()) + samples.last().1
    }
}

/// Totals after a sequence of samples: when `trees[i + 1]` is `trees[i]` with
/// `samples[i]` added, starting from an empty tree, every node of the last tree
/// holds the weight of the samples whose path passes through it, and the root
/// holds the weight of all of them.
pub proof fn lemma_totals_after_samples(trees: Seq<SampleTree>, samples: Seq<(Seq<Seq<char>>, nat)>)
    requires
        trees.len() == samples.len() + 1,
        forall|q: Seq<Seq<char>>| #[trigger] trees[0].at(q) == 0,
        forall|i: int| 0 <= i < samples.len() ==> SampleTree::samples_added(#[trigger] trees[i], trees[i + 1], samples[i].0, samples[i].1),
    ensures
        forall|q: Seq<Seq<char>>| #[trigger] trees.last().at(q) == weight_through(samples, q),
        trees.last().spec_total() == weight_sum(samples),
    decreases samples.len(),
{
    if samples.len() > 0 {
        let n = samples.len() - 1;
        let ts = trees.drop_last();
        let ss = samples.drop_last();
        assert forall|i: int| 0 <= i < ss.len() implies SampleTree::samples_added(#[trigger] ts[i], ts[i + 1], ss[i].0, ss[i].1) by {
            assert(ts[i] == trees[i] && ts[i + 1] == trees[i + 1] && ss[i] == samples[i]);
        }
        lemma_totals_after_samples(ts, ss);
        assert(SampleTree::samples_added(trees[n], trees[n + 1], samples[n].0, samples[n].1));
        assert(ts.last() == trees[n]);
    }
    lemma_weight_through_root(samples);
    assert(trees.last().at(seq![]) == trees.last().spec_total());
}

proof fn lemma_weight_through_root(samples: Seq<(Seq<Seq<char>>, nat)>)
    ensures
        weight_through(samples, seq![]) == weight_sum(samples),
    decreases samples.len(),
{
    if samples.len() > 0 {
        lemma_weight_through_root(samples.drop_last());
        assert(samples.last().0.take(0) =~= Seq::<Seq<char>>::empty());
    }
}

/// Merging is commutative: `a` with `b` added holds at every node what `b`
/// with `a` added holds, and has the same nodes.
pub proof fn lemma_add_commutes(a: SampleTree, b: SampleTree, ab: SampleTree, ba: SampleTree)
    requires
        SampleTree::sum_of(a, b, ab),
        SampleTree::sum_of(b, a, ba),
        SampleTree::union_of(a, b, ab),
        SampleTree::union_of(b, a, ba),
    ensures
        forall|q: Seq<Seq<char>>| #[trigger] ab.at(q) == ba.at(q),
        forall|q: Seq<Seq<char>>| #[trigger] ab.reaches(q) == ba.reaches(q),
{
    assert forall|q: Seq<Seq<char>>| #[trigger] ab.at(q) == ba.at(q) by {
        assert(ab.at(q) == a.at(q) + b.at(q));
        assert(ba.at(q) == b.at(q) + a.at(q));
    }
    assert forall|q: Seq<Seq<char>>| #[trigger] ab.reaches(q) == ba.reaches(q) by {
        assert(ab.reaches(q) == (a.reaches(q) || b.reaches(q)));
        assert(ba.reaches(q) == (b.reaches(q) || a.reaches(q)));
    }
}

/// The weight at the root is the tree's total, and every tree has a root.
pub proof fn lemma_at_root(t: SampleTree)
    ensures
        t.at(seq![]) == t.spec_total(),
        t.reaches(seq![]),
{
}

/// In a monotone tree a node holds no more than any node on its way from the root.
pub proof fn lemma_monotone_prefix(t: SampleTree, q: Seq<Seq<char>>, n: int)
    requires
        t.monotone(),
        0 <= n <= q.len(),
    ensures
        t.at(q) <= t.at(q.take(n)),
    decreases q.len() - n,
{
    if n < q.len() {
        lemma_monotone_prefix(t, q, n + 1);
        assert(q.take(n + 1) =~= q.take(n).push(q[n]));
        assert(t.at(q.take(n).push(q[n])) <= t.at(q.take(n)));
    } else {
        assert(q.take(n) =~= q);
    }
}

/// In a monotone tree no node holds more than the root.
pub proof fn lemma_monotone_bounded(t: SampleTree, q: Seq<Seq<char>>)
    requires
        t.monotone(),
    ensures
        t.at(q) <= t.spec_total(),
{
    lemma_monotone_prefix(t, q, 0);
    assert(q.take(0) =~= Seq::<Seq<char>>::empty());
}

/// Adding `b` and then subtracting it gives back the weights of `a` at every
/// node, where no node of `a` holds more than its parent.
pub proof fn lemma_add_sub_round_trip(a: SampleTree, b: SampleTree, ab: SampleTree, r: SampleTree)
    requires
        a.monotone(),
        SampleTree::sum_of(a, b, ab),
        SampleTree::difference_of(ab, b, r),
    ensures
        forall|q: Seq<Seq<char>>| #[trigger] r.at(q) == a.at(q),
        forall|q: Seq<Seq<char>>| #[trigger] ab.reaches(q) && !SampleTree::pruned_above(ab, b, q) ==> b.at(q) <= ab.at(q),
{
    assert forall|q: Seq<Seq<char>>| #[trigger] r.at(q) == a.at(q) by {
        if SampleTree::pruned(ab, b, q) {
            let n = choose|n: int|
                0 <= n <= q.len() && #[trigger] b.reaches(q.take(n)) && ab.at(q.take(n)) <= b.at(q.take(n));
            assert(ab.at(q.take(n)) == a.at(q.take(n)) + b.at(q.take(n)));
            lemma_monotone_prefix(a, q, n);
        } else {
            assert(ab.at(q) == a.at(q) + b.at(q));
        }
    }
    assert forall|q: Seq<Seq<char>>| #[trigger] ab.reaches(q) && !SampleTree::pruned_above(ab, b, q) implies b.at(q) <= ab.at(q) by {
        assert(ab.at(q) == a.at(q) + b.at(q));
    }
}

/// Where `ab` holds at every node the weight of a monotone `a` plus that of
/// `b`, subtracting `b` from `ab` leaves exactly the weight of `a`.
pub proof fn lemma_sub_restores(ab: SampleTree, b: SampleTree, r: SampleTree, a: spec_fn(Seq<Seq<char>>) -> nat)
    requires
        forall|q: Seq<Seq<char>>| #[trigger] ab.at(q) == a(q) + b.at(q),
        forall|q: Seq<Seq<char>>, c: Seq<char>| #[trigger] a(q.push(c)) <= a(q),
        SampleTree::difference_of(ab, b, r),
    ensures
        forall|q: Seq<Seq<char>>| #[trigger] r.at(q) == a(q),
{
    assert forall|q: Seq<Seq<char>>| #[trigger] r.at(q) == a(q) by {
        if SampleTree::pruned(ab, b, q) {
            let n = choose|n: int|
                0 <= n <= q.len() && #[trigger] b.reaches(q.take(n)) && ab.at(q.take(n)) <= b.at(q.take(n));
            assert(ab.at(q.take(n)) == a(q.take(n)) + b.at(q.take(n)));
            lemma_monotone_fn_prefix(a, q, n);
        } else {
            assert(ab.at(q) == a(q) + b.at(q));
        }
    }
}

proof fn lemma_monotone_fn_prefix(a: spec_fn(Seq<Seq<char>>) -> nat, q: Seq<Seq<char>>, n: int)
    requires
        forall|q: Seq<Seq<char>>, c: Seq<char>| #[trigger] a(q.push(c)) <= a(q),
        0 <= n <= q.len(),
    ensures
        a(q) <= a(q.take(n)),
    decreases q.len() - n,
{
    if n < q.len() {
        lemma_monotone_fn_prefix(a, q, n + 1);
        assert(q.take(n + 1) =~= q.take(n).push(q[n]));
        assert(a(q.take(n).push(q[n])) <= a(q.take(n)));
    } else {
        assert(q.take(n) =~= q);
    }
}

} // verus!
