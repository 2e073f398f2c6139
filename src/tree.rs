use vstd::prelude::*;
use vstd::std_specs::cmp::PartialEqSpec;

verus! {

/// Errors reported by structural operations.
#[derive(Debug, Clone, Copy, PartialEq, Eq, Structural)]
pub enum TreeError {
    /// `push_children` was called with no values.
    EmptyInput,
    /// `move_to` would place a node under itself or one of its descendants.
    WouldCreateCycle,
}

/// Strong handle to a node of a `Tree`.
#[derive(Debug, Clone, Copy, PartialEq, Eq, Structural)]
pub struct TreeNodeRef {
    pub id: usize,
}

/// Non-owning back-reference to a node, used for parent links.
#[derive(Debug, Clone, Copy, PartialEq, Eq, Structural)]
pub struct TreeNodeWeak {
    pub id: usize,
}

/// The node storage: values, parent links and ordered child lists, indexed by
/// node id. `rank` strictly increases from parent to child, which rules out
/// cycles in the parent relation.
pub struct Tree<T> {
    vals: Vec<T>,
    parents: Vec<Option<usize>>,
    kids: Vec<Vec<usize>>,
    rank: Ghost<Seq<nat>>,
}

impl<T> Tree<T> {
    /// Number of nodes in the arena.
    pub closed spec fn size(&self) -> nat {
        self.vals@.len()
    }

    /// The value held by node `i`.
    pub closed spec fn value_of(&self, i: int) -> T {
        self.vals@[i]
    }

    /// The parent of node `i`, or `None` for a root.
    pub closed spec fn parent_of(&self, i: int) -> Option<usize> {
        self.parents@[i]
    }

    /// The children of node `i`, in order.
    pub closed spec fn children_of(&self, i: int) -> Seq<usize> {
        self.kids@[i]@
    }

    /// A ghost measure that grows from each parent to its children.
    pub closed spec fn rank_of(&self, i: int) -> nat {
        self.rank@[i]
    }

    /// The handle names a node of this arena.
    pub open spec fn valid(&self, h: TreeNodeRef) -> bool {
        h.id < self.size()
    }

    /// Node `i` has no parent.
    pub open spec fn is_root_node(&self, i: int) -> bool {
        self.parent_of(i) is None
    }

    /// Well-formedness: every link points inside the arena, parents and child
    /// lists agree in both directions, child lists hold no duplicates, and
    /// ranks increase downwards.
    pub open spec fn wf(&self) -> bool {
        &&& self.sizes_agree()
        &&& forall|i: int|
            0 <= i < self.size() && #[trigger] self.parent_of(i) is Some ==> {
                let p = self.parent_of(i)->0 as int;
                &&& 0 <= p < self.size()
                &&& self.rank_of(p) < self.rank_of(i)
                &&& self.children_of(p).contains(i as usize)
            }
        &&& forall|p: int, j: int|
            0 <= p < self.size() && 0 <= j < self.children_of(p).len() ==> {
                let c = #[trigger] self.children_of(p)[j];
                &&& c < self.size()
                &&& self.parent_of(c as int) == Some(p as usize)
            }
        &&& forall|p: int| 0 <= p < self.size() ==> (#[trigger] self.children_of(p)).no_duplicates()
    }

    /// The parallel vectors describe the same number of nodes.
    pub closed spec fn sizes_agree(&self) -> bool {
        &&& self.parents@.len() == self.vals@.len()
        &&& self.kids@.len() == self.vals@.len()
        &&& self.rank@.len() == self.vals@.len()
        &&& self.vals@.len() <= usize::MAX
    }

    /// Two arenas with the same links and ranks are equally well formed,
    /// whatever values they hold.
    proof fn lemma_same_shape(a: Self, b: Self)
        requires
            a.wf(),
            a.vals@.len() == b.vals@.len(),
            a.parents@ == b.parents@,
            a.kids@ == b.kids@,
            a.rank@ == b.rank@,
        ensures
            b.wf(),
    {
        assert forall|i: int|
            0 <= i < b.size() && #[trigger] b.parent_of(i) is Some implies {
                let p = b.parent_of(i)->0 as int;
                &&& 0 <= p < b.size()
                &&& b.rank_of(p) < b.rank_of(i)
                &&& b.children_of(p).contains(i as usize)
            } by {
            assert(a.parent_of(i) is Some);
        }
        assert forall|p: int, j: int|
            0 <= p < b.size() && 0 <= j < b.children_of(p).len() implies {
                let c = #[trigger] b.children_of(p)[j];
                &&& c < b.size()
                &&& b.parent_of(c as int) == Some(p as usize)
            } by {
            assert(a.children_of(p)[j] == b.children_of(p)[j]);
        }
        assert forall|p: int| 0 <= p < b.size() implies (#[trigger] b.children_of(p)).no_duplicates() by {
            assert(a.children_of(p) == b.children_of(p));
        }
    }

    /// Number of parent hops from node `i` up to its root.
    pub open spec fn depth_of(&self, i: int) -> nat
        decreases self.rank_of(i),
        when self.wf() && 0 <= i < self.size()
    {
        match self.parent_of(i) {
            None => 0,
            Some(p) => self.depth_of(p as int) + 1,
        }
    }

    /// Node `i` and its ancestors, nearest first, stopping before the root.
    pub open spec fn chain(&self, i: int) -> Seq<int>
        decreases self.rank_of(i),
        when self.wf() && 0 <= i < self.size()
    {
        match self.parent_of(i) {
            None => Seq::empty(),
            Some(p) => seq![i].add(self.chain(p as int)),
        }
    }

    /// The values along `chain(i)`.
    pub open spec fn vertical(&self, i: int) -> Seq<T> {
        self.chain(i).map_values(|k: int| self.value_of(k))
    }

    proof fn lemma_chain_ranks(&self, i: int)
        requires
            self.wf(),
            0 <= i < self.size(),
        ensures
            self.chain(i).len() == self.depth_of(i),
            self.chain(i).no_duplicates(),
            forall|k: int| 0 <= k < self.chain(i).len() ==> {
                &&& 0 <= #[trigger] self.chain(i)[k] < self.size()
                &&& self.rank_of(self.chain(i)[k]) <= self.rank_of(i)
            },
        decreases self.rank_of(i),
    {
        match self.parent_of(i) {
            None => {},
            Some(p) => {
                let p = p as int;
                self.lemma_chain_ranks(p);
                let c = self.chain(i);
                assert forall|k: int| 0 <= k < c.len() implies {
                    &&& 0 <= #[trigger] c[k] < self.size()
                    &&& self.rank_of(c[k]) <= self.rank_of(i)
                } by {
                    if k > 0 {
                        assert(c[k] == self.chain(p)[k - 1]);
                    }
                }
                assert forall|a: int, b: int| 0 <= a < c.len() && 0 <= b < c.len() && a != b
                    implies c[a] != c[b] by {
                    if a > 0 {
                        assert(c[a] == self.chain(p)[a - 1]);
                    }
                    if b > 0 {
                        assert(c[b] == self.chain(p)[b - 1]);
                    }
                }
            },
        }
    }

    /// The depth of every node is below the number of nodes.
    proof fn lemma_depth_bounded(&self, i: int)
        requires
            self.wf(),
            0 <= i < self.size(),
        ensures
            self.depth_of(i) <= self.size(),
    {
        self.lemma_chain_ranks(i);
        let c = self.chain(i);
        c.unique_seq_to_set();
        vstd::set_lib::lemma_int_range(0, self.size() as int);
        assert(c.to_set().subset_of(vstd::set_lib::set_int_range(0, self.size() as int)));
        vstd::set_lib::lemma_len_subset(c.to_set(), vstd::set_lib::set_int_range(0, self.size() as int));
    }

    /// The node reached from `i` after `k` parent hops, if the walk does not
    /// pass a root first.
    pub open spec fn anc(&self, i: int, k: nat) -> Option<int>
        decreases k,
    {
        if k == 0 {
            Some(i)
        } else {
            match self.parent_of(i) {
                None => None,
                Some(p) => self.anc(p as int, (k - 1) as nat),
            }
        }
    }

    /// Node `m` lies in the subtree rooted at `x` (`x` itself included).
    pub open spec fn is_desc(&self, m: int, x: int) -> bool {
        exists|k: nat| #[trigger] self.anc(m, k) == Some(x)
    }

    /// The children of `i` once `x` has been taken out of its parent's list.
    pub open spec fn detached(&self, x: int, i: int) -> Seq<usize> {
        if self.parent_of(x) == Some(i as usize) {
            self.children_of(i).remove(self.children_of(i).index_of(x as usize))
        } else {
            self.children_of(i)
        }
    }

    /// A node other than `x` lies in the subtree of `x` exactly when its
    /// parent does.
    pub proof fn lemma_desc_step(&self, m: int, x: int)
        requires
            m != x,
            self.parent_of(m) is Some,
        ensures
            self.is_desc(m, x) == self.is_desc(self.parent_of(m)->0 as int, x),
    {
        let p = self.parent_of(m)->0 as int;
        if self.is_desc(m, x) {
            let k = choose|k: nat| #[trigger] self.anc(m, k) == Some(x);
            assert(self.anc(p, (k - 1) as nat) == Some(x));
        }
        if self.is_desc(p, x) {
            let k = choose|k: nat| #[trigger] self.anc(p, k) == Some(x);
            assert(self.anc(m, k + 1) == Some(x));
        }
    }

    /// A root lies in no subtree but its own.
    pub proof fn lemma_root_not_desc(&self, m: int, x: int)
        requires
            m != x,
            self.parent_of(m) is None,
        ensures
            !self.is_desc(m, x),
    {
        assert forall|k: nat| #[trigger] self.anc(m, k) != Some(x) by {
            if k > 0 {
                assert(self.anc(m, k) is None);
            }
        }
    }

    proof fn lemma_remove_at(s: Seq<usize>, j: int)
        requires
            s.no_duplicates(),
            0 <= j < s.len(),
        ensures
            s.index_of(s[j]) == j,
            s.remove(j).no_duplicates(),
            !s.remove(j).contains(s[j]),
            forall|y: usize| y != s[j] ==> (s.remove(j).contains(y) <==> s.contains(y)),
    {
        s.remove_ensures(j);
        let r = s.remove(j);
        assert forall|y: usize| y != s[j] && s.contains(y) implies r.contains(y) by {
            let a = choose|a: int| 0 <= a < s.len() && s[a] == y;
            if a < j {
                assert(r[a] == y);
            } else {
                assert(r[a - 1] == y);
            }
        }
        assert forall|y: usize| r.contains(y) implies s.contains(y) && y != s[j] by {
            let a = choose|a: int| 0 <= a < r.len() && r[a] == y;
            if a < j {
                assert(s[a] == y);
            } else {
                assert(s[a + 1] == y);
            }
        }
        assert forall|a: int, b: int| 0 <= a < r.len() && 0 <= b < r.len() && a != b implies r[a] != r[b] by {
            let a2 = if a < j { a } else { a + 1 };
            let b2 = if b < j { b } else { b + 1 };
            assert(r[a] == s[a2]);
            assert(r[b] == s[b2]);
        }
    }

    proof fn lemma_detached(&self, x: int, i: int)
        requires
            self.wf(),
            0 <= x < self.size(),
            0 <= i < self.size(),
        ensures
            self.detached(x, i).no_duplicates(),
            !self.detached(x, i).contains(x as usize),
            forall|y: usize| y != x ==> (self.detached(x, i).contains(y) <==> self.children_of(i).contains(y)),
    {
        if self.parent_of(x) == Some(i as usize) {
            let j = choose|j: int| 0 <= j < self.children_of(i).len() && self.children_of(i)[j] == x as usize;
            Self::lemma_remove_at(self.children_of(i), j);
        } else {
            if self.children_of(i).contains(x as usize) {
                let j = choose|j: int| 0 <= j < self.children_of(i).len() && self.children_of(i)[j] == x as usize;
                assert(self.parent_of(self.children_of(i)[j] as int) == Some(i as usize));
            }
        }
    }

    /// Every non-root node is listed among the children of its parent exactly
    /// once and among the children of no other node; a root is listed nowhere.
    pub proof fn lemma_single_parent(&self, c: int)
        requires
            self.wf(),
            0 <= c < self.size(),
        ensures
            forall|q: int| 0 <= q < self.size() && #[trigger] self.children_of(q).contains(c as usize)
                ==> self.parent_of(c) == Some(q as usize),
            self.parent_of(c) matches Some(p) ==> {
                &&& self.children_of(p as int).contains(c as usize)
                &&& forall|a: int, b: int|
                    0 <= a < self.children_of(p as int).len() && 0 <= b < self.children_of(p as int).len()
                    && self.children_of(p as int)[a] == c as usize && self.children_of(p as int)[b] == c as usize
                    ==> a == b
            },
    {
        assert forall|q: int| 0 <= q < self.size() && #[trigger] self.children_of(q).contains(c as usize)
            implies self.parent_of(c) == Some(q as usize) by {
            let j = choose|j: int| 0 <= j < self.children_of(q).len() && self.children_of(q)[j] == c as usize;
            assert(self.parent_of(self.children_of(q)[j] as int) == Some(q as usize));
        }
        if self.parent_of(c) is Some {
            assert(self.children_of(self.parent_of(c)->0 as int).no_duplicates());
        }
    }

    /// A root has depth zero, and every child is exactly one level deeper
    /// than its parent.
    pub proof fn lemma_depth_law(&self, p: int, c: usize)
        requires
            self.wf(),
            0 <= p < self.size(),
            self.children_of(p).contains(c),
        ensures
            self.is_root_node(p) ==> self.depth_of(p) == 0,
            0 <= c < self.size(),
            self.depth_of(c as int) == self.depth_of(p) + 1,
    {
        let j = choose|j: int| 0 <= j < self.children_of(p).len() && self.children_of(p)[j] == c;
        assert(self.parent_of(self.children_of(p)[j] as int) == Some(p as usize));
    }

    /// The ancestor chain of a node has one entry per level of depth. It starts
    /// at the node itself, each entry is followed by its parent, and it stops
    /// at a child of a root, so the root's own value is left out; a root's
    /// chain is empty.
    pub proof fn lemma_ancestor_chain(&self, i: int)
        requires
            self.wf(),
            0 <= i < self.size(),
        ensures
            self.vertical(i).len() == self.depth_of(i),
            forall|k: int| 0 <= k < self.chain(i).len() ==> #[trigger] self.vertical(i)[k] == self.value_of(self.chain(i)[k]),
            self.chain(i).len() == 0 <==> self.is_root_node(i),
            self.chain(i).len() > 0 ==> self.chain(i)[0] == i,
            forall|k: int| 0 <= k < self.chain(i).len() - 1 ==> #[trigger] self.parent_of(self.chain(i)[k]) == Some(self.chain(i)[k + 1] as usize),
            self.chain(i).len() > 0 ==> {
                let l = self.chain(i).last();
                &&& self.parent_of(l) is Some
                &&& self.is_root_node(self.parent_of(l)->0 as int)
            },
        decreases self.rank_of(i),
    {
        self.lemma_chain_ranks(i);
        match self.parent_of(i) {
            None => {},
            Some(p) => {
                let p = p as int;
                self.lemma_ancestor_chain(p);
                let c = self.chain(i);
                let d = self.chain(p);
                assert forall|k: int| 0 <= k < c.len() - 1 implies #[trigger] self.parent_of(c[k]) == Some(c[k + 1] as usize) by {
                    assert(c[k + 1] == d[k]);
                    if k > 0 {
                        assert(c[k] == d[k - 1]);
                    } else if d.len() == 0 {
                    } else {
                        assert(d[0] == p);
                    }
                }
                if d.len() == 0 {
                    assert(c.last() == i);
                } else {
                    assert(c.last() == d.last());
                }
            },
        }
    }

    /// After `x` is moved under `dest`, `x` is listed exactly once among the
    /// children of `dest` and among the children of no other node, in
    /// particular not under its former parent.
    pub proof fn lemma_move_result(o: Self, t: Self, x: int, dest: int)
        requires
            o.wf(),
            0 <= x < o.size(),
            0 <= dest < o.size(),
            t.size() == o.size(),
            t.parent_of(x) == Some(dest as usize),
            forall|i: int| 0 <= i < o.size() ==> #[trigger] t.children_of(i) == if i == dest {
                o.detached(x, i).push(x as usize)
            } else {
                o.detached(x, i)
            },
        ensures
            t.children_of(dest).contains(x as usize),
            forall|a: int, b: int|
                0 <= a < t.children_of(dest).len() && 0 <= b < t.children_of(dest).len()
                && t.children_of(dest)[a] == x as usize && t.children_of(dest)[b] == x as usize
                ==> a == b,
            forall|q: int| 0 <= q < o.size() && q != dest ==> !(#[trigger] t.children_of(q)).contains(x as usize),
    {
        o.lemma_detached(x, dest);
        let d = o.detached(x, dest);
        let e = t.children_of(dest);
        assert(e[d.len() as int] == x as usize);
        assert forall|a: int| 0 <= a < e.len() && e[a] == x as usize implies a == d.len() by {
            if a < d.len() {
                assert(d[a] == e[a]);
            }
        }
        assert forall|q: int| 0 <= q < o.size() && q != dest implies !(#[trigger] t.children_of(q)).contains(x as usize) by {
            o.lemma_detached(x, q);
        }
    }

    /// Moving `x` under `dest`, where `dest` is outside the subtree of `x`,
    /// keeps the arena well formed.
    proof fn lemma_move_wf(o: Self, t: Self, x: int, dest: int)
        requires
            o.wf(),
            0 <= x < o.size(),
            0 <= dest < o.size(),
            !o.is_desc(dest, x),
            t.sizes_agree(),
            t.size() == o.size(),
            t.parent_of(x) == Some(dest as usize),
            forall|i: int| 0 <= i < o.size() && i != x ==> #[trigger] t.parent_of(i) == o.parent_of(i),
            forall|i: int| 0 <= i < o.size() ==> #[trigger] t.children_of(i) == if i == dest {
                o.detached(x, i).push(x as usize)
            } else {
                o.detached(x, i)
            },
            forall|i: int| 0 <= i < o.size() ==> #[trigger] t.rank_of(i) == if o.is_desc(i, x) {
                o.rank_of(i) + o.rank_of(dest) + 1
            } else {
                o.rank_of(i)
            },
        ensures
            t.wf(),
    {
        let n = o.size() as int;
        assert(o.anc(x, 0) == Some(x));
        assert forall|i: int| 0 <= i < n implies {
            &&& (#[trigger] o.detached(x, i)).no_duplicates()
            &&& !o.detached(x, i).contains(x as usize)
            &&& forall|y: usize| y != x ==> (o.detached(x, i).contains(y) <==> o.children_of(i).contains(y))
        } by {
            o.lemma_detached(x, i);
        }
        assert forall|i: int|
            0 <= i < t.size() && #[trigger] t.parent_of(i) is Some implies {
                let p = t.parent_of(i)->0 as int;
                &&& 0 <= p < t.size()
                &&& t.rank_of(p) < t.rank_of(i)
                &&& t.children_of(p).contains(i as usize)
            } by {
            if i == x {
                assert(t.children_of(dest).last() == x as usize);
                assert(t.children_of(dest)[t.children_of(dest).len() - 1] == x as usize);
                assert(o.is_desc(x, x));
            } else {
                assert(o.parent_of(i) is Some);
                let p = o.parent_of(i)->0 as int;
                o.lemma_desc_step(i, x);
                assert(o.children_of(p).contains(i as usize));
                assert(o.detached(x, p).contains(i as usize));
                let d = o.detached(x, p);
                let j = choose|j: int| 0 <= j < d.len() && d[j] == i as usize;
                assert(t.children_of(p)[j] == i as usize);
            }
        }
        assert forall|p: int, j: int|
            0 <= p < t.size() && 0 <= j < t.children_of(p).len() implies {
                let c = #[trigger] t.children_of(p)[j];
                &&& c < t.size()
                &&& t.parent_of(c as int) == Some(p as usize)
            } by {
            let d = o.detached(x, p);
            if p == dest && j == d.len() {
            } else {
                let c = d[j];
                assert(t.children_of(p)[j] == c);
                assert(d.contains(c));
                assert(c != x);
                assert(o.children_of(p).contains(c));
                let j2 = choose|j2: int| 0 <= j2 < o.children_of(p).len() && o.children_of(p)[j2] == c;
                assert(o.parent_of(o.children_of(p)[j2] as int) == Some(p as usize));
            }
        }
        assert forall|p: int| 0 <= p < t.size() implies (#[trigger] t.children_of(p)).no_duplicates() by {
            let d = o.detached(x, p);
            if p == dest {
                let e = d.push(x as usize);
                assert forall|a: int, b: int| 0 <= a < e.len() && 0 <= b < e.len() && a != b implies e[a] != e[b] by {
                    if a < d.len() && b < d.len() {
                        assert(e[a] == d[a] && e[b] == d[b]);
                    } else if a < d.len() {
                        assert(d.contains(e[a]));
                    } else {
                        assert(d.contains(e[b]));
                    }
                }
            }
        }
    }

    /// Detaches node `x` from its parent, if any, and attaches it as the last
    /// child of `dest`, unless `dest` lies in the subtree of `x`.
    fn relocate(&mut self, x: usize, dest: usize) -> (r: Result<(), TreeError>)
        requires
            old(self).wf(),
            x < old(self).size(),
            dest < old(self).size(),
        ensures
            final(self).wf(),
            final(self).size() == old(self).size(),
            forall|i: int| 0 <= i < old(self).size() ==> #[trigger] final(self).value_of(i) == old(self).value_of(i),
            r is Err <==> old(self).is_desc(dest as int, x as int),
            r matches Err(e) ==> e == TreeError::WouldCreateCycle && *final(self) == *old(self),
            r is Ok ==> {
                &&& final(self).parent_of(x as int) == Some(dest)
                &&& forall|i: int| 0 <= i < old(self).size() && i != x ==> #[trigger] final(self).parent_of(i) == old(self).parent_of(i)
                &&& forall|i: int| 0 <= i < old(self).size() ==> #[trigger] final(self).children_of(i) == if i == dest {
                    old(self).detached(x as int, i).push(x)
                } else {
                    old(self).detached(x as int, i)
                }
            },
    {
        let ghost o = *self;
        let mut cur: usize = dest;
        while cur != x && self.parents[cur].is_some()
            invariant
                *self == o,
                o.wf(),
                x < o.size(),
                dest < o.size(),
                cur < o.size(),
                o.is_desc(dest as int, x as int) == o.is_desc(cur as int, x as int),
            decreases o.rank_of(cur as int),
        {
            proof {
                o.lemma_desc_step(cur as int, x as int);
            }
            cur = self.parents[cur].unwrap();
        }
        if cur == x {
            assert(o.anc(x as int, 0) == Some(x as int));
            return Err(TreeError::WouldCreateCycle);
        }
        proof {
            o.lemma_root_not_desc(cur as int, x as int);
        }
        match self.parents[x] {
            None => {},
            Some(q) => {
                let mut j: usize = 0;
                let len = self.kids[q].len();
                while self.kids[q][j] != x
                    invariant
                        *self == o,
                        len == o.children_of(q as int).len(),
                        o.wf(),
                        x < o.size(),
                        o.parent_of(x as int) == Some(q),
                        j < o.children_of(q as int).len(),
                        forall|k: int| 0 <= k < j ==> o.children_of(q as int)[k] != x,
                    decreases o.children_of(q as int).len() - j,
                {
                    proof {
                        assert(o.children_of(q as int).contains(x));
                        let a = choose|a: int| 0 <= a < o.children_of(q as int).len() && o.children_of(q as int)[a] == x;
                        assert(a > j);
                    }
                    j = j + 1;
                }
                proof {
                    Self::lemma_remove_at(o.children_of(q as int), j as int);
                }
                self.kids[q].remove(j);
            },
        }
        self.kids[dest].push(x);
        self.parents.set(x, Some(dest));
        let ghost b = o.rank_of(dest as int) + 1;
        self.rank = Ghost(Seq::new(o.size(), |i: int| if o.is_desc(i, x as int) { o.rank_of(i) + b } else { o.rank_of(i) }));
        proof {
            assert forall|i: int| 0 <= i < o.size() implies #[trigger] self.children_of(i) == if i == dest {
                o.detached(x as int, i).push(x)
            } else {
                o.detached(x as int, i)
            } by {
            }
            Self::lemma_move_wf(o, *self, x as int, dest as int);
        }
        Ok(())
    }

    /// Creates an empty arena.
    pub fn new() -> (r: Self)
        ensures
            r.wf(),
            r.size() == 0,
    {
        Tree { vals: Vec::new(), parents: Vec::new(), kids: Vec::new(), rank: Ghost(Seq::empty()) }
    }

    /// Number of nodes stored in the arena.
    pub fn node_count(&self) -> (r: usize)
        requires
            self.wf(),
        ensures
            r == self.size(),
    {
        self.vals.len()
    }

    /// Appends a node to the arena and returns its id.
    fn add_node(&mut self, v: T, parent: Option<usize>, Ghost(rk): Ghost<nat>) -> (r: usize)
        requires
            old(self).sizes_agree(),
            old(self).size() < usize::MAX,
        ensures
            final(self).sizes_agree(),
            r == old(self).size(),
            final(self).vals@ == old(self).vals@.push(v),
            final(self).parents@ == old(self).parents@.push(parent),
            final(self).kids@.len() == old(self).kids@.len() + 1,
            forall|i: int| 0 <= i < old(self).size() ==> #[trigger] final(self).kids@[i] == old(self).kids@[i],
            final(self).kids@[r as int]@ == Seq::<usize>::empty(),
            final(self).rank@ == old(self).rank@.push(rk),
    {
        let r = self.vals.len();
        self.vals.push(v);
        self.parents.push(parent);
        self.kids.push(Vec::new());
        self.rank = Ghost(self.rank@.push(rk));
        r
    }

    /// Adds a fresh node holding `v` as the last child of `p`.
    fn push_child(&mut self, p: usize, v: T) -> (r: usize)
        requires
            old(self).wf(),
            p < old(self).size(),
            old(self).size() < usize::MAX,
        ensures
            final(self).wf(),
            r == old(self).size(),
            final(self).size() == old(self).size() + 1,
            final(self).value_of(r as int) == v,
            final(self).parent_of(r as int) == Some(p),
            final(self).children_of(r as int) == Seq::<usize>::empty(),
            final(self).children_of(p as int) == old(self).children_of(p as int).push(r),
            forall|i: int| 0 <= i < old(self).size() ==> #[trigger] final(self).value_of(i) == old(self).value_of(i),
            forall|i: int| 0 <= i < old(self).size() ==> #[trigger] final(self).parent_of(i) == old(self).parent_of(i),
            forall|i: int| 0 <= i < old(self).size() && i != p ==> #[trigger] final(self).children_of(i) == old(self).children_of(i),
    {
        let ghost pre = *self;
        let ghost rk = self.rank@[p as int] + 1;
        let c = self.add_node(v, Some(p), Ghost(rk));
        self.kids[p].push(c);
        proof {
            let n = pre.size() as int;
            assert forall|i: int| 0 <= i < n && i != p implies #[trigger] self.children_of(i) == pre.children_of(i) by {
            }
            assert forall|i: int|
                0 <= i < self.size() && #[trigger] self.parent_of(i) is Some implies {
                    let q = self.parent_of(i)->0 as int;
                    &&& 0 <= q < self.size()
                    &&& self.rank_of(q) < self.rank_of(i)
                    &&& self.children_of(q).contains(i as usize)
                } by {
                if i < n {
                    assert(pre.parent_of(i) is Some);
                    let q = self.parent_of(i)->0 as int;
                    if q == p {
                        let j = choose|j: int| 0 <= j < pre.children_of(q).len() && pre.children_of(q)[j] == i as usize;
                        assert(self.children_of(q)[j] == i as usize);
                    }
                } else {
                    assert(self.children_of(p as int)[pre.children_of(p as int).len() as int] == c);
                }
            }
            assert forall|q: int, j: int|
                0 <= q < self.size() && 0 <= j < self.children_of(q).len() implies {
                    let d = #[trigger] self.children_of(q)[j];
                    &&& d < self.size()
                    &&& self.parent_of(d as int) == Some(q as usize)
                } by {
                if q != p {
                    assert(q < n);
                    assert(pre.children_of(q)[j] == self.children_of(q)[j]);
                } else if j < pre.children_of(q).len() {
                    assert(pre.children_of(q)[j] == self.children_of(q)[j]);
                }
            }
            assert forall|q: int| 0 <= q < self.size() implies (#[trigger] self.children_of(q)).no_duplicates() by {
                if q == p {
                    assert forall|a: int, b: int|
                        0 <= a < self.children_of(q).len() && 0 <= b < self.children_of(q).len() && a != b
                        implies self.children_of(q)[a] != self.children_of(q)[b] by {
                        let m = pre.children_of(q).len() as int;
                        if a < m {
                            assert(pre.children_of(q)[a] < n);
                        }
                        if b < m {
                            assert(pre.children_of(q)[b] < n);
                        }
                    }
                } else if q < n {
                    assert(pre.children_of(q) == self.children_of(q));
                }
            }
        }
        c
    }
}

impl<T: PartialEq> Tree<T> {
    /// The first id in `s` whose node holds a value equal to `val`.
    pub open spec fn first_match(&self, s: Seq<usize>, val: T) -> Option<usize>
        decreases s.len(),
    {
        if s.len() == 0 {
            None
        } else if self.value_of(s[0] as int).eq_spec(&val) {
            Some(s[0])
        } else {
            self.first_match(s.drop_first(), val)
        }
    }

    proof fn lemma_first_match_push(&self, s: Seq<usize>, c: usize, val: T)
        requires
            self.value_of(c as int).eq_spec(&val),
            forall|k: int| 0 <= k < s.len() ==> !#[trigger] self.value_of(s[k] as int).eq_spec(&val),
        ensures
            self.first_match(s.push(c), val) == Some(c),
        decreases s.len(),
    {
        if s.len() > 0 {
            assert(s.push(c).drop_first() =~= s.drop_first().push(c));
            assert forall|k: int| 0 <= k < s.drop_first().len() implies !#[trigger] self.value_of(s.drop_first()[k] as int).eq_spec(&val) by {
                assert(s.drop_first()[k] == s[k + 1]);
            }
            self.lemma_first_match_push(s.drop_first(), c, val);
        }
    }

    /// After a value is pushed under `p`, searching the children of `p` for a
    /// value equal to it finds the new node, provided that no earlier child of
    /// `p` held an equal value and that the value equals itself.
    pub proof fn lemma_push_then_find(before: Self, after: Self, p: int, c: usize, v: T)
        requires
            before.wf(),
            0 <= p < before.size(),
            c == before.size(),
            after.children_of(p) == before.children_of(p).push(c),
            after.value_of(c as int) == v,
            forall|i: int| 0 <= i < before.size() ==> #[trigger] after.value_of(i) == before.value_of(i),
            v.eq_spec(&v),
            forall|k: int| 0 <= k < before.children_of(p).len()
                ==> !#[trigger] before.value_of(before.children_of(p)[k] as int).eq_spec(&v),
        ensures
            after.first_match(after.children_of(p), v) == Some(c),
    {
        let s = before.children_of(p);
        assert forall|k: int| 0 <= k < s.len() implies !#[trigger] after.value_of(s[k] as int).eq_spec(&v) by {
            assert(s[k] < before.size());
            assert(before.value_of(s[k] as int) == after.value_of(s[k] as int));
        }
        after.lemma_first_match_push(s, c, v);
    }
}

impl TreeNodeRef {
    /// Creates a new root node holding `v`.
    pub fn new<T>(tree: &mut Tree<T>, v: T) -> (r: TreeNodeRef)
        requires
            old(tree).wf(),
            old(tree).size() < usize::MAX,
        ensures
            final(tree).wf(),
            r.id == old(tree).size(),
            final(tree).size() == old(tree).size() + 1,
            final(tree).value_of(r.id as int) == v,
            final(tree).is_root_node(r.id as int),
            final(tree).children_of(r.id as int) == Seq::<usize>::empty(),
            forall|i: int| 0 <= i < old(tree).size() ==> #[trigger] final(tree).value_of(i) == old(tree).value_of(i),
            forall|i: int| 0 <= i < old(tree).size() ==> #[trigger] final(tree).parent_of(i) == old(tree).parent_of(i),
            forall|i: int| 0 <= i < old(tree).size() ==> #[trigger] final(tree).children_of(i) == old(tree).children_of(i),
    {
        let id = tree.add_node(v, None, Ghost(0));
        proof {
            assert forall|i: int|
                0 <= i < tree.size() && #[trigger] tree.parent_of(i) is Some implies {
                    let p = tree.parent_of(i)->0 as int;
                    &&& 0 <= p < tree.size()
                    &&& tree.rank_of(p) < tree.rank_of(i)
                    &&& tree.children_of(p).contains(i as usize)
                } by {
                assert(i < old(tree).size());
                assert(old(tree).parent_of(i) is Some);
            }
            assert forall|p: int, j: int|
                0 <= p < tree.size() && 0 <= j < tree.children_of(p).len() implies {
                    let c = #[trigger] tree.children_of(p)[j];
                    &&& c < tree.size()
                    &&& tree.parent_of(c as int) == Some(p as usize)
                } by {
                assert(p < old(tree).size());
                assert(old(tree).children_of(p)[j] == tree.children_of(p)[j]);
            }
            assert forall|p: int| 0 <= p < tree.size() implies (#[trigger] tree.children_of(p)).no_duplicates() by {
                if p < old(tree).size() {
                    assert(old(tree).children_of(p) == tree.children_of(p));
                }
            }
        }
        TreeNodeRef { id }
    }

    /// A copy of the value stored in this node.
    pub fn val<T: Clone>(&self, tree: &Tree<T>) -> (r: T)
        requires
            tree.wf(),
            tree.valid(*self),
        ensures
            cloned(tree.value_of(self.id as int), r),
    {
        tree.vals[self.id].clone()
    }

    /// Replaces the value stored in this node.
    pub fn set_val<T>(&self, tree: &mut Tree<T>, val: T)
        requires
            old(tree).wf(),
            old(tree).valid(*self),
        ensures
            final(tree).wf(),
            final(tree).size() == old(tree).size(),
            final(tree).value_of(self.id as int) == val,
            forall|i: int| 0 <= i < old(tree).size() && i != self.id ==> #[trigger] final(tree).value_of(i) == old(tree).value_of(i),
            forall|i: int| 0 <= i < old(tree).size() ==> #[trigger] final(tree).parent_of(i) == old(tree).parent_of(i),
            forall|i: int| 0 <= i < old(tree).size() ==> #[trigger] final(tree).children_of(i) == old(tree).children_of(i),
    {
        tree.vals.set(self.id, val);
        proof {
            Tree::lemma_same_shape(*old(tree), *tree);
        }
    }

    /// The parent of this node, or `None` for a root.
    pub fn parent<T>(&self, tree: &Tree<T>) -> (r: Option<TreeNodeRef>)
        requires
            tree.wf(),
            tree.valid(*self),
        ensures
            r is None <==> tree.is_root_node(self.id as int),
            r matches Some(h) ==> tree.parent_of(self.id as int) == Some(h.id) && tree.valid(h),
    {
        match tree.parents[self.id] {
            None => None,
            Some(p) => Some(TreeNodeRef { id: p }),
        }
    }

    /// Number of children of this node.
    pub fn len<T>(&self, tree: &Tree<T>) -> (r: usize)
        requires
            tree.wf(),
            tree.valid(*self),
        ensures
            r == tree.children_of(self.id as int).len(),
    {
        tree.kids[self.id].len()
    }

    /// Whether this node has no parent.
    pub fn is_root<T>(&self, tree: &Tree<T>) -> (r: bool)
        requires
            tree.wf(),
            tree.valid(*self),
        ensures
            r == tree.is_root_node(self.id as int),
    {
        tree.parents[self.id].is_none()
    }

    /// Whether this node has at least one child.
    pub fn has_children<T>(&self, tree: &Tree<T>) -> (r: bool)
        requires
            tree.wf(),
            tree.valid(*self),
        ensures
            r == (tree.children_of(self.id as int).len() > 0),
    {
        tree.kids[self.id].len() > 0
    }

    /// Adds a new node holding `v` as the last child of this node and returns
    /// a handle to it.
    pub fn push<T>(&self, tree: &mut Tree<T>, v: T) -> (r: TreeNodeRef)
        requires
            old(tree).wf(),
            old(tree).valid(*self),
            old(tree).size() < usize::MAX,
        ensures
            final(tree).wf(),
            r.id == old(tree).size(),
            final(tree).size() == old(tree).size() + 1,
            final(tree).value_of(r.id as int) == v,
            final(tree).parent_of(r.id as int) == Some(self.id),
            final(tree).children_of(r.id as int) == Seq::<usize>::empty(),
            final(tree).children_of(self.id as int) == old(tree).children_of(self.id as int).push(r.id),
            forall|i: int| 0 <= i < old(tree).size() ==> #[trigger] final(tree).value_of(i) == old(tree).value_of(i),
            forall|i: int| 0 <= i < old(tree).size() ==> #[trigger] final(tree).parent_of(i) == old(tree).parent_of(i),
            forall|i: int| 0 <= i < old(tree).size() && i != self.id ==> #[trigger] final(tree).children_of(i) == old(tree).children_of(i),
    {
        let id = tree.push_child(self.id, v);
        TreeNodeRef { id }
    }

    /// A snapshot of this node's children, in order.
    pub fn children<T>(&self, tree: &Tree<T>) -> (r: Vec<TreeNodeRef>)
        requires
            tree.wf(),
            tree.valid(*self),
        ensures
            r@.len() == tree.children_of(self.id as int).len(),
            forall|j: int| 0 <= j < r@.len() ==> (#[trigger] r@[j]).id == tree.children_of(self.id as int)[j],
    {
        let list = &tree.kids[self.id];
        let mut r: Vec<TreeNodeRef> = Vec::new();
        let mut j: usize = 0;
        while j < list.len()
            invariant
                j <= list@.len(),
                list@ == tree.children_of(self.id as int),
                r@.len() == j,
                forall|k: int| 0 <= k < j ==> (#[trigger] r@[k]).id == list@[k],
            decreases list@.len() - j,
        {
            r.push(TreeNodeRef { id: list[j] });
            j = j + 1;
        }
        r
    }

    /// The first child of this node whose value equals `val`, if any.
    pub fn find<T: PartialEq>(&self, tree: &Tree<T>, val: T) -> (r: Option<TreeNodeRef>)
        requires
            tree.wf(),
            tree.valid(*self),
        ensures
            T::obeys_eq_spec() ==> match r {
                Some(h) => tree.first_match(tree.children_of(self.id as int), val) == Some(h.id),
                None => tree.first_match(tree.children_of(self.id as int), val) is None,
            },
            r matches Some(h) ==> tree.valid(h),
    {
        let list = &tree.kids[self.id];
        let ghost all = list@;
        assert(all.subrange(0, all.len() as int) =~= all);
        let mut j: usize = 0;
        while j < list.len()
            invariant
                tree.wf(),
                tree.valid(*self),
                j <= list@.len(),
                list@ == all,
                all == tree.children_of(self.id as int),
                T::obeys_eq_spec() ==> tree.first_match(all, val) == tree.first_match(all.subrange(j as int, all.len() as int), val),
            decreases list@.len() - j,
        {
            let c = list[j];
            let same = tree.vals[c].eq(&val);
            let ghost rest = all.subrange(j as int, all.len() as int);
            assert(rest[0] == c);
            if same {
                proof {
                    if T::obeys_eq_spec() {
                        assert(tree.first_match(rest, val) == Some(c));
                    }
                }
                return Some(TreeNodeRef { id: c });
            }
            proof {
                assert(rest.drop_first() =~= all.subrange(j + 1, all.len() as int));
                if T::obeys_eq_spec() {
                    assert(tree.first_match(rest, val) == tree.first_match(rest.drop_first(), val));
                }
            }
            j = j + 1;
        }
        proof {
            assert(all.subrange(j as int, all.len() as int) =~= Seq::<usize>::empty());
        }
        None
    }

    /// Number of parent hops from this node to its root.
    pub fn depth<T>(&self, tree: &Tree<T>) -> (r: usize)
        requires
            tree.wf(),
            tree.valid(*self),
        ensures
            r == tree.depth_of(self.id as int),
    {
        proof {
            tree.lemma_depth_bounded(self.id as int);
        }
        let mut count: usize = 0;
        let mut cur: usize = self.id;
        while tree.parents[cur].is_some()
            invariant
                tree.wf(),
                cur < tree.size(),
                tree.depth_of(self.id as int) <= tree.size(),
                tree.size() <= usize::MAX,
                count + tree.depth_of(cur as int) == tree.depth_of(self.id as int),
            decreases tree.rank_of(cur as int),
        {
            cur = tree.parents[cur].unwrap();
            count = count + 1;
        }
        count
    }

    /// The values of this node and its ancestors, nearest first, excluding the
    /// root's own value; empty for a root.
    pub fn to_vertical_vec<T: Clone>(&self, tree: &Tree<T>) -> (r: Vec<T>)
        requires
            tree.wf(),
            tree.valid(*self),
        ensures
            r@.len() == tree.vertical(self.id as int).len(),
            forall|k: int| 0 <= k < r@.len() ==> cloned(#[trigger] tree.vertical(self.id as int)[k], r@[k]),
    {
        let mut r: Vec<T> = Vec::new();
        let mut cur: usize = self.id;
        let ghost seen: Seq<int> = Seq::empty();
        while tree.parents[cur].is_some()
            invariant
                tree.wf(),
                cur < tree.size(),
                tree.chain(self.id as int) == seen + tree.chain(cur as int),
                r@.len() == seen.len(),
                forall|k: int| 0 <= k < seen.len() ==> cloned(tree.value_of(#[trigger] seen[k]), r@[k]),
            decreases tree.rank_of(cur as int),
        {
            r.push(tree.vals[cur].clone());
            proof {
                assert(tree.chain(cur as int)[0] == cur as int);
                seen = seen.push(cur as int);
                assert(tree.chain(self.id as int) == seen + tree.chain(tree.parent_of(cur as int)->0 as int));
            }
            cur = tree.parents[cur].unwrap();
        }
        proof {
            assert(seen == tree.chain(self.id as int));
        }
        r
    }

    /// Moves this node from its current parent, if any, to the end of
    /// `dest`'s children. Refused when `dest` is this node or one of its
    /// descendants, which would make the node its own ancestor.
    pub fn move_to<T>(&self, tree: &mut Tree<T>, dest: &TreeNodeRef) -> (r: Result<(), TreeError>)
        requires
            old(tree).wf(),
            old(tree).valid(*self),
            old(tree).valid(*dest),
        ensures
            final(tree).wf(),
            final(tree).size() == old(tree).size(),
            forall|i: int| 0 <= i < old(tree).size() ==> #[trigger] final(tree).value_of(i) == old(tree).value_of(i),
            r is Err <==> old(tree).is_desc(dest.id as int, self.id as int),
            r matches Err(e) ==> e == TreeError::WouldCreateCycle && *final(tree) == *old(tree),
            r is Ok ==> {
                &&& final(tree).parent_of(self.id as int) == Some(dest.id)
                &&& forall|i: int| 0 <= i < old(tree).size() && i != self.id ==> #[trigger] final(tree).parent_of(i) == old(tree).parent_of(i)
                &&& forall|i: int| 0 <= i < old(tree).size() ==> #[trigger] final(tree).children_of(i) == if i == dest.id {
                    old(tree).detached(self.id as int, i).push(self.id)
                } else {
                    old(tree).detached(self.id as int, i)
                }
            },
    {
        tree.relocate(self.id, dest.id)
    }

    /// Attaches `r` as the last child of this node and returns it. The node's
    /// parent link is updated in the same step, as `move_to` does.
    pub fn push_ref<T>(&self, tree: &mut Tree<T>, r: TreeNodeRef) -> (res: Result<TreeNodeRef, TreeError>)
        requires
            old(tree).wf(),
            old(tree).valid(*self),
            old(tree).valid(r),
        ensures
            final(tree).wf(),
            final(tree).size() == old(tree).size(),
            forall|i: int| 0 <= i < old(tree).size() ==> #[trigger] final(tree).value_of(i) == old(tree).value_of(i),
            res is Err <==> old(tree).is_desc(self.id as int, r.id as int),
            res matches Err(e) ==> e == TreeError::WouldCreateCycle && *final(tree) == *old(tree),
            res matches Ok(h) ==> {
                &&& h == r
                &&& final(tree).parent_of(r.id as int) == Some(self.id)
                &&& forall|i: int| 0 <= i < old(tree).size() && i != r.id ==> #[trigger] final(tree).parent_of(i) == old(tree).parent_of(i)
                &&& forall|i: int| 0 <= i < old(tree).size() ==> #[trigger] final(tree).children_of(i) == if i == self.id {
                    old(tree).detached(r.id as int, i).push(r.id)
                } else {
                    old(tree).detached(r.id as int, i)
                }
            },
    {
        match r.move_to(tree, self) {
            Ok(()) => Ok(r),
            Err(e) => Err(e),
        }
    }

    /// Adds one child of this node per value of `v`, in order, and returns the
    /// last one. Fails with `EmptyInput` when `v` is empty.
    pub fn push_children<T: Clone>(&self, tree: &mut Tree<T>, v: &Vec<T>) -> (r: Result<TreeNodeRef, TreeError>)
        requires
            old(tree).wf(),
            old(tree).valid(*self),
            old(tree).size() + v@.len() < usize::MAX,
        ensures
            final(tree).wf(),
            r is Err <==> v@.len() == 0,
            r matches Err(e) ==> e == TreeError::EmptyInput && *final(tree) == *old(tree),
            r matches Ok(h) ==> h.id == old(tree).size() + v@.len() - 1,
            final(tree).size() == old(tree).size() + v@.len(),
            final(tree).children_of(self.id as int) == old(tree).children_of(self.id as int)
                + Seq::new(v@.len(), |k: int| (old(tree).size() + k) as usize),
            forall|k: int| 0 <= k < v@.len() ==> {
                &&& #[trigger] final(tree).parent_of(old(tree).size() + k) == Some(self.id)
                &&& cloned(v@[k], final(tree).value_of(old(tree).size() + k))
                &&& final(tree).children_of(old(tree).size() + k) == Seq::<usize>::empty()
            },
            forall|i: int| 0 <= i < old(tree).size() ==> #[trigger] final(tree).value_of(i) == old(tree).value_of(i),
            forall|i: int| 0 <= i < old(tree).size() ==> #[trigger] final(tree).parent_of(i) == old(tree).parent_of(i),
            forall|i: int| 0 <= i < old(tree).size() && i != self.id ==> #[trigger] final(tree).children_of(i) == old(tree).children_of(i),
    {
        if v.len() == 0 {
            assert(Seq::new(v@.len(), |k: int| (old(tree).size() + k) as usize) =~= Seq::<usize>::empty());
            assert(tree.children_of(self.id as int) =~= tree.children_of(self.id as int) + Seq::<usize>::empty());
            return Err(TreeError::EmptyInput);
        }
        let ghost o = *tree;
        let n0 = tree.vals.len();
        let mut last: usize = 0;
        let mut k: usize = 0;
        assert(tree.children_of(self.id as int) =~= o.children_of(self.id as int)
            + Seq::new(0, |t: int| (n0 + t) as usize));
        while k < v.len()
            invariant
                tree.wf(),
                self.id < o.size(),
                n0 == o.size(),
                o.size() + v@.len() < usize::MAX,
                k <= v@.len(),
                tree.size() == n0 + k,
                k > 0 ==> last == n0 + k - 1,
                tree.children_of(self.id as int) == o.children_of(self.id as int)
                    + Seq::new(k as nat, |t: int| (n0 + t) as usize),
                forall|t: int| 0 <= t < k ==> {
                    &&& #[trigger] tree.parent_of(n0 + t) == Some(self.id)
                    &&& cloned(v@[t], tree.value_of(n0 + t))
                    &&& tree.children_of(n0 + t) == Seq::<usize>::empty()
                },
                forall|i: int| 0 <= i < o.size() ==> #[trigger] tree.value_of(i) == o.value_of(i),
                forall|i: int| 0 <= i < o.size() ==> #[trigger] tree.parent_of(i) == o.parent_of(i),
                forall|i: int| 0 <= i < o.size() && i != self.id ==> #[trigger] tree.children_of(i) == o.children_of(i),
            decreases v@.len() - k,
        {
            let ghost before = *tree;
            let item = v[k].clone();
            last = tree.push_child(self.id, item);
            proof {
                assert forall|t: int| 0 <= t < k + 1 implies {
                    &&& #[trigger] tree.parent_of(n0 + t) == Some(self.id)
                    &&& cloned(v@[t], tree.value_of(n0 + t))
                    &&& tree.children_of(n0 + t) == Seq::<usize>::empty()
                } by {
                    if t < k {
                        assert(before.parent_of(n0 + t) == Some(self.id));
                    }
                }
                assert(tree.children_of(self.id as int) =~= o.children_of(self.id as int)
                    + Seq::new((k + 1) as nat, |t: int| (n0 + t) as usize));
            }
            k = k + 1;
        }
        Ok(TreeNodeRef { id: last })
    }

    /// Builds a downward chain below this node, one node per value of `v`,
    /// each the only child of the one before, and returns the deepest node;
    /// returns this node when `v` is empty.
    pub fn push_vertical<T: Clone>(&self, tree: &mut Tree<T>, v: &Vec<T>) -> (r: TreeNodeRef)
        requires
            old(tree).wf(),
            old(tree).valid(*self),
            old(tree).size() + v@.len() < usize::MAX,
        ensures
            final(tree).wf(),
            final(tree).size() == old(tree).size() + v@.len(),
            v@.len() == 0 ==> r == *self && *final(tree) == *old(tree),
            v@.len() > 0 ==> r.id == old(tree).size() + v@.len() - 1,
            v@.len() > 0 ==> final(tree).children_of(self.id as int) == old(tree).children_of(self.id as int).push(old(tree).size() as usize),
            forall|k: int| 0 <= k < v@.len() ==> {
                &&& #[trigger] final(tree).parent_of(old(tree).size() + k) == Some(if k == 0 { self.id } else { (old(tree).size() + k - 1) as usize })
                &&& cloned(v@[k], final(tree).value_of(old(tree).size() + k))
                &&& final(tree).children_of(old(tree).size() + k) == if k + 1 < v@.len() {
                    seq![(old(tree).size() + k + 1) as usize]
                } else {
                    Seq::<usize>::empty()
                }
            },
            forall|i: int| 0 <= i < old(tree).size() ==> #[trigger] final(tree).value_of(i) == old(tree).value_of(i),
            forall|i: int| 0 <= i < old(tree).size() ==> #[trigger] final(tree).parent_of(i) == old(tree).parent_of(i),
            forall|i: int| 0 <= i < old(tree).size() && i != self.id ==> #[trigger] final(tree).children_of(i) == old(tree).children_of(i),
    {
        let ghost o = *tree;
        let n0 = tree.vals.len();
        let mut cur: usize = self.id;
        let mut k: usize = 0;
        while k < v.len()
            invariant
                tree.wf(),
                self.id < o.size(),
                n0 == o.size(),
                o.size() + v@.len() < usize::MAX,
                k <= v@.len(),
                tree.size() == n0 + k,
                cur == if k == 0 { self.id } else { (n0 + k - 1) as usize },
                k == 0 ==> *tree == o,
                k > 0 ==> tree.children_of(self.id as int) == o.children_of(self.id as int).push(n0 as usize),
                forall|t: int| 0 <= t < k ==> {
                    &&& #[trigger] tree.parent_of(n0 + t) == Some(if t == 0 { self.id } else { (n0 + t - 1) as usize })
                    &&& cloned(v@[t], tree.value_of(n0 + t))
                    &&& tree.children_of(n0 + t) == if t + 1 < k {
                        seq![(n0 + t + 1) as usize]
                    } else {
                        Seq::<usize>::empty()
                    }
                },
                forall|i: int| 0 <= i < o.size() ==> #[trigger] tree.value_of(i) == o.value_of(i),
                forall|i: int| 0 <= i < o.size() ==> #[trigger] tree.parent_of(i) == o.parent_of(i),
                forall|i: int| 0 <= i < o.size() && i != self.id ==> #[trigger] tree.children_of(i) == o.children_of(i),
            decreases v@.len() - k,
        {
            let ghost before = *tree;
            let item = v[k].clone();
            let c = tree.push_child(cur, item);
            proof {
                assert forall|t: int| 0 <= t < k + 1 implies {
                    &&& #[trigger] tree.parent_of(n0 + t) == Some(if t == 0 { self.id } else { (n0 + t - 1) as usize })
                    &&& cloned(v@[t], tree.value_of(n0 + t))
                    &&& tree.children_of(n0 + t) == if t + 1 < k + 1 {
                        seq![(n0 + t + 1) as usize]
                    } else {
                        Seq::<usize>::empty()
                    }
                } by {
                    if t < k {
                        assert(before.parent_of(n0 + t) == Some(if t == 0 { self.id } else { (n0 + t - 1) as usize }));
                        if t + 1 == k {
                            assert(tree.children_of(n0 + t) =~= seq![(n0 + t + 1) as usize]);
                        }
                    }
                }
            }
            cur = c;
            k = k + 1;
        }
        TreeNodeRef { id: cur }
    }

    /// The weak form of this handle.
    pub fn downgrade(self) -> (r: TreeNodeWeak)
        ensures
            r.id == self.id,
    {
        TreeNodeWeak { id: self.id }
    }
}

impl TreeNodeWeak {
    /// The strong form of this handle.
    pub fn upgrade(self) -> (r: TreeNodeRef)
        ensures
            r.id == self.id,
    {
        TreeNodeRef { id: self.id }
    }
}

} // verus!
