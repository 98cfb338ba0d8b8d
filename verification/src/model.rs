use vstd::prelude::*;

verus! {

/// The graph shape of a genealogy: for every identifier, the recorded list of
/// its parents and the recorded list of its children, in insertion order.
/// Position in the two outer sequences is the identifier.
#[verifier::ext_equal]
pub ghost struct Pedigree {
    pub parents: Seq<Seq<usize>>,
    pub children: Seq<Seq<usize>>,
}

impl Pedigree {
    pub open spec fn size(self) -> nat {
        self.parents.len()
    }

    /// `p` is recorded as a parent of `c`.
    pub open spec fn parent_step(self, c: usize, p: usize) -> bool {
        c < self.size() && self.parents[c as int].contains(p)
    }

    /// `c` is recorded as a child of `p`.
    pub open spec fn child_step(self, p: usize, c: usize) -> bool {
        p < self.size() && self.children[p as int].contains(c)
    }

    /// Following parent edges from `x` reaches `y` in exactly `k` steps.
    pub open spec fn reaches_up(self, x: usize, y: usize, k: nat) -> bool
        decreases k,
    {
        if k == 0 {
            x == y
        } else {
            exists|p: usize| self.parent_step(x, p) && self.reaches_up(p, y, (k - 1) as nat)
        }
    }

    /// `y` is an ancestor of `x`. Every individual counts as an ancestor of
    /// itself (the zero-step walk).
    pub open spec fn ancestor_of(self, y: usize, x: usize) -> bool {
        exists|k: nat| self.reaches_up(x, y, k)
    }

    /// `y` is an ancestor of `x` no more than `d` parent edges away.
    pub open spec fn ancestor_within(self, y: usize, x: usize, d: nat) -> bool {
        exists|k: nat| k <= d && self.reaches_up(x, y, k)
    }

    /// No parent edge closes a cycle: nobody is an ancestor of one of their
    /// own parents.
    pub open spec fn acyclic(self) -> bool {
        forall|c: usize, p: usize| self.parent_step(c, p) ==> !self.ancestor_of(c, p)
    }

    /// Every recorded parent or child identifier is a real position.
    pub open spec fn edges_bounded(self) -> bool {
        &&& forall|i: int, e: usize|
            0 <= i < self.size() && #[trigger] self.parents[i].contains(e) ==> e < self.size()
        &&& forall|i: int, e: usize|
            0 <= i < self.size() && #[trigger] self.children[i].contains(e) ==> e < self.size()
    }

    /// Parent/child linkage is bidirectionally consistent.
    pub open spec fn mirrored(self) -> bool {
        forall|c: usize, p: usize|
            c < self.size() && p < self.size() ==> (#[trigger] self.parents[c as int].contains(p)
                <==> #[trigger] self.children[p as int].contains(c))
    }

    /// The invariant of every genealogy this crate builds.
    pub open spec fn wf(self) -> bool {
        &&& self.children.len() == self.parents.len()
        &&& self.edges_bounded()
        &&& self.mirrored()
        &&& forall|i: int| 0 <= i < self.size() ==> #[trigger] self.parents[i].len() <= 2
        &&& self.acyclic()
    }

    /// Consecutive elements are parent steps: `c[i + 1]` is a parent of `c[i]`.
    pub open spec fn up_chain(self, c: Seq<usize>) -> bool {
        forall|i: int| 0 <= i < c.len() - 1 ==> #[trigger] self.parent_step(c[i], c[i + 1])
    }

    /// Consecutive elements are child steps: `c[i + 1]` is a child of `c[i]`.
    pub open spec fn down_chain(self, c: Seq<usize>) -> bool {
        forall|i: int| 0 <= i < c.len() - 1 ==> #[trigger] self.child_step(c[i], c[i + 1])
    }

    /// The graph with one more parent edge: `pid` becomes a parent of `id`.
    pub open spec fn with_edge(self, id: usize, pid: usize) -> Pedigree {
        Pedigree {
            parents: self.parents.update(id as int, self.parents[id as int].push(pid)),
            children: self.children.update(pid as int, self.children[pid as int].push(id)),
        }
    }

    /// The graph with one more individual, carrying no edges yet.
    pub open spec fn push_node(self) -> Pedigree {
        Pedigree {
            parents: self.parents.push(Seq::empty()),
            children: self.children.push(Seq::empty()),
        }
    }
}

/// A duplicate-free sequence whose elements all lie below `n` has at most `n`
/// elements.
pub proof fn lemma_nodup_len_bound(c: Seq<usize>, n: nat)
    requires
        c.no_duplicates(),
        forall|i: int| 0 <= i < c.len() ==> c[i] < n,
    ensures
        c.len() <= n,
{
    let ci = c.map_values(|x: usize| x as int);
    assert forall|i: int, j: int| 0 <= i < ci.len() && 0 <= j < ci.len() && i != j implies ci[i]
        != ci[j] by {
        assert(c[i] != c[j]);
    }
    ci.unique_seq_to_set();
    assert(ci.to_set().subset_of(vstd::set_lib::set_int_range(0, n as int))) by {
        assert forall|x: int| ci.to_set().contains(x) implies 0 <= x < n by {
            let i = choose|i: int| 0 <= i < ci.len() && ci[i] == x;
            assert(c[i] < n);
        }
    }
    vstd::set_lib::lemma_int_range(0, n as int);
    vstd::set_lib::lemma_len_subset(ci.to_set(), vstd::set_lib::set_int_range(0, n as int));
}

/// A sequence longer than `n` whose elements all lie below `n` repeats some
/// element.
pub proof fn lemma_pigeonhole_dup(c: Seq<usize>, n: nat)
    requires
        c.len() > n,
        forall|i: int| 0 <= i < c.len() ==> c[i] < n,
    ensures
        exists|i: int, j: int| 0 <= i < j < c.len() && c[i] == c[j],
{
    if forall|i: int, j: int| 0 <= i < j < c.len() ==> c[i] != c[j] {
        assert(c.no_duplicates()) by {
            assert forall|i: int, j: int|
                0 <= i < c.len() && 0 <= j < c.len() && i != j implies c[i] != c[j] by {
                if i < j {
                    assert(c[i] != c[j]);
                } else {
                    assert(c[j] != c[i]);
                }
            }
        }
        lemma_nodup_len_bound(c, n);
        assert(false);
    }
}

impl Pedigree {
    /// Parent steps and child steps mirror each other in a well-formed graph.
    pub proof fn lemma_mirror_step(self, p: usize, c: usize)
        requires
            self.wf(),
        ensures
            self.child_step(p, c) <==> self.parent_step(c, p),
    {
        if self.child_step(p, c) {
            assert(c < self.size());
        }
        if self.parent_step(c, p) {
            assert(p < self.size());
        }
    }

    /// Reachability composes: a walk of `k1` steps followed by one of `k2`
    /// steps is a walk of `k1 + k2` steps.
    pub proof fn lemma_reach_trans(self, x: usize, y: usize, z: usize, k1: nat, k2: nat)
        requires
            self.reaches_up(x, y, k1),
            self.reaches_up(y, z, k2),
        ensures
            self.reaches_up(x, z, k1 + k2),
        decreases k1,
    {
        if k1 > 0 {
            let p = choose|p: usize|
                self.parent_step(x, p) && self.reaches_up(p, y, (k1 - 1) as nat);
            self.lemma_reach_trans(p, y, z, (k1 - 1) as nat, k2);
            assert(self.parent_step(x, p) && self.reaches_up(p, z, ((k1 + k2) - 1) as nat));
        }
    }

    /// A walk of `k + 1` steps is a walk of `k` steps followed by one parent
    /// step, and conversely.
    pub proof fn lemma_reach_snoc(self, x: usize, y: usize, k: nat)
        ensures
            self.reaches_up(x, y, k + 1) <==> exists|z: usize|
                self.reaches_up(x, z, k) && #[trigger] self.parent_step(z, y),
        decreases k,
    {
        if k == 0 {
            assert forall|z: usize|
                self.reaches_up(x, z, 0) && #[trigger] self.parent_step(z, y) implies self.reaches_up(
                x,
                y,
                1,
            ) by {
                assert(self.parent_step(x, y) && self.reaches_up(y, y, 0));
            }
            if self.reaches_up(x, y, 1) {
                let p = choose|p: usize| self.parent_step(x, p) && self.reaches_up(p, y, 0);
                assert(self.reaches_up(x, x, 0) && self.parent_step(x, y));
            }
        } else {
            if self.reaches_up(x, y, k + 1) {
                let p = choose|p: usize|
                    self.parent_step(x, p) && self.reaches_up(p, y, ((k + 1) - 1) as nat);
                self.lemma_reach_snoc(p, y, (k - 1) as nat);
                let z = choose|z: usize|
                    self.reaches_up(p, z, (k - 1) as nat) && #[trigger] self.parent_step(z, y);
                assert(self.parent_step(x, p) && self.reaches_up(p, z, (k - 1) as nat));
                assert(self.reaches_up(x, z, k) && self.parent_step(z, y));
            }
            if exists|z: usize| self.reaches_up(x, z, k) && #[trigger] self.parent_step(z, y) {
                let z = choose|z: usize|
                    self.reaches_up(x, z, k) && #[trigger] self.parent_step(z, y);
                let p = choose|p: usize|
                    self.parent_step(x, p) && self.reaches_up(p, z, (k - 1) as nat);
                self.lemma_reach_snoc(p, y, (k - 1) as nat);
                assert(self.reaches_up(p, z, (k - 1) as nat) && self.parent_step(z, y));
                assert(self.reaches_up(p, y, k));
                assert(self.parent_step(x, p) && self.reaches_up(p, y, ((k + 1) - 1) as nat));
            }
        }
    }

    /// A walk of `k` steps passes through some intermediate point after any
    /// `r <= k` of them.
    pub proof fn lemma_reach_split(self, x: usize, y: usize, k: nat, r: nat)
        requires
            self.reaches_up(x, y, k),
            r <= k,
        ensures
            exists|z: usize|
                #[trigger] self.reaches_up(x, z, r) && self.reaches_up(z, y, (k - r) as nat),
        decreases r,
    {
        if r == 0 {
            assert(self.reaches_up(x, x, 0) && self.reaches_up(x, y, k));
        } else {
            let p = choose|p: usize| self.parent_step(x, p) && self.reaches_up(p, y, (k - 1) as nat);
            self.lemma_reach_split(p, y, (k - 1) as nat, (r - 1) as nat);
            let z = choose|z: usize|
                #[trigger] self.reaches_up(p, z, (r - 1) as nat) && self.reaches_up(
                    z,
                    y,
                    (k - r) as nat,
                );
            assert(self.parent_step(x, p) && self.reaches_up(p, z, (r - 1) as nat));
            assert(self.reaches_up(x, z, r) && self.reaches_up(z, y, (k - r) as nat));
        }
    }

    /// A chain of parent steps witnesses reachability from its first to its
    /// last element.
    pub proof fn lemma_chain_to_reach(self, c: Seq<usize>)
        requires
            self.up_chain(c),
            c.len() >= 1,
        ensures
            self.reaches_up(c[0], c.last(), (c.len() - 1) as nat),
        decreases c.len(),
    {
        if c.len() > 1 {
            let rest = c.drop_first();
            assert(self.up_chain(rest)) by {
                assert forall|i: int| 0 <= i < rest.len() - 1 implies #[trigger] self.parent_step(
                    rest[i],
                    rest[i + 1],
                ) by {
                    let j = i + 1;
                    assert(self.parent_step(c[j], c[j + 1]));
                }
            }
            self.lemma_chain_to_reach(rest);
            assert(self.parent_step(c[0], c[1]));
            assert(rest[0] == c[1] && rest.last() == c.last());
            assert(self.parent_step(c[0], rest[0]) && self.reaches_up(
                rest[0],
                c.last(),
                (c.len() - 2) as nat,
            ));
        }
    }

    /// Reachability is witnessed by a chain of parent steps.
    pub proof fn lemma_reach_to_chain(self, x: usize, y: usize, k: nat)
        requires
            self.reaches_up(x, y, k),
        ensures
            exists|c: Seq<usize>|
                #[trigger] self.up_chain(c) && c.len() == k + 1 && c[0] == x && c.last() == y,
        decreases k,
    {
        if k == 0 {
            let c = seq![x];
            assert(self.up_chain(c) && c.len() == k + 1 && c[0] == x && c.last() == y);
        } else {
            let p = choose|p: usize| self.parent_step(x, p) && self.reaches_up(p, y, (k - 1) as nat);
            self.lemma_reach_to_chain(p, y, (k - 1) as nat);
            let c0 = choose|c: Seq<usize>|
                #[trigger] self.up_chain(c) && c.len() == k && c[0] == p && c.last() == y;
            let c = seq![x] + c0;
            assert(self.up_chain(c)) by {
                assert forall|i: int| 0 <= i < c.len() - 1 implies #[trigger] self.parent_step(
                    c[i],
                    c[i + 1],
                ) by {
                    if i == 0 {
                        assert(c[0] == x && c[1] == c0[0]);
                    } else {
                        let j = i - 1;
                        assert(c[i] == c0[j] && c[i + 1] == c0[j + 1]);
                        assert(self.parent_step(c0[j], c0[j + 1]));
                    }
                }
            }
            assert(c.len() == k + 1 && c[0] == x && c.last() == y);
        }
    }

    /// In a well-formed graph every element of a parent chain that starts in
    /// range stays in range.
    pub proof fn lemma_chain_elements_valid(self, c: Seq<usize>, i: int)
        requires
            self.wf(),
            self.up_chain(c),
            c.len() >= 1,
            c[0] < self.size(),
            0 <= i < c.len(),
        ensures
            c[i] < self.size(),
        decreases i,
    {
        if i > 0 {
            self.lemma_chain_elements_valid(c, i - 1);
            let j = i - 1;
            assert(self.parent_step(c[j], c[j + 1]));
        }
    }

    /// In a well-formed (acyclic) graph a chain of parent steps never repeats
    /// an element.
    pub proof fn lemma_up_chain_nodup(self, c: Seq<usize>)
        requires
            self.wf(),
            self.up_chain(c),
        ensures
            c.no_duplicates(),
    {
        if !c.no_duplicates() {
            let (i, j) = choose|i: int, j: int|
                0 <= i < c.len() && 0 <= j < c.len() && i != j && c[i] == c[j];
            let (a, b) = if i < j {
                (i, j)
            } else {
                (j, i)
            };
            let cyc = c.subrange(a, b + 1);
            assert(self.up_chain(cyc)) by {
                assert forall|t: int| 0 <= t < cyc.len() - 1 implies #[trigger] self.parent_step(
                    cyc[t],
                    cyc[t + 1],
                ) by {
                    assert(self.parent_step(c[a + t], c[a + t + 1]));
                }
            }
            self.lemma_chain_to_reach(cyc);
            let m = (cyc.len() - 1) as nat;
            assert(self.reaches_up(cyc[0], cyc[0], m) && m >= 1);
            let p = choose|p: usize|
                self.parent_step(cyc[0], p) && self.reaches_up(p, cyc[0], (m - 1) as nat);
            assert(self.ancestor_of(cyc[0], p));
            assert(false);
        }
    }

    /// Whoever is reachable at all is reachable within `size - 1` parent
    /// steps: longer walks repeat an element and can be cut short.
    pub proof fn lemma_reach_shorten(self, x: usize, y: usize, k: nat)
        requires
            self.wf(),
            self.reaches_up(x, y, k),
            x < self.size(),
        ensures
            self.ancestor_within(y, x, (self.size() - 1) as nat),
        decreases k,
    {
        let bound = (self.size() - 1) as nat;
        if k <= bound {
            assert(k <= bound && self.reaches_up(x, y, k));
        } else {
            self.lemma_reach_to_chain(x, y, k);
            let c = choose|c: Seq<usize>|
                #[trigger] self.up_chain(c) && c.len() == k + 1 && c[0] == x && c.last() == y;
            assert forall|i: int| 0 <= i < c.len() implies c[i] < self.size() by {
                self.lemma_chain_elements_valid(c, i);
            }
            lemma_pigeonhole_dup(c, self.size());
            let (i, j) = choose|i: int, j: int| 0 <= i < j < c.len() && c[i] == c[j];
            let c2 = c.subrange(0, i) + c.subrange(j, c.len() as int);
            assert(self.up_chain(c2)) by {
                assert forall|t: int| 0 <= t < c2.len() - 1 implies #[trigger] self.parent_step(
                    c2[t],
                    c2[t + 1],
                ) by {
                    if t + 1 < i {
                        assert(c2[t] == c[t] && c2[t + 1] == c[t + 1]);
                        assert(self.parent_step(c[t], c[t + 1]));
                    } else if t + 1 == i {
                        assert(c2[t] == c[t] && c2[t + 1] == c[j]);
                        assert(c[j] == c[i]);
                        assert(self.parent_step(c[t], c[t + 1]));
                    } else {
                        assert(c2[t] == c[j + (t - i)] && c2[t + 1] == c[j + (t - i) + 1]);
                        assert(self.parent_step(c[j + (t - i)], c[j + (t - i) + 1]));
                    }
                }
            }
            assert(c2.len() >= 1 && c2[0] == x && c2.last() == y) by {
                if i == 0 {
                    assert(c2[0] == c[j] && c[j] == c[0]);
                }
            }
            self.lemma_chain_to_reach(c2);
            self.lemma_reach_shorten(x, y, (c2.len() - 1) as nat);
        }
    }

    /// Parent steps of the graph with one extra edge are the old steps plus
    /// that edge.
    pub proof fn lemma_with_edge_step(self, id: usize, pid: usize)
        requires
            self.children.len() == self.parents.len(),
            id < self.size(),
            pid < self.size(),
        ensures
            forall|c: usize, p: usize|
                #[trigger] self.with_edge(id, pid).parent_step(c, p) <==> (self.parent_step(c, p)
                    || (c == id && p == pid)),
            forall|p: usize, c: usize|
                #[trigger] self.with_edge(id, pid).child_step(p, c) <==> (self.child_step(p, c) || (
                p == pid && c == id)),
            self.with_edge(id, pid).size() == self.size(),
    {
        broadcast use vstd::seq_lib::lemma_seq_contains_after_push;

        let gx = self.with_edge(id, pid);
        assert forall|c: usize, p: usize| #[trigger] gx.parent_step(c, p) <==> (self.parent_step(
            c,
            p,
        ) || (c == id && p == pid)) by {
            if c < self.size() {
                if c == id {
                    assert(gx.parents[c as int] == self.parents[c as int].push(pid));
                } else {
                    assert(gx.parents[c as int] == self.parents[c as int]);
                }
            }
        }
        assert forall|p: usize, c: usize| #[trigger] gx.child_step(p, c) <==> (self.child_step(p, c)
            || (p == pid && c == id)) by {
            if p < self.size() {
                if p == pid {
                    assert(gx.children[p as int] == self.children[p as int].push(id));
                } else {
                    assert(gx.children[p as int] == self.children[p as int]);
                }
            }
        }
    }

    /// Any walk in the graph with one extra edge either already existed, or
    /// passes through the new edge; in the latter case its start can reach
    /// `id` in the old graph and its remainder starts at `pid`.
    pub proof fn lemma_with_edge_reach(self, id: usize, pid: usize, a: usize, b: usize, k: nat)
        requires
            self.children.len() == self.parents.len(),
            id < self.size(),
            pid < self.size(),
            self.with_edge(id, pid).reaches_up(a, b, k),
        ensures
            self.ancestor_of(b, a) || (self.ancestor_of(id, a) && exists|k2: nat|
                k2 < k && self.with_edge(id, pid).reaches_up(pid, b, k2)),
        decreases k,
    {
        let gx = self.with_edge(id, pid);
        self.lemma_with_edge_step(id, pid);
        if k == 0 {
            assert(self.reaches_up(a, b, 0));
        } else {
            let p = choose|p: usize| gx.parent_step(a, p) && gx.reaches_up(p, b, (k - 1) as nat);
            if a == id && p == pid {
                assert(self.reaches_up(a, id, 0));
                let k2 = (k - 1) as nat;
                assert(gx.reaches_up(pid, b, k2) && k2 < k);
            } else {
                assert(self.parent_step(a, p));
                self.lemma_with_edge_reach(id, pid, p, b, (k - 1) as nat);
                if self.ancestor_of(b, p) {
                    let m = choose|m: nat| self.reaches_up(p, b, m);
                    assert(self.parent_step(a, p) && self.reaches_up(p, b, m));
                    assert(self.reaches_up(a, b, m + 1));
                } else {
                    let m = choose|m: nat| self.reaches_up(p, id, m);
                    assert(self.parent_step(a, p) && self.reaches_up(p, id, m));
                    assert(self.reaches_up(a, id, m + 1));
                    let k2 = choose|k2: nat| k2 < (k - 1) as nat && gx.reaches_up(pid, b, k2);
                    assert(k2 < k && gx.reaches_up(pid, b, k2));
                }
            }
        }
    }

    /// Rejecting exactly the edges whose child is already an ancestor of the
    /// new parent keeps the graph acyclic.
    pub proof fn lemma_with_edge_acyclic(self, id: usize, pid: usize)
        requires
            self.wf(),
            id < self.size(),
            pid < self.size(),
            !self.ancestor_of(id, pid),
        ensures
            self.with_edge(id, pid).acyclic(),
    {
        let gx = self.with_edge(id, pid);
        self.lemma_with_edge_step(id, pid);
        assert forall|b: usize, k: nat| gx.reaches_up(pid, b, k) implies self.ancestor_of(
            b,
            pid,
        ) by {
            self.lemma_with_edge_reach(id, pid, pid, b, k);
        }
        assert forall|c: usize, p: usize| gx.parent_step(c, p) implies !gx.ancestor_of(c, p) by {
            if gx.ancestor_of(c, p) {
                let k = choose|k: nat| gx.reaches_up(p, c, k);
                if c == id && p == pid && !self.parent_step(c, p) {
                    assert(gx.reaches_up(pid, id, k));
                    assert(self.ancestor_of(id, pid));
                } else {
                    self.lemma_with_edge_reach(id, pid, p, c, k);
                    if self.ancestor_of(c, p) {
                        assert(self.parent_step(c, p));
                        assert(false);
                    } else {
                        let k2 = choose|k2: nat| k2 < k && gx.reaches_up(pid, c, k2);
                        assert(self.ancestor_of(c, pid));
                        let m1 = choose|m1: nat| self.reaches_up(pid, c, m1);
                        let m2 = choose|m2: nat| self.reaches_up(p, id, m2);
                        assert(self.parent_step(c, p) && self.reaches_up(p, p, 0));
                        assert(self.reaches_up(c, p, 1));
                        self.lemma_reach_trans(pid, c, p, m1, 1);
                        self.lemma_reach_trans(pid, p, id, m1 + 1, m2);
                        assert(self.reaches_up(pid, id, m1 + 1 + m2));
                        assert(self.ancestor_of(id, pid));
                        assert(false);
                    }
                }
            }
        }
    }

    /// Installing an acceptable edge preserves the whole invariant.
    pub proof fn lemma_with_edge_wf(self, id: usize, pid: usize)
        requires
            self.wf(),
            id < self.size(),
            pid < self.size(),
            self.parents[id as int].len() < 2,
            !self.ancestor_of(id, pid),
        ensures
            self.with_edge(id, pid).wf(),
    {
        let gx = self.with_edge(id, pid);
        self.lemma_with_edge_step(id, pid);
        assert(id != pid) by {
            assert(self.reaches_up(id, id, 0));
        }
        assert(gx.edges_bounded()) by {
            assert forall|i: int, e: usize|
                0 <= i < gx.size() && #[trigger] gx.parents[i].contains(e) implies e < gx.size() by {
                if i == id {
                    assert(gx.parents[i] == self.parents[i].push(pid));
                    if e != pid {
                        assert(self.parents[i].contains(e));
                    }
                } else {
                    assert(gx.parents[i] == self.parents[i]);
                }
            }
            assert forall|i: int, e: usize|
                0 <= i < gx.size() && #[trigger] gx.children[i].contains(e) implies e
                < gx.size() by {
                if i == pid {
                    assert(gx.children[i] == self.children[i].push(id));
                    if e != id {
                        assert(self.children[i].contains(e));
                    }
                } else {
                    assert(gx.children[i] == self.children[i]);
                }
            }
        }
        assert(gx.mirrored()) by {
            assert forall|c: usize, p: usize| c < gx.size() && p < gx.size() implies (
            #[trigger] gx.parents[c as int].contains(p) <==> #[trigger] gx.children[p as int].contains(c)) by {
                assert(gx.parent_step(c, p) <==> (self.parent_step(c, p) || (c == id && p == pid)));
                assert(gx.child_step(p, c) <==> (self.child_step(p, c) || (p == pid && c == id)));
                self.lemma_mirror_step(p, c);
            }
        }
        assert forall|i: int| 0 <= i < gx.size() implies #[trigger] gx.parents[i].len() <= 2 by {
            if i == id {
                assert(gx.parents[i] == self.parents[i].push(pid));
            } else {
                assert(gx.parents[i] == self.parents[i]);
            }
        }
        self.lemma_with_edge_acyclic(id, pid);
    }

    /// A walk in the graph with one extra (edgeless) individual that starts
    /// at an old individual is a walk of the old graph.
    pub proof fn lemma_push_node_reach(self, x: usize, y: usize, k: nat)
        requires
            self.edges_bounded(),
            x < self.size(),
            self.push_node().reaches_up(x, y, k),
        ensures
            self.reaches_up(x, y, k),
        decreases k,
    {
        let gx = self.push_node();
        if k > 0 {
            let p = choose|p: usize| gx.parent_step(x, p) && gx.reaches_up(p, y, (k - 1) as nat);
            assert(gx.parents[x as int] == self.parents[x as int]);
            assert(self.parent_step(x, p));
            assert(p < self.size());
            self.lemma_push_node_reach(p, y, (k - 1) as nat);
            assert(self.parent_step(x, p) && self.reaches_up(p, y, (k - 1) as nat));
        }
    }

    /// Appending an individual with no edges preserves the whole invariant.
    pub proof fn lemma_push_node_wf(self)
        requires
            self.wf(),
        ensures
            self.push_node().wf(),
    {
        let gx = self.push_node();
        assert(gx.edges_bounded()) by {
            assert forall|i: int, e: usize|
                0 <= i < gx.size() && #[trigger] gx.parents[i].contains(e) implies e < gx.size() by {
                assert(i < self.size() && gx.parents[i] == self.parents[i]) by {
                    if i == self.size() {
                        assert(gx.parents[i] =~= Seq::<usize>::empty());
                        assert(!gx.parents[i].contains(e));
                    }
                }
            }
            assert forall|i: int, e: usize|
                0 <= i < gx.size() && #[trigger] gx.children[i].contains(e) implies e
                < gx.size() by {
                assert(i < self.size() && gx.children[i] == self.children[i]) by {
                    if i == self.size() {
                        assert(gx.children[i] =~= Seq::<usize>::empty());
                        assert(!gx.children[i].contains(e));
                    }
                }
            }
        }
        assert(gx.mirrored()) by {
            assert forall|c: usize, p: usize| c < gx.size() && p < gx.size() implies (
            #[trigger] gx.parents[c as int].contains(p) <==> #[trigger] gx.children[p as int].contains(c)) by {
                if c < self.size() && p < self.size() {
                    assert(gx.parents[c as int] == self.parents[c as int]);
                    assert(gx.children[p as int] == self.children[p as int]);
                } else {
                    if c == self.size() {
                        assert(gx.parents[c as int] =~= Seq::<usize>::empty());
                        if p < self.size() {
                            assert(gx.children[p as int] == self.children[p as int]);
                            assert(!self.children[p as int].contains(c));
                        }
                    }
                    if p == self.size() {
                        assert(gx.children[p as int] =~= Seq::<usize>::empty());
                        if c < self.size() {
                            assert(gx.parents[c as int] == self.parents[c as int]);
                            assert(!self.parents[c as int].contains(p));
                        }
                    }
                }
            }
        }
        assert forall|i: int| 0 <= i < gx.size() implies #[trigger] gx.parents[i].len() <= 2 by {
            if i == self.size() {
                assert(gx.parents[i] =~= Seq::<usize>::empty());
            } else {
                assert(gx.parents[i] == self.parents[i]);
            }
        }
        assert(gx.acyclic()) by {
            assert forall|c: usize, p: usize| gx.parent_step(c, p) implies !gx.ancestor_of(c, p) by {
                if c == self.size() {
                    assert(gx.parents[c as int] =~= Seq::<usize>::empty());
                    assert(!gx.parent_step(c, p));
                } else {
                    assert(gx.parents[c as int] == self.parents[c as int]);
                    assert(self.parent_step(c, p));
                    assert(p < self.size());
                    if gx.ancestor_of(c, p) {
                        let k = choose|k: nat| gx.reaches_up(p, c, k);
                        self.lemma_push_node_reach(p, c, k);
                        assert(self.ancestor_of(c, p));
                        assert(false);
                    }
                }
            }
        }
    }

    /// A walk that starts in range ends in range.
    pub proof fn lemma_reach_valid(self, x: usize, y: usize, k: nat)
        requires
            self.edges_bounded(),
            x < self.size(),
            self.reaches_up(x, y, k),
        ensures
            y < self.size(),
        decreases k,
    {
        if k > 0 {
            let p = choose|p: usize| self.parent_step(x, p) && self.reaches_up(p, y, (k - 1) as nat);
            self.lemma_reach_valid(p, y, (k - 1) as nat);
        }
    }

    /// Every ancestor lies within `size - 1` parent steps.
    pub proof fn lemma_ancestor_bounded(self, y: usize, x: usize)
        requires
            self.wf(),
            self.ancestor_of(y, x),
            x < self.size(),
        ensures
            self.ancestor_within(y, x, (self.size() - 1) as nat),
    {
        let k = choose|k: nat| self.reaches_up(x, y, k);
        self.lemma_reach_shorten(x, y, k);
    }
}

} // verus!
