use vstd::prelude::*;

use crate::model::Pedigree;
use crate::pedigree::Genealogy;

verus! {

/// `x` and `y` are adjacent in the undirected view of the pedigree: one is
/// a recorded parent or child of the other.
pub open spec fn linked(m: Pedigree, x: usize, y: usize) -> bool {
    m.parent_step(x, y) || m.child_step(x, y)
}

/// Walking undirected edges from `x` reaches `y` in exactly `k` steps.
pub open spec fn connected_in(m: Pedigree, x: usize, y: usize, k: nat) -> bool
    decreases k,
{
    if k == 0 {
        x == y
    } else {
        exists|z: usize| linked(m, x, z) && connected_in(m, z, y, (k - 1) as nat)
    }
}

/// `y` lies no more than `d` undirected edges away from `x`.
pub open spec fn connected_within(m: Pedigree, x: usize, y: usize, d: nat) -> bool {
    exists|k: nat| k <= d && connected_in(m, x, y, k)
}

/// Consecutive elements of `c` are adjacent in the undirected view.
pub open spec fn und_chain(m: Pedigree, c: Seq<usize>) -> bool {
    forall|i: int| 0 <= i < c.len() - 1 ==> #[trigger] linked(m, c[i], c[i + 1])
}

/// `y` first appears in round `r` of the undirected expansion around `x`.
pub open spec fn exact_hops(m: Pedigree, x: usize, y: usize, r: nat) -> bool {
    connected_within(m, x, y, r) && (r == 0 || !connected_within(m, x, y, (r - 1) as nat))
}

/// An undirected walk that starts in range ends in range.
proof fn lemma_con_valid(m: Pedigree, x: usize, y: usize, k: nat)
    requires
        m.wf(),
        x < m.size(),
        connected_in(m, x, y, k),
    ensures
        y < m.size(),
    decreases k,
{
    if k > 0 {
        let z = choose|z: usize| linked(m, x, z) && connected_in(m, z, y, (k - 1) as nat);
        assert(z < m.size()) by {
            if m.parent_step(x, z) {
            } else {
                assert(m.children[x as int].contains(z));
            }
        }
        lemma_con_valid(m, z, y, (k - 1) as nat);
    }
}

/// Undirected walks compose.
proof fn lemma_con_trans(m: Pedigree, x: usize, y: usize, z: usize, k1: nat, k2: nat)
    requires
        connected_in(m, x, y, k1),
        connected_in(m, y, z, k2),
    ensures
        connected_in(m, x, z, k1 + k2),
    decreases k1,
{
    if k1 > 0 {
        let w = choose|w: usize| linked(m, x, w) && connected_in(m, w, y, (k1 - 1) as nat);
        lemma_con_trans(m, w, y, z, (k1 - 1) as nat, k2);
        assert(linked(m, x, w) && connected_in(m, w, z, ((k1 + k2) - 1) as nat));
    }
}

/// A walk of `k + 1` undirected steps is a walk of `k` steps plus one edge,
/// and conversely.
proof fn lemma_con_snoc(m: Pedigree, x: usize, y: usize, k: nat)
    requires
        m.wf(),
    ensures
        connected_in(m, x, y, k + 1) <==> exists|z: usize|
            connected_in(m, x, z, k) && #[trigger] linked(m, z, y),
    decreases k,
{
    if k == 0 {
        assert forall|z: usize|
            connected_in(m, x, z, 0) && #[trigger] linked(m, z, y) implies connected_in(
            m,
            x,
            y,
            1,
        ) by {
            assert(linked(m, x, y) && connected_in(m, y, y, 0));
        }
        if connected_in(m, x, y, 1) {
            let w = choose|w: usize| linked(m, x, w) && connected_in(m, w, y, 0);
            assert(connected_in(m, x, x, 0) && linked(m, x, y));
        }
    } else {
        if connected_in(m, x, y, k + 1) {
            let w = choose|w: usize| linked(m, x, w) && connected_in(m, w, y, ((k + 1) - 1) as nat);
            lemma_con_snoc(m, w, y, (k - 1) as nat);
            let z = choose|z: usize|
                connected_in(m, w, z, (k - 1) as nat) && #[trigger] linked(m, z, y);
            assert(linked(m, x, w) && connected_in(m, w, z, (k - 1) as nat));
            assert(connected_in(m, x, z, k) && linked(m, z, y));
        }
        if exists|z: usize| connected_in(m, x, z, k) && #[trigger] linked(m, z, y) {
            let z = choose|z: usize| connected_in(m, x, z, k) && #[trigger] linked(m, z, y);
            let w = choose|w: usize| linked(m, x, w) && connected_in(m, w, z, (k - 1) as nat);
            lemma_con_snoc(m, w, y, (k - 1) as nat);
            assert(connected_in(m, w, z, (k - 1) as nat) && linked(m, z, y));
            assert(connected_in(m, w, y, k));
            assert(linked(m, x, w) && connected_in(m, w, y, ((k + 1) - 1) as nat));
        }
    }
}

/// An undirected walk passes through some point after any `r <= k` steps.
proof fn lemma_con_split(m: Pedigree, x: usize, y: usize, k: nat, r: nat)
    requires
        connected_in(m, x, y, k),
        r <= k,
    ensures
        exists|z: usize|
            #[trigger] connected_in(m, x, z, r) && connected_in(m, z, y, (k - r) as nat),
    decreases r,
{
    if r == 0 {
        assert(connected_in(m, x, x, 0) && connected_in(m, x, y, k));
    } else {
        let w = choose|w: usize| linked(m, x, w) && connected_in(m, w, y, (k - 1) as nat);
        lemma_con_split(m, w, y, (k - 1) as nat, (r - 1) as nat);
        let z = choose|z: usize|
            #[trigger] connected_in(m, w, z, (r - 1) as nat) && connected_in(
                m,
                z,
                y,
                (k - r) as nat,
            );
        assert(linked(m, x, w) && connected_in(m, w, z, (r - 1) as nat));
        assert(connected_in(m, x, z, r) && connected_in(m, z, y, (k - r) as nat));
    }
}

/// An undirected walk is witnessed by a chain of adjacent individuals.
proof fn lemma_con_to_chain(m: Pedigree, x: usize, y: usize, k: nat)
    requires
        connected_in(m, x, y, k),
    ensures
        exists|c: Seq<usize>|
            #[trigger] und_chain(m, c) && c.len() == k + 1 && c[0] == x && c.last() == y,
    decreases k,
{
    if k == 0 {
        let c = seq![x];
        assert(und_chain(m, c) && c.len() == k + 1 && c[0] == x && c.last() == y);
    } else {
        let w = choose|w: usize| linked(m, x, w) && connected_in(m, w, y, (k - 1) as nat);
        lemma_con_to_chain(m, w, y, (k - 1) as nat);
        let c0 = choose|c: Seq<usize>|
            #[trigger] und_chain(m, c) && c.len() == k && c[0] == w && c.last() == y;
        let c = seq![x] + c0;
        assert(und_chain(m, c)) by {
            assert forall|i: int| 0 <= i < c.len() - 1 implies #[trigger] linked(
                m,
                c[i],
                c[i + 1],
            ) by {
                if i == 0 {
                    assert(c[0] == x && c[1] == c0[0]);
                } else {
                    let j = i - 1;
                    assert(c[i] == c0[j] && c[i + 1] == c0[j + 1]);
                    assert(linked(m, c0[j], c0[j + 1]));
                }
            }
        }
        assert(c.len() == k + 1 && c[0] == x && c.last() == y);
    }
}

/// A chain of adjacent individuals witnesses an undirected walk.
proof fn lemma_chain_to_con(m: Pedigree, c: Seq<usize>)
    requires
        und_chain(m, c),
        c.len() >= 1,
    ensures
        connected_in(m, c[0], c.last(), (c.len() - 1) as nat),
    decreases c.len(),
{
    if c.len() > 1 {
        let rest = c.drop_first();
        assert(und_chain(m, rest)) by {
            assert forall|i: int| 0 <= i < rest.len() - 1 implies #[trigger] linked(
                m,
                rest[i],
                rest[i + 1],
            ) by {
                let j = i + 1;
                assert(linked(m, c[j], c[j + 1]));
            }
        }
        lemma_chain_to_con(m, rest);
        assert(linked(m, c[0], c[1]));
        assert(rest[0] == c[1] && rest.last() == c.last());
        assert(linked(m, c[0], rest[0]) && connected_in(m, rest[0], c.last(), (c.len() - 2) as nat));
    }
}

/// Whoever is connected at all is connected within `size - 1` steps.
proof fn lemma_con_shorten(m: Pedigree, x: usize, y: usize, k: nat)
    requires
        m.wf(),
        m.size() >= 1,
        connected_in(m, x, y, k),
        x < m.size(),
    ensures
        connected_within(m, x, y, (m.size() - 1) as nat),
    decreases k,
{
    let bound = (m.size() - 1) as nat;
    if k <= bound {
        assert(k <= bound && connected_in(m, x, y, k));
    } else {
        lemma_con_to_chain(m, x, y, k);
        let c = choose|c: Seq<usize>|
            #[trigger] und_chain(m, c) && c.len() == k + 1 && c[0] == x && c.last() == y;
        assert forall|i: int| 0 <= i < c.len() implies c[i] < m.size() by {
            lemma_chain_prefix_valid(m, c, i);
        }
        crate::model::lemma_pigeonhole_dup(c, m.size());
        let (i, j) = choose|i: int, j: int| 0 <= i < j < c.len() && c[i] == c[j];
        let c2 = c.subrange(0, i) + c.subrange(j, c.len() as int);
        assert(und_chain(m, c2)) by {
            assert forall|t: int| 0 <= t < c2.len() - 1 implies #[trigger] linked(
                m,
                c2[t],
                c2[t + 1],
            ) by {
                if t + 1 < i {
                    assert(c2[t] == c[t] && c2[t + 1] == c[t + 1]);
                    assert(linked(m, c[t], c[t + 1]));
                } else if t + 1 == i {
                    assert(c2[t] == c[t] && c2[t + 1] == c[j]);
                    assert(c[j] == c[i]);
                    assert(linked(m, c[t], c[t + 1]));
                } else {
                    let u = j + (t - i);
                    assert(c2[t] == c[u] && c2[t + 1] == c[u + 1]);
                    assert(linked(m, c[u], c[u + 1]));
                }
            }
        }
        assert(c2.len() >= 1 && c2[0] == x && c2.last() == y) by {
            if i == 0 {
                assert(c2[0] == c[j] && c[j] == c[0]);
            }
        }
        lemma_chain_to_con(m, c2);
        lemma_con_shorten(m, x, y, (c2.len() - 1) as nat);
    }
}

/// Every element of an undirected chain that starts in range is in range.
proof fn lemma_chain_prefix_valid(m: Pedigree, c: Seq<usize>, i: int)
    requires
        m.wf(),
        und_chain(m, c),
        c.len() >= 1,
        c[0] < m.size(),
        0 <= i < c.len(),
    ensures
        c[i] < m.size(),
    decreases i,
{
    if i > 0 {
        lemma_chain_prefix_valid(m, c, i - 1);
        let j = i - 1;
        assert(linked(m, c[j], c[j + 1]));
        if m.parent_step(c[j], c[i]) {
        } else {
            assert(m.children[c[j] as int].contains(c[i]));
        }
    }
}

/// Once a round of the undirected expansion finds nobody at its exact
/// distance, every connected individual was already found.
proof fn lemma_hops_collapse(m: Pedigree, x: usize, r: nat, y: usize, k: nat)
    requires
        r >= 1,
        forall|z: usize| !exact_hops(m, x, z, r),
        connected_in(m, x, y, k),
    ensures
        connected_within(m, x, y, (r - 1) as nat),
    decreases k,
{
    if k <= r - 1 {
        assert(connected_in(m, x, y, k) && k <= (r - 1) as nat);
    } else {
        lemma_con_split(m, x, y, k, r);
        let z = choose|z: usize|
            #[trigger] connected_in(m, x, z, r) && connected_in(m, z, y, (k - r) as nat);
        assert(connected_within(m, x, z, r));
        assert(!exact_hops(m, x, z, r));
        let k1 = choose|k1: nat| k1 <= r - 1 && connected_in(m, x, z, k1);
        lemma_con_trans(m, x, z, y, k1, (k - r) as nat);
        lemma_hops_collapse(m, x, r, y, (k1 + k - r) as nat);
    }
}

/// After the expansion stops — by running `size` rounds or by a round that
/// found nobody — everything connected lies within the rounds run.
proof fn lemma_reach_to_within(m: Pedigree, from: usize, y: usize, k: nat, round: nat)
    requires
        m.wf(),
        from < m.size(),
        connected_in(m, from, y, k),
        round <= m.size(),
        round == m.size() || (round >= 1 && forall|z: usize| !exact_hops(m, from, z, round)),
    ensures
        connected_within(m, from, y, round),
{
    if round == m.size() {
        lemma_con_shorten(m, from, y, k);
        let k2 = choose|k2: nat| k2 <= m.size() - 1 && connected_in(m, from, y, k2);
        assert(k2 <= round && connected_in(m, from, y, k2));
    } else {
        lemma_hops_collapse(m, from, round, y, k);
        let k2 = choose|k2: nat| k2 <= round - 1 && connected_in(m, from, y, k2);
        assert(k2 <= round && connected_in(m, from, y, k2));
    }
}

/// The parents of `x` followed by the children of `x`: the undirected
/// neighbourhood, in scan order.
spec fn neighbor_list(m: Pedigree, x: usize) -> Seq<usize> {
    m.parents[x as int] + m.children[x as int]
}

/// `y` occurs among the first `upto` neighbours of `x`.
spec fn neighbor_listed(m: Pedigree, x: usize, upto: int, y: usize) -> bool {
    exists|u: int| 0 <= u < upto && (#[trigger] neighbor_list(m, x)[u]) == y
}

/// `y` is adjacent to one of the first `upto` frontier entries.
spec fn und_touched(m: Pedigree, fr: Seq<usize>, upto: int, y: usize) -> bool {
    exists|t: int| 0 <= t < upto && #[trigger] linked(m, fr[t], y)
}

/// The full neighbour scan of a valid `x` finds exactly the adjacent
/// individuals.
proof fn lemma_neighbor_scan(m: Pedigree, x: usize, y: usize)
    requires
        x < m.size(),
    ensures
        neighbor_listed(m, x, neighbor_list(m, x).len() as int, y) == linked(m, x, y),
{
    let ns = neighbor_list(m, x);
    if neighbor_listed(m, x, ns.len() as int, y) {
        let u = choose|u: int| 0 <= u < ns.len() && (#[trigger] ns[u]) == y;
        if u < m.parents[x as int].len() {
            assert(m.parents[x as int][u] == y);
            assert(m.parents[x as int].contains(y));
        } else {
            assert(m.children[x as int][u - m.parents[x as int].len()] == y);
            assert(m.children[x as int].contains(y));
        }
    }
    if linked(m, x, y) {
        if m.parent_step(x, y) {
            let u = choose|u: int| 0 <= u < m.parents[x as int].len() && m.parents[x as int][u] == y;
            assert((neighbor_list(m, x)[u]) == y);
        } else {
            let u = choose|u: int|
                0 <= u < m.children[x as int].len() && m.children[x as int][u] == y;
            let v = u + m.parents[x as int].len();
            assert((neighbor_list(m, x)[v]) == y);
        }
    }
}

impl<T> Genealogy<T> {
    /// One round-capped breadth-first expansion over the undirected view
    /// around `from`: which individuals are connected at all, at which exact
    /// distance each was discovered, and through which neighbour.
    #[verifier::loop_isolation(false)]
    #[verifier::rlimit(100)]
    fn und_levels(&self, from: usize) -> (r: (Vec<bool>, Vec<usize>, Vec<usize>))
        requires
            self.wf(),
            from < self@.len(),
        ensures
            r.0@.len() == self@.len(),
            r.1@.len() == self@.len(),
            r.2@.len() == self@.len(),
            forall|y: usize|
                y < self@.len() ==> (#[trigger] r.0@[y as int]) == (exists|k: nat|
                    connected_in(self.model(), from, y, k)),
            forall|y: usize|
                y < self@.len() && #[trigger] r.0@[y as int] ==> exact_hops(
                    self.model(),
                    from,
                    y,
                    r.1@[y as int] as nat,
                ),
            forall|y: usize|
                y < self@.len() && #[trigger] r.0@[y as int] && y != from ==> {
                    let pv = r.2@[y as int];
                    &&& pv < self@.len()
                    &&& r.0@[pv as int]
                    &&& linked(self.model(), pv, y)
                    &&& r.1@[pv as int] + 1 == r.1@[y as int]
                },
            r.1@[from as int] == 0,
    {
        let ghost m = self.model();
        let n = self.arena_len();
        let mut visited: Vec<bool> = Vec::new();
        let mut dist: Vec<usize> = Vec::new();
        let mut prev: Vec<usize> = Vec::new();
        while visited.len() < n
            invariant
                visited@.len() <= n,
                dist@.len() == visited@.len(),
                prev@.len() == visited@.len(),
                forall|j: int| 0 <= j < visited@.len() ==> !(#[trigger] visited@[j]),
                forall|j: int| 0 <= j < dist@.len() ==> (#[trigger] dist@[j]) == 0,
            decreases n - visited@.len(),
        {
            visited.push(false);
            dist.push(0);
            prev.push(0);
        }
        visited.set(from, true);
        let mut frontier: Vec<usize> = Vec::new();
        frontier.push(from);
        let mut round: usize = 0;
        proof {
            assert(connected_in(m, from, from, 0));
            assert forall|y: usize| y < n implies visited@[y as int] == connected_within(
                m,
                from,
                y,
                0,
            ) by {
                if connected_within(m, from, y, 0) {
                    let k = choose|k: nat| k <= 0 && connected_in(m, from, y, k);
                    assert(y == from);
                }
            }
            assert forall|y: usize| #[trigger] frontier@.contains(y) <==> exact_hops(
                m,
                from,
                y,
                0,
            ) by {
                assert(frontier@ =~= seq![from]);
                if frontier@.contains(y) {
                    assert(y == from);
                }
                if exact_hops(m, from, y, 0) {
                    let k = choose|k: nat| k <= 0 && connected_in(m, from, y, k);
                    assert(y == from && frontier@[0] == from);
                }
            }
        }
        while round < n && frontier.len() != 0
            invariant
                round <= n,
                visited@.len() == n,
                dist@.len() == n,
                prev@.len() == n,
                forall|y: usize|
                    y < n ==> visited@[y as int] == connected_within(m, from, y, round as nat),
                forall|y: usize|
                    #[trigger] frontier@.contains(y) <==> exact_hops(m, from, y, round as nat),
                forall|y: usize| #[trigger] frontier@.contains(y) ==> dist@[y as int] == round,
                forall|y: usize|
                    y < n && #[trigger] visited@[y as int] ==> exact_hops(
                        m,
                        from,
                        y,
                        dist@[y as int] as nat,
                    ) && dist@[y as int] <= round,
                forall|y: usize|
                    y < n && #[trigger] visited@[y as int] && y != from ==> {
                        let pv = prev@[y as int];
                        &&& pv < n
                        &&& visited@[pv as int]
                        &&& linked(m, pv, y)
                        &&& dist@[pv as int] + 1 == dist@[y as int]
                    },
                dist@[from as int] == 0,
            decreases n - round,
        {
            let mut next: Vec<usize> = Vec::new();
            let mut fi: usize = 0;
            while fi < frontier.len()
                invariant
                    fi <= frontier@.len(),
                    visited@.len() == n,
                    dist@.len() == n,
                    prev@.len() == n,
                    forall|y: usize|
                        y < n ==> visited@[y as int] == (connected_within(m, from, y, round as nat)
                            || und_touched(m, frontier@, fi as int, y)),
                    forall|y: usize|
                        #[trigger] next@.contains(y) <==> (und_touched(m, frontier@, fi as int, y)
                            && !connected_within(m, from, y, round as nat)),
                    forall|y: usize| #[trigger] frontier@.contains(y) ==> dist@[y as int] == round,
                    forall|y: usize|
                        y < n && #[trigger] visited@[y as int] ==> exact_hops(
                            m,
                            from,
                            y,
                            dist@[y as int] as nat,
                        ) && dist@[y as int] <= round + 1,
                    forall|y: usize|
                        y < n && #[trigger] visited@[y as int] && y != from ==> {
                            let pv = prev@[y as int];
                            &&& pv < n
                            &&& visited@[pv as int]
                            &&& linked(m, pv, y)
                            &&& dist@[pv as int] + 1 == dist@[y as int]
                        },
                    dist@[from as int] == 0,
                decreases frontier@.len() - fi,
            {
                let x = frontier[fi];
                proof {
                    assert(frontier@.contains(x));
                    assert(exact_hops(m, from, x, round as nat));
                    let k0 = choose|k0: nat| k0 <= round && connected_in(m, from, x, k0);
                    lemma_con_valid(m, from, x, k0);
                    assert(x < n);
                    assert(dist@[x as int] == round);
                    assert(visited@[x as int]);
                }
                let np = self.parent_count(x);
                let nc = self.child_count(x);
                let ghost nlen = neighbor_list(m, x).len();
                let mut uj: usize = 0;
                let ghost base = 0int;
                while uj < np
                    invariant
                        x < n,
                        np == m.parents[x as int].len(),
                        nc == m.children[x as int].len(),
                        nlen == np + nc,
                        fi < frontier@.len(),
                        frontier@[fi as int] == x,
                        uj <= np,
                        visited@.len() == n,
                        dist@.len() == n,
                        prev@.len() == n,
                        dist@[x as int] == round,
                        visited@[x as int],
                        forall|y: usize|
                            y < n ==> visited@[y as int] == (connected_within(
                                m,
                                from,
                                y,
                                round as nat,
                            ) || und_touched(m, frontier@, fi as int, y) || neighbor_listed(
                                m,
                                x,
                                uj as int,
                                y,
                            )),
                        forall|y: usize|
                            #[trigger] next@.contains(y) <==> ((und_touched(
                                m,
                                frontier@,
                                fi as int,
                                y,
                            ) || neighbor_listed(m, x, uj as int, y)) && !connected_within(
                                m,
                                from,
                                y,
                                round as nat,
                            )),
                        forall|y: usize|
                            #[trigger] frontier@.contains(y) ==> dist@[y as int] == round,
                        forall|y: usize|
                            y < n && #[trigger] visited@[y as int] ==> exact_hops(
                                m,
                                from,
                                y,
                                dist@[y as int] as nat,
                            ) && dist@[y as int] <= round + 1,
                        forall|y: usize|
                            y < n && #[trigger] visited@[y as int] && y != from ==> {
                                let pv = prev@[y as int];
                                &&& pv < n
                                &&& visited@[pv as int]
                                &&& linked(m, pv, y)
                                &&& dist@[pv as int] + 1 == dist@[y as int]
                            },
                        dist@[from as int] == 0,
                    decreases np - uj,
                {
                    let p = self.parent_at(x, uj);
                    proof {
                        assert((neighbor_list(m, x)[uj as int]) == p);
                        assert(m.parents[x as int].contains(p));
                        assert(p < n);
                        assert(m.parent_step(x, p));
                        assert(linked(m, x, p));
                        assert forall|y: usize| #[trigger] frontier@.contains(y) implies y < n
                            && visited@[y as int] by {
                            assert(exact_hops(m, from, y, round as nat));
                            let k = choose|k: nat| k <= round && connected_in(m, from, y, k);
                            lemma_con_valid(m, from, y, k);
                            assert(connected_within(m, from, y, round as nat));
                        }
                    }
                    self.visit_neighbor(
                        p,
                        x,
                        from,
                        round,
                        &mut visited,
                        &mut dist,
                        &mut prev,
                        &mut next,
                        Ghost(m),
                        Ghost(frontier@),
                        Ghost(fi as int),
                        Ghost(uj as int),
                    );
                    uj += 1;
                }
                let mut cj: usize = 0;
                while cj < nc
                    invariant
                        x < n,
                        np == m.parents[x as int].len(),
                        nc == m.children[x as int].len(),
                        nlen == np + nc,
                        fi < frontier@.len(),
                        frontier@[fi as int] == x,
                        cj <= nc,
                        visited@.len() == n,
                        dist@.len() == n,
                        prev@.len() == n,
                        dist@[x as int] == round,
                        visited@[x as int],
                        forall|y: usize|
                            y < n ==> visited@[y as int] == (connected_within(
                                m,
                                from,
                                y,
                                round as nat,
                            ) || und_touched(m, frontier@, fi as int, y) || neighbor_listed(
                                m,
                                x,
                                np + cj as int,
                                y,
                            )),
                        forall|y: usize|
                            #[trigger] next@.contains(y) <==> ((und_touched(
                                m,
                                frontier@,
                                fi as int,
                                y,
                            ) || neighbor_listed(m, x, np + cj as int, y)) && !connected_within(
                                m,
                                from,
                                y,
                                round as nat,
                            )),
                        forall|y: usize|
                            #[trigger] frontier@.contains(y) ==> dist@[y as int] == round,
                        forall|y: usize|
                            y < n && #[trigger] visited@[y as int] ==> exact_hops(
                                m,
                                from,
                                y,
                                dist@[y as int] as nat,
                            ) && dist@[y as int] <= round + 1,
                        forall|y: usize|
                            y < n && #[trigger] visited@[y as int] && y != from ==> {
                                let pv = prev@[y as int];
                                &&& pv < n
                                &&& visited@[pv as int]
                                &&& linked(m, pv, y)
                                &&& dist@[pv as int] + 1 == dist@[y as int]
                            },
                        dist@[from as int] == 0,
                    decreases nc - cj,
                {
                    let c = self.child_at(x, cj);
                    proof {
                        assert((neighbor_list(m, x)[np + cj as int]) == c);
                        assert(m.children[x as int].contains(c));
                        assert(c < n);
                        assert(m.child_step(x, c));
                        assert(linked(m, x, c));
                        assert forall|y: usize| #[trigger] frontier@.contains(y) implies y < n
                            && visited@[y as int] by {
                            assert(exact_hops(m, from, y, round as nat));
                            let k = choose|k: nat| k <= round && connected_in(m, from, y, k);
                            lemma_con_valid(m, from, y, k);
                            assert(connected_within(m, from, y, round as nat));
                        }
                    }
                    self.visit_neighbor(
                        c,
                        x,
                        from,
                        round,
                        &mut visited,
                        &mut dist,
                        &mut prev,
                        &mut next,
                        Ghost(m),
                        Ghost(frontier@),
                        Ghost(fi as int),
                        Ghost(np + cj as int),
                    );
                    cj += 1;
                }
                proof {
                    assert forall|y: usize|
                        y < n implies visited@[y as int] == (connected_within(
                        m,
                        from,
                        y,
                        round as nat,
                    ) || und_touched(m, frontier@, fi + 1, y)) by {
                        assert(neighbor_listed(m, x, nlen as int, y) == linked(m, x, y)) by {
                            lemma_neighbor_scan(m, x, y);
                        }
                        assert(und_touched(m, frontier@, fi + 1, y) == (und_touched(
                            m,
                            frontier@,
                            fi as int,
                            y,
                        ) || linked(m, x, y))) by {
                            if und_touched(m, frontier@, fi + 1, y) {
                                let t = choose|t: int|
                                    0 <= t < fi + 1 && #[trigger] linked(m, frontier@[t], y);
                                if t < fi {
                                    assert(und_touched(m, frontier@, fi as int, y));
                                }
                            }
                            if linked(m, x, y) {
                                assert(linked(m, frontier@[fi as int], y));
                                assert(und_touched(m, frontier@, fi + 1, y));
                            }
                        }
                    }
                    assert forall|y: usize| #[trigger] next@.contains(y) <==> (und_touched(
                        m,
                        frontier@,
                        fi + 1,
                        y,
                    ) && !connected_within(m, from, y, round as nat)) by {
                        assert(neighbor_listed(m, x, nlen as int, y) == linked(m, x, y)) by {
                            lemma_neighbor_scan(m, x, y);
                        }
                        assert(und_touched(m, frontier@, fi + 1, y) == (und_touched(
                            m,
                            frontier@,
                            fi as int,
                            y,
                        ) || linked(m, x, y))) by {
                            if und_touched(m, frontier@, fi + 1, y) {
                                let t = choose|t: int|
                                    0 <= t < fi + 1 && #[trigger] linked(m, frontier@[t], y);
                                if t < fi {
                                    assert(und_touched(m, frontier@, fi as int, y));
                                }
                            }
                            if linked(m, x, y) {
                                assert(linked(m, frontier@[fi as int], y));
                                assert(und_touched(m, frontier@, fi + 1, y));
                            }
                        }
                    }
                }
                fi += 1;
            }
            proof {
                let rn = round as nat;
                assert forall|y: usize|
                    y < n implies visited@[y as int] == connected_within(m, from, y, rn + 1) by {
                    if visited@[y as int] {
                        if connected_within(m, from, y, rn) {
                            let k = choose|k: nat| k <= rn && connected_in(m, from, y, k);
                            assert(k <= rn + 1 && connected_in(m, from, y, k));
                        } else {
                            let t = choose|t: int|
                                0 <= t < frontier@.len() && #[trigger] linked(m, frontier@[t], y);
                            let z = frontier@[t];
                            assert(frontier@.contains(z));
                            assert(exact_hops(m, from, z, rn));
                            let k = choose|k: nat| k <= rn && connected_in(m, from, z, k);
                            lemma_con_snoc(m, from, y, k);
                            assert(connected_in(m, from, z, k) && linked(m, z, y));
                            assert(connected_in(m, from, y, k + 1) && k + 1 <= rn + 1);
                        }
                    }
                    if connected_within(m, from, y, rn + 1) && !visited@[y as int] {
                        let k = choose|k: nat| k <= rn + 1 && connected_in(m, from, y, k);
                        if k <= rn {
                            assert(connected_within(m, from, y, rn));
                            assert(false);
                        } else {
                            lemma_con_snoc(m, from, y, rn);
                            let z = choose|z: usize|
                                connected_in(m, from, z, rn) && #[trigger] linked(m, z, y);
                            assert(connected_within(m, from, z, rn));
                            if rn == 0 {
                                assert(z == from);
                                assert(exact_hops(m, from, z, rn));
                            } else {
                                if connected_within(m, from, z, (rn - 1) as nat) {
                                    let k2 = choose|k2: nat|
                                        k2 <= rn - 1 && connected_in(m, from, z, k2);
                                    lemma_con_snoc(m, from, y, k2);
                                    assert(connected_in(m, from, z, k2) && linked(m, z, y));
                                    assert(connected_in(m, from, y, k2 + 1) && k2 + 1 <= rn);
                                    assert(connected_within(m, from, y, rn));
                                    assert(false);
                                } else {
                                    assert(exact_hops(m, from, z, rn));
                                }
                            }
                            assert(frontier@.contains(z));
                            let t = choose|t: int| 0 <= t < frontier@.len() && frontier@[t] == z;
                            assert(linked(m, frontier@[t], y));
                            assert(und_touched(m, frontier@, frontier@.len() as int, y));
                            assert(false);
                        }
                    }
                }
                assert forall|y: usize| #[trigger] next@.contains(y) <==> exact_hops(
                    m,
                    from,
                    y,
                    rn + 1,
                ) by {
                    if next@.contains(y) {
                        assert(y < n) by {
                            let t = choose|t: int|
                                0 <= t < frontier@.len() && #[trigger] linked(m, frontier@[t], y);
                            if m.parent_step(frontier@[t], y) {
                            } else {
                                assert(m.children[frontier@[t] as int].contains(y));
                            }
                        }
                        assert(visited@[y as int]);
                        assert(connected_within(m, from, y, rn + 1));
                        assert(!connected_within(m, from, y, rn));
                    }
                    if exact_hops(m, from, y, rn + 1) && !next@.contains(y) {
                        assert(y < n) by {
                            let k = choose|k: nat| k <= rn + 1 && connected_in(m, from, y, k);
                            lemma_con_valid(m, from, y, k);
                        }
                        assert(visited@[y as int]);
                        assert(und_touched(m, frontier@, frontier@.len() as int, y));
                        assert(false);
                    }
                }
                assert forall|y: usize|
                    #[trigger] next@.contains(y) implies dist@[y as int] == round + 1 by {
                    assert(y < n && visited@[y as int]);
                    assert(exact_hops(m, from, y, dist@[y as int] as nat));
                    assert(exact_hops(m, from, y, rn + 1));
                    let d = dist@[y as int] as nat;
                    if d < rn + 1 {
                        let k = choose|k: nat| k <= d && connected_in(m, from, y, k);
                        assert(connected_within(m, from, y, rn));
                        assert(false);
                    }
                    if d > rn + 1 {
                        let k = choose|k: nat| k <= rn + 1 && connected_in(m, from, y, k);
                        assert(connected_within(m, from, y, (d - 1) as nat));
                        assert(false);
                    }
                }
            }
            frontier = next;
            round += 1;
        }
        proof {
            if round < n {
                assert(frontier@.len() == 0);
                assert(round >= 1) by {
                    if round == 0 {
                        assert(connected_in(m, from, from, 0));
                        assert(exact_hops(m, from, from, 0));
                        assert(frontier@.contains(from));
                    }
                }
                assert forall|z: usize| !exact_hops(m, from, z, round as nat) by {
                    assert(!frontier@.contains(z));
                }
            }
            assert forall|y: usize|
                y < n implies (visited@[y as int]) == (exists|k: nat|
                connected_in(m, from, y, k)) by {
                if visited@[y as int] {
                    let k = choose|k: nat| k <= round && connected_in(m, from, y, k);
                    assert(connected_in(m, from, y, k));
                }
                if (exists|k: nat| connected_in(m, from, y, k)) && !visited@[y as int] {
                    let k = choose|k: nat| connected_in(m, from, y, k);
                    lemma_reach_to_within(m, from, y, k, round as nat);
                    assert(false);
                }
            }
        }
        (visited, dist, prev)
    }

    /// Degree of separation: breadth-first search over the undirected view
    /// of the pedigree — each individual adjacent to its parents and its
    /// children. Returns one minimum-edge path `[from, ..., to]`,
    /// reconstructed from the recorded back-pointers, or nothing exactly
    /// when an endpoint is unknown or `to` is unreachable.
    #[verifier::loop_isolation(false)]
    #[verifier::rlimit(100)]
    pub fn shortest_path(&self, from: usize, to: usize) -> (r: Option<Vec<usize>>)
        requires
            self.wf(),
        ensures
            (r is Some) <==> (from < self@.len() && to < self@.len() && exists|k: nat|
                connected_in(self.model(), from, to, k)),
            match r {
                Some(p) => {
                    &&& p@.len() >= 1
                    &&& p@[0] == from
                    &&& p@.last() == to
                    &&& und_chain(self.model(), p@)
                    &&& forall|k: nat|
                        connected_in(self.model(), from, to, k) ==> k + 1 >= p@.len()
                },
                None => true,
            },
    {
        let ghost m = self.model();
        let n = self.arena_len();
        if from >= n || to >= n {
            return None;
        }
        let bfs = self.und_levels(from);
        let visited = bfs.0;
        let dist = bfs.1;
        let prev = bfs.2;
        if !visited[to] {
            return None;
        }
        proof {
            assert(exact_hops(m, from, to, dist@[to as int] as nat));
        }
        let path = self.walk_back(from, to, &visited, &dist, &prev);
        proof {
            let d = dist@[to as int] as nat;
            assert(exact_hops(m, from, to, d));
            assert forall|k: nat| connected_in(m, from, to, k) implies k + 1 >= path@.len() by {
                if k < d {
                    assert(k <= (d - 1) as nat && connected_in(m, from, to, k));
                    assert(connected_within(m, from, to, (d - 1) as nat));
                    assert(false);
                }
            }
            assert(exists|k: nat| connected_in(m, from, to, k)) by {
                let k = choose|k: nat| k <= d && connected_in(m, from, to, k);
                assert(connected_in(m, from, to, k));
            }
        }
        Some(path)
    }

    /// Follow the recorded back-pointers from `to` up to `from` and hand the
    /// walk back in forward order.
    #[verifier::loop_isolation(false)]
    #[verifier::rlimit(100)]
    fn walk_back(
        &self,
        from: usize,
        to: usize,
        visited: &Vec<bool>,
        dist: &Vec<usize>,
        prev: &Vec<usize>,
    ) -> (path: Vec<usize>)
        requires
            self.wf(),
            from < self@.len(),
            to < self@.len(),
            visited@.len() == self@.len(),
            dist@.len() == self@.len(),
            prev@.len() == self@.len(),
            visited@[to as int],
            forall|y: usize|
                y < self@.len() && #[trigger] visited@[y as int] && y != from ==> {
                    let pv = prev@[y as int];
                    &&& pv < self@.len()
                    &&& visited@[pv as int]
                    &&& linked(self.model(), pv, y)
                    &&& dist@[pv as int] + 1 == dist@[y as int]
                },
            dist@[from as int] == 0,
        ensures
            path@.len() == dist@[to as int] + 1,
            path@[0] == from,
            path@.last() == to,
            und_chain(self.model(), path@),
    {
        let ghost m = self.model();
        let n = self.arena_len();
        let mut back: Vec<usize> = Vec::new();
        back.push(to);
        let mut cur = to;
        while cur != from
            invariant
                cur < n,
                visited@[cur as int],
                back@.len() >= 1,
                back@[0] == to,
                back@.last() == cur,
                forall|i: int|
                    0 <= i < back@.len() - 1 ==> #[trigger] linked(m, back@[i + 1], back@[i]),
                back@.len() == dist@[to as int] - dist@[cur as int] + 1,
            decreases dist@[cur as int],
        {
            let nx = prev[cur];
            proof {
                assert(visited@[cur as int] && cur != from);
                assert(nx < n && visited@[nx as int] && linked(m, nx, cur));
                assert(dist@[nx as int] + 1 == dist@[cur as int]);
            }
            back.push(nx);
            cur = nx;
            proof {
                assert forall|i: int|
                    0 <= i < back@.len() - 1 implies #[trigger] linked(m, back@[i + 1], back@[i]) by {
                    if i < back@.len() - 2 {
                        assert(linked(m, back@.drop_last()[i + 1], back@.drop_last()[i]));
                        assert(back@[i + 1] == back@.drop_last()[i + 1]);
                        assert(back@[i] == back@.drop_last()[i]);
                    } else {
                        assert(back@[i + 1] == nx && linked(m, nx, back@[i]));
                    }
                }
            }
        }
        let mut path: Vec<usize> = Vec::new();
        let mut t = back.len();
        while t > 0
            invariant
                t <= back@.len(),
                path@.len() == back@.len() - t,
                forall|i: int|
                    0 <= i < path@.len() ==> #[trigger] path@[i] == back@[back@.len() - 1 - i],
            decreases t,
        {
            t -= 1;
            path.push(back[t]);
        }
        proof {
            let bl = back@.len();
            assert(path@.len() == bl);
            assert(path@[0] == back@[bl - 1]);
            assert(back@.last() == from);
            assert(path@.last() == back@[0]);
            assert(und_chain(m, path@)) by {
                assert forall|i: int| 0 <= i < path@.len() - 1 implies #[trigger] linked(
                    m,
                    path@[i],
                    path@[i + 1],
                ) by {
                    let u = bl - 2 - i;
                    assert(path@[i] == back@[u + 1] && path@[i + 1] == back@[u]);
                    assert(linked(m, back@[u + 1], back@[u]));
                }
            }
        }
        path
    }

    /// Mark one neighbour `p` of the frontier individual `x`, record its
    /// distance and back-pointer, and queue it, unless it was already seen.
    #[verifier::rlimit(100)]
    fn visit_neighbor(
        &self,
        p: usize,
        x: usize,
        from: usize,
        round: usize,
        visited: &mut Vec<bool>,
        dist: &mut Vec<usize>,
        prev: &mut Vec<usize>,
        next: &mut Vec<usize>,
        m: Ghost<Pedigree>,
        fr: Ghost<Seq<usize>>,
        fi: Ghost<int>,
        uj: Ghost<int>,
    )
        requires
            m@ == self.model(),
            self.wf(),
            p < self@.len(),
            x < self@.len(),
            from < self@.len(),
            round < self@.len(),
            old(visited)@.len() == self@.len(),
            old(dist)@.len() == self@.len(),
            old(prev)@.len() == self@.len(),
            0 <= fi@ < fr@.len(),
            fr@[fi@] == x,
            0 <= uj@ < neighbor_list(m@, x).len(),
            (neighbor_list(m@, x)[uj@]) == p,
            linked(m@, x, p),
            exact_hops(m@, from, x, round as nat),
            old(dist)@[x as int] == round,
            old(visited)@[x as int],
            forall|y: usize| #[trigger] fr@.contains(y) ==> y < self@.len() && old(visited)@[y as int],
            forall|y: usize|
                y < self@.len() ==> old(visited)@[y as int] == (connected_within(
                    m@,
                    from,
                    y,
                    round as nat,
                ) || und_touched(m@, fr@, fi@, y) || neighbor_listed(m@, x, uj@, y)),
            forall|y: usize|
                #[trigger] old(next)@.contains(y) <==> ((und_touched(m@, fr@, fi@, y)
                    || neighbor_listed(m@, x, uj@, y)) && !connected_within(
                    m@,
                    from,
                    y,
                    round as nat,
                )),
            forall|y: usize| #[trigger] fr@.contains(y) ==> old(dist)@[y as int] == round,
            forall|y: usize|
                y < self@.len() && #[trigger] old(visited)@[y as int] ==> exact_hops(
                    m@,
                    from,
                    y,
                    old(dist)@[y as int] as nat,
                ) && old(dist)@[y as int] <= round + 1,
            forall|y: usize|
                y < self@.len() && #[trigger] old(visited)@[y as int] && y != from ==> {
                    let pv = old(prev)@[y as int];
                    &&& pv < self@.len()
                    &&& old(visited)@[pv as int]
                    &&& linked(m@, pv, y)
                    &&& old(dist)@[pv as int] + 1 == old(dist)@[y as int]
                },
            old(dist)@[from as int] == 0,
        ensures
            final(visited)@.len() == self@.len(),
            final(dist)@.len() == self@.len(),
            final(prev)@.len() == self@.len(),
            final(dist)@[x as int] == round,
            final(visited)@[x as int],
            forall|y: usize|
                #[trigger] fr@.contains(y) ==> y < self@.len() && final(visited)@[y as int],
            forall|y: usize|
                y < self@.len() ==> final(visited)@[y as int] == (connected_within(
                    m@,
                    from,
                    y,
                    round as nat,
                ) || und_touched(m@, fr@, fi@, y) || neighbor_listed(m@, x, uj@ + 1, y)),
            forall|y: usize|
                #[trigger] final(next)@.contains(y) <==> ((und_touched(m@, fr@, fi@, y)
                    || neighbor_listed(m@, x, uj@ + 1, y)) && !connected_within(
                    m@,
                    from,
                    y,
                    round as nat,
                )),
            forall|y: usize| #[trigger] fr@.contains(y) ==> final(dist)@[y as int] == round,
            forall|y: usize|
                y < self@.len() && #[trigger] final(visited)@[y as int] ==> exact_hops(
                    m@,
                    from,
                    y,
                    final(dist)@[y as int] as nat,
                ) && final(dist)@[y as int] <= round + 1,
            forall|y: usize|
                y < self@.len() && #[trigger] final(visited)@[y as int] && y != from ==> {
                    let pv = final(prev)@[y as int];
                    &&& pv < self@.len()
                    &&& final(visited)@[pv as int]
                    &&& linked(m@, pv, y)
                    &&& final(dist)@[pv as int] + 1 == final(dist)@[y as int]
                },
            final(dist)@[from as int] == 0,
    {
        let ghost n = self@.len();
        let ghost gm = m@;
        let nvis = visited.len();
        proof {
            broadcast use vstd::seq_lib::lemma_seq_contains_after_push;

            assert(connected_in(gm, from, from, 0));
            assert(connected_within(gm, from, from, round as nat));
            assert(old(visited)@[from as int]);
        }
        if !visited[p] {
            let ghost visited_before = visited@;
            let ghost next_before = next@;
            visited.set(p, true);
            dist.set(p, round + 1);
            prev.set(p, x);
            next.push(p);
            proof {
                assert(p != from);
                assert(p != x);
                assert(!connected_within(gm, from, p, round as nat));
                assert(exact_hops(gm, from, p, (round + 1) as nat)) by {
                    let k = choose|k: nat| k <= round && connected_in(gm, from, x, k);
                    lemma_con_snoc(gm, from, p, k);
                    assert(connected_in(gm, from, x, k) && linked(gm, x, p));
                    assert(connected_in(gm, from, p, k + 1));
                    assert(k + 1 <= round + 1);
                }
                assert((neighbor_list(gm, x)[uj@]) == p);
                assert(neighbor_listed(gm, x, uj@ + 1, p));
                assert forall|y: usize|
                    y < n implies visited@[y as int] == (connected_within(gm, from, y, round as nat)
                    || und_touched(gm, fr@, fi@, y) || neighbor_listed(gm, x, uj@ + 1, y)) by {
                    if y != p {
                        assert(visited@[y as int] == visited_before[y as int]);
                        assert(neighbor_listed(gm, x, uj@ + 1, y) == neighbor_listed(
                            gm,
                            x,
                            uj@,
                            y,
                        )) by {
                            if neighbor_listed(gm, x, uj@ + 1, y) {
                                let u = choose|u: int|
                                    0 <= u < uj@ + 1 && (#[trigger] neighbor_list(gm, x)[u]) == y;
                                assert(u < uj@);
                            }
                        }
                    }
                }
                assert forall|y: usize| #[trigger] next@.contains(y) <==> ((und_touched(
                    gm,
                    fr@,
                    fi@,
                    y,
                ) || neighbor_listed(gm, x, uj@ + 1, y)) && !connected_within(
                    gm,
                    from,
                    y,
                    round as nat,
                )) by {
                    if y != p {
                        assert(next@.contains(y) == next_before.contains(y));
                        assert(neighbor_listed(gm, x, uj@ + 1, y) == neighbor_listed(
                            gm,
                            x,
                            uj@,
                            y,
                        )) by {
                            if neighbor_listed(gm, x, uj@ + 1, y) {
                                let u = choose|u: int|
                                    0 <= u < uj@ + 1 && (#[trigger] neighbor_list(gm, x)[u]) == y;
                                assert(u < uj@);
                            }
                        }
                    } else {
                        assert(next@.contains(p));
                    }
                }
                assert forall|y: usize| #[trigger] fr@.contains(y) implies dist@[y as int]
                    == round by {
                    assert(visited_before[y as int]);
                    assert(y != p);
                }
                assert forall|y: usize|
                    y < n && #[trigger] visited@[y as int] implies exact_hops(
                    gm,
                    from,
                    y,
                    dist@[y as int] as nat,
                ) && dist@[y as int] <= round + 1 by {
                    if y != p {
                        assert(visited_before[y as int]);
                    }
                }
                assert forall|y: usize|
                    y < n && #[trigger] visited@[y as int] && y != from implies {
                    let pv = prev@[y as int];
                    &&& pv < n
                    &&& visited@[pv as int]
                    &&& linked(gm, pv, y)
                    &&& dist@[pv as int] + 1 == dist@[y as int]
                } by {
                    if y == p {
                        assert(prev@[y as int] == x);
                        assert(visited@[x as int]);
                        assert(dist@[x as int] == round);
                    } else {
                        assert(visited_before[y as int]);
                        let pv = prev@[y as int];
                        assert(visited_before[pv as int]);
                        assert(pv != p);
                    }
                }
            }
        } else {
            proof {
                assert((neighbor_list(gm, x)[uj@]) == p);
                assert(neighbor_listed(gm, x, uj@ + 1, p));
                assert forall|y: usize|
                    y < n implies visited@[y as int] == (connected_within(gm, from, y, round as nat)
                    || und_touched(gm, fr@, fi@, y) || neighbor_listed(gm, x, uj@ + 1, y)) by {
                    if y != p {
                        assert(neighbor_listed(gm, x, uj@ + 1, y) == neighbor_listed(
                            gm,
                            x,
                            uj@,
                            y,
                        )) by {
                            if neighbor_listed(gm, x, uj@ + 1, y) {
                                let u = choose|u: int|
                                    0 <= u < uj@ + 1 && (#[trigger] neighbor_list(gm, x)[u]) == y;
                                assert(u < uj@);
                            }
                        }
                    }
                }
                assert forall|y: usize| #[trigger] next@.contains(y) <==> ((und_touched(
                    gm,
                    fr@,
                    fi@,
                    y,
                ) || neighbor_listed(gm, x, uj@ + 1, y)) && !connected_within(
                    gm,
                    from,
                    y,
                    round as nat,
                )) by {
                    if y != p {
                        assert(neighbor_listed(gm, x, uj@ + 1, y) == neighbor_listed(
                            gm,
                            x,
                            uj@,
                            y,
                        )) by {
                            if neighbor_listed(gm, x, uj@ + 1, y) {
                                let u = choose|u: int|
                                    0 <= u < uj@ + 1 && (#[trigger] neighbor_list(gm, x)[u]) == y;
                                assert(u < uj@);
                            }
                        }
                    } else {
                        if !connected_within(gm, from, p, round as nat) {
                            assert(und_touched(gm, fr@, fi@, p) || neighbor_listed(
                                gm,
                                x,
                                uj@,
                                p,
                            ));
                        }
                    }
                }
            }
        }
    }
}

} // verus!
