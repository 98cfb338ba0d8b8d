use vstd::prelude::*;

use crate::model::Pedigree;
use crate::pedigree::Genealogy;

verus! {

/// Strictly ascending: sorted and duplicate-free at once.
pub open spec fn strictly_sorted(s: Seq<usize>) -> bool {
    forall|a: int, b: int| 0 <= a < b < s.len() ==> s[a] < s[b]
}

/// `y` first appears in round `r` of the breadth-first expansion above `id`.
pub open spec fn exact_depth(m: Pedigree, id: usize, y: usize, r: nat) -> bool {
    m.ancestor_within(y, id, r) && (r == 0 || !m.ancestor_within(y, id, (r - 1) as nat))
}

/// `y` is a parent of one of the first `upto` frontier entries.
pub open spec fn touched(m: Pedigree, fr: Seq<usize>, upto: int, y: usize) -> bool {
    exists|t: int| 0 <= t < upto && #[trigger] m.parent_step(fr[t], y)
}

/// `y` occurs among the first `upto` recorded parents of `x`.
pub open spec fn listed_before(m: Pedigree, x: usize, upto: int, y: usize) -> bool {
    exists|u: int| 0 <= u < upto && (#[trigger] m.parents[x as int][u]) == y
}

/// Once a round of the expansion finds nobody at its exact depth, every
/// reachable ancestor was already found in an earlier round.
proof fn lemma_depth_collapse(m: Pedigree, id: usize, r: nat, y: usize, k: nat)
    requires
        r >= 1,
        forall|z: usize| !exact_depth(m, id, z, r),
        m.reaches_up(id, y, k),
    ensures
        m.ancestor_within(y, id, (r - 1) as nat),
    decreases k,
{
    if k <= r - 1 {
        assert(m.reaches_up(id, y, k) && k <= (r - 1) as nat);
    } else {
        m.lemma_reach_split(id, y, k, r);
        let z = choose|z: usize|
            #[trigger] m.reaches_up(id, z, r) && m.reaches_up(z, y, (k - r) as nat);
        assert(m.ancestor_within(z, id, r));
        assert(!exact_depth(m, id, z, r));
        let k1 = choose|k1: nat| k1 <= r - 1 && m.reaches_up(id, z, k1);
        m.lemma_reach_trans(id, z, y, k1, (k - r) as nat);
        lemma_depth_collapse(m, id, r, y, (k1 + k - r) as nat);
    }
}

impl<T> Genealogy<T> {
    /// Breadth-first expansion over parent edges from `id`, at most `rounds`
    /// rounds deep, stopping early once a round adds nothing new. The result
    /// is sorted ascending and duplicate-free.
    #[verifier::loop_isolation(false)]
    fn ancestors_upto(&self, id: usize, rounds: usize) -> (r: Vec<usize>)
        requires
            self.wf(),
            id < self@.len(),
        ensures
            strictly_sorted(r@),
            forall|y: usize|
                #[trigger] r@.contains(y) <==> self.model().ancestor_within(y, id, rounds as nat),
    {
        let ghost m = self.model();
        let n = self.arena_len();
        let mut visited: Vec<bool> = Vec::new();
        while visited.len() < n
            invariant
                visited@.len() <= n,
                forall|j: int| 0 <= j < visited@.len() ==> !(#[trigger] visited@[j]),
            decreases n - visited@.len(),
        {
            visited.push(false);
        }
        visited.set(id, true);
        let mut frontier: Vec<usize> = Vec::new();
        frontier.push(id);
        let mut round: usize = 0;
        proof {
            assert(m.reaches_up(id, id, 0));
            assert forall|y: usize| y < n implies visited@[y as int] == m.ancestor_within(
                y,
                id,
                0,
            ) by {
                if m.ancestor_within(y, id, 0) {
                    let k = choose|k: nat| k <= 0 && m.reaches_up(id, y, k);
                    assert(y == id);
                }
            }
            assert forall|y: usize| #[trigger] frontier@.contains(y) <==> exact_depth(
                m,
                id,
                y,
                0,
            ) by {
                assert(frontier@ =~= seq![id]);
                if frontier@.contains(y) {
                    assert(y == id);
                }
                if exact_depth(m, id, y, 0) {
                    let k = choose|k: nat| k <= 0 && m.reaches_up(id, y, k);
                    assert(y == id && frontier@[0] == id);
                }
            }
        }
        while round < rounds && frontier.len() != 0
            invariant
                round <= rounds,
                visited@.len() == n,
                forall|y: usize|
                    y < n ==> visited@[y as int] == m.ancestor_within(y, id, round as nat),
                forall|y: usize|
                    #[trigger] frontier@.contains(y) <==> exact_depth(m, id, y, round as nat),
            decreases rounds - round,
        {
            let mut next: Vec<usize> = Vec::new();
            let mut fi: usize = 0;
            while fi < frontier.len()
                invariant
                    fi <= frontier@.len(),
                    visited@.len() == n,
                    forall|y: usize|
                        y < n ==> visited@[y as int] == (m.ancestor_within(y, id, round as nat)
                            || touched(m, frontier@, fi as int, y)),
                    forall|y: usize|
                        #[trigger] next@.contains(y) <==> (touched(m, frontier@, fi as int, y)
                            && !m.ancestor_within(y, id, round as nat)),
                decreases frontier@.len() - fi,
            {
                let x = frontier[fi];
                proof {
                    assert(frontier@.contains(x));
                    assert(exact_depth(m, id, x, round as nat));
                    let k = choose|k: nat| k <= round && m.reaches_up(id, x, k);
                    m.lemma_reach_valid(id, x, k);
                    assert(listed_before(m, x, 0, x) == false);
                }
                let np = self.parent_count(x);
                let mut pj: usize = 0;
                while pj < np
                    invariant
                        x < n,
                        np == m.parents[x as int].len(),
                        fi < frontier@.len(),
                        frontier@[fi as int] == x,
                        pj <= np,
                        visited@.len() == n,
                        forall|y: usize|
                            y < n ==> visited@[y as int] == (m.ancestor_within(y, id, round as nat)
                                || touched(m, frontier@, fi as int, y) || listed_before(
                                m,
                                x,
                                pj as int,
                                y,
                            )),
                        forall|y: usize|
                            #[trigger] next@.contains(y) <==> ((touched(m, frontier@, fi as int, y)
                                || listed_before(m, x, pj as int, y)) && !m.ancestor_within(
                                y,
                                id,
                                round as nat,
                            )),
                    decreases np - pj,
                {
                    let p = self.parent_at(x, pj);
                    proof {
                        assert(m.parents[x as int].contains(p));
                        assert(p < n);
                    }
                    let ghost visited_before = visited@;
                    let ghost next_before = next@;
                    if !visited[p] {
                        visited.set(p, true);
                        next.push(p);
                    }
                    proof {
                        broadcast use vstd::seq_lib::lemma_seq_contains_after_push;

                        assert forall|y: usize|
                            y < n implies visited@[y as int] == (m.ancestor_within(
                            y,
                            id,
                            round as nat,
                        ) || touched(m, frontier@, fi as int, y) || listed_before(
                            m,
                            x,
                            pj + 1,
                            y,
                        )) by {
                            if y == p {
                                assert((m.parents[x as int][pj as int]) == y);
                                assert(listed_before(m, x, pj + 1, y));
                            } else {
                                assert(visited@[y as int] == visited_before[y as int]);
                                assert(listed_before(m, x, pj + 1, y) == listed_before(
                                    m,
                                    x,
                                    pj as int,
                                    y,
                                )) by {
                                    if listed_before(m, x, pj + 1, y) {
                                        let u = choose|u: int|
                                            0 <= u < pj + 1 && (#[trigger] m.parents[x as int][u])
                                                == y;
                                        assert(u < pj);
                                    }
                                }
                            }
                        }
                        assert forall|y: usize| #[trigger] next@.contains(y) <==> ((touched(
                            m,
                            frontier@,
                            fi as int,
                            y,
                        ) || listed_before(m, x, pj + 1, y)) && !m.ancestor_within(
                            y,
                            id,
                            round as nat,
                        )) by {
                            assert(listed_before(m, x, pj + 1, p)) by {
                                assert((m.parents[x as int][pj as int]) == p);
                            }
                            if y != p {
                                assert(listed_before(m, x, pj + 1, y) == listed_before(
                                    m,
                                    x,
                                    pj as int,
                                    y,
                                )) by {
                                    if listed_before(m, x, pj + 1, y) {
                                        let u = choose|u: int|
                                            0 <= u < pj + 1 && (#[trigger] m.parents[x as int][u])
                                                == y;
                                        assert(u < pj);
                                    }
                                }
                                assert(next@.contains(y) == next_before.contains(y));
                            } else {
                                if visited_before[p as int] {
                                    assert(next@.contains(p) == next_before.contains(p));
                                } else {
                                    assert(next@.contains(p));
                                }
                            }
                        }
                    }
                    pj += 1;
                }
                proof {
                    assert forall|y: usize|
                        y < n implies visited@[y as int] == (m.ancestor_within(y, id, round as nat)
                        || touched(m, frontier@, fi + 1, y)) by {
                        assert(touched(m, frontier@, fi + 1, y) == (touched(m, frontier@, fi as int, y)
                            || m.parent_step(x, y))) by {
                            if touched(m, frontier@, fi + 1, y) {
                                let t = choose|t: int|
                                    0 <= t < fi + 1 && #[trigger] m.parent_step(frontier@[t], y);
                                if t < fi {
                                    assert(touched(m, frontier@, fi as int, y));
                                } else {
                                    assert(m.parent_step(x, y));
                                }
                            }
                            if m.parent_step(x, y) {
                                assert(m.parent_step(frontier@[fi as int], y));
                                assert(touched(m, frontier@, fi + 1, y));
                            }
                        }
                        assert(listed_before(m, x, np as int, y) == m.parent_step(x, y)) by {
                            if listed_before(m, x, np as int, y) {
                                let u = choose|u: int|
                                    0 <= u < np && (#[trigger] m.parents[x as int][u]) == y;
                                assert(m.parents[x as int].contains(y));
                            }
                            if m.parent_step(x, y) {
                                let u = choose|u: int|
                                    0 <= u < m.parents[x as int].len() && m.parents[x as int][u]
                                        == y;
                                assert((m.parents[x as int][u]) == y);
                            }
                        }
                    }
                    assert forall|y: usize| #[trigger] next@.contains(y) <==> (touched(
                        m,
                        frontier@,
                        fi + 1,
                        y,
                    ) && !m.ancestor_within(y, id, round as nat)) by {
                        assert(touched(m, frontier@, fi + 1, y) == (touched(m, frontier@, fi as int, y)
                            || m.parent_step(x, y))) by {
                            if touched(m, frontier@, fi + 1, y) {
                                let t = choose|t: int|
                                    0 <= t < fi + 1 && #[trigger] m.parent_step(frontier@[t], y);
                                if t < fi {
                                    assert(touched(m, frontier@, fi as int, y));
                                }
                            }
                            if m.parent_step(x, y) {
                                assert(m.parent_step(frontier@[fi as int], y));
                                assert(touched(m, frontier@, fi + 1, y));
                            }
                        }
                        assert(listed_before(m, x, np as int, y) == m.parent_step(x, y)) by {
                            if listed_before(m, x, np as int, y) {
                                let u = choose|u: int|
                                    0 <= u < np && (#[trigger] m.parents[x as int][u]) == y;
                                assert(m.parents[x as int].contains(y));
                            }
                            if m.parent_step(x, y) {
                                let u = choose|u: int|
                                    0 <= u < m.parents[x as int].len() && m.parents[x as int][u]
                                        == y;
                                assert((m.parents[x as int][u]) == y);
                            }
                        }
                    }
                }
                fi += 1;
            }
            proof {
                let rn = round as nat;
                assert forall|y: usize|
                    y < n implies visited@[y as int] == m.ancestor_within(y, id, rn + 1) by {
                    if visited@[y as int] {
                        if m.ancestor_within(y, id, rn) {
                            let k = choose|k: nat| k <= rn && m.reaches_up(id, y, k);
                            assert(k <= rn + 1 && m.reaches_up(id, y, k));
                        } else {
                            let t = choose|t: int|
                                0 <= t < frontier@.len() && #[trigger] m.parent_step(
                                    frontier@[t],
                                    y,
                                );
                            let z = frontier@[t];
                            assert(frontier@.contains(z));
                            assert(exact_depth(m, id, z, rn));
                            let k = choose|k: nat| k <= rn && m.reaches_up(id, z, k);
                            m.lemma_reach_snoc(id, y, k);
                            assert(m.reaches_up(id, z, k) && m.parent_step(z, y));
                            assert(m.reaches_up(id, y, k + 1) && k + 1 <= rn + 1);
                        }
                    }
                    if m.ancestor_within(y, id, rn + 1) && !visited@[y as int] {
                        let k = choose|k: nat| k <= rn + 1 && m.reaches_up(id, y, k);
                        if k <= rn {
                            assert(m.ancestor_within(y, id, rn));
                            assert(false);
                        } else {
                            m.lemma_reach_snoc(id, y, rn);
                            let z = choose|z: usize|
                                m.reaches_up(id, z, rn) && #[trigger] m.parent_step(z, y);
                            assert(m.ancestor_within(z, id, rn));
                            if rn == 0 {
                                assert(z == id);
                                assert(exact_depth(m, id, z, rn));
                            } else {
                                if m.ancestor_within(z, id, (rn - 1) as nat) {
                                    let k2 = choose|k2: nat|
                                        k2 <= rn - 1 && m.reaches_up(id, z, k2);
                                    m.lemma_reach_snoc(id, y, k2);
                                    assert(m.reaches_up(id, z, k2) && m.parent_step(z, y));
                                    assert(m.reaches_up(id, y, k2 + 1) && k2 + 1 <= rn);
                                    assert(m.ancestor_within(y, id, rn));
                                    assert(false);
                                } else {
                                    assert(exact_depth(m, id, z, rn));
                                }
                            }
                            assert(frontier@.contains(z));
                            let t = choose|t: int|
                                0 <= t < frontier@.len() && frontier@[t] == z;
                            assert(m.parent_step(frontier@[t], y));
                            assert(touched(m, frontier@, frontier@.len() as int, y));
                            assert(false);
                        }
                    }
                }
                assert forall|y: usize| #[trigger] next@.contains(y) <==> exact_depth(
                    m,
                    id,
                    y,
                    rn + 1,
                ) by {
                    if next@.contains(y) {
                        assert(y < n) by {
                            let t = choose|t: int|
                                0 <= t < frontier@.len() && #[trigger] m.parent_step(
                                    frontier@[t],
                                    y,
                                );
                        }
                        assert(visited@[y as int]);
                        assert(m.ancestor_within(y, id, rn + 1));
                        assert(!m.ancestor_within(y, id, rn));
                    }
                    if exact_depth(m, id, y, rn + 1) && !next@.contains(y) {
                        assert(y < n) by {
                            let k = choose|k: nat| k <= rn + 1 && m.reaches_up(id, y, k);
                            m.lemma_reach_valid(id, y, k);
                        }
                        assert(visited@[y as int]);
                        assert(touched(m, frontier@, frontier@.len() as int, y));
                        assert(false);
                    }
                }
            }
            frontier = next;
            round += 1;
        }
        proof {
            assert forall|y: usize|
                y < n implies visited@[y as int] == m.ancestor_within(y, id, rounds as nat) by {
                if round == rounds {
                } else {
                    assert(frontier@.len() == 0);
                    assert(round >= 1) by {
                        if round == 0 {
                            assert(m.reaches_up(id, id, 0));
                            assert(exact_depth(m, id, id, 0));
                            assert(frontier@.contains(id));
                        }
                    }
                    assert forall|z: usize| !exact_depth(m, id, z, round as nat) by {
                        assert(!frontier@.contains(z));
                    }
                    if m.ancestor_within(y, id, rounds as nat) {
                        let k = choose|k: nat| k <= rounds && m.reaches_up(id, y, k);
                        lemma_depth_collapse(m, id, round as nat, y, k);
                        let k2 = choose|k2: nat| k2 <= round - 1 && m.reaches_up(id, y, k2);
                        assert(k2 <= round as nat && m.reaches_up(id, y, k2));
                    }
                    if visited@[y as int] {
                        let k = choose|k: nat| k <= round && m.reaches_up(id, y, k);
                        assert(k <= rounds as nat && m.reaches_up(id, y, k));
                    }
                }
            }
        }
        let mut out: Vec<usize> = Vec::new();
        let mut i: usize = 0;
        while i < n
            invariant
                i <= n,
                visited@.len() == n,
                forall|y: usize| #[trigger] out@.contains(y) <==> (y < i && visited@[y as int]),
                forall|a: int| 0 <= a < out@.len() ==> out@[a] < i,
                strictly_sorted(out@),
            decreases n - i,
        {
            if visited[i] {
                proof {
                    broadcast use vstd::seq_lib::lemma_seq_contains_after_push;

                }
                out.push(i);
            }
            i += 1;
        }
        proof {
            assert forall|y: usize| #[trigger] out@.contains(y) <==> m.ancestor_within(
                y,
                id,
                rounds as nat,
            ) by {
                if m.ancestor_within(y, id, rounds as nat) && y >= n {
                    let k = choose|k: nat| k <= rounds && m.reaches_up(id, y, k);
                    m.lemma_reach_valid(id, y, k);
                }
            }
        }
        out
    }

    /// The complete sorted set of ancestors of `id`, `id` itself included;
    /// empty for an unknown identifier. The set contains every individual
    /// reachable over parent edges and is closed under "parent of".
    pub fn get_ancestors(&self, id: usize) -> (r: Vec<usize>)
        requires
            self.wf(),
        ensures
            strictly_sorted(r@),
            id >= self@.len() ==> r@ == Seq::<usize>::empty(),
            id < self@.len() ==> forall|y: usize|
                #[trigger] r@.contains(y) <==> self.model().ancestor_of(y, id),
            id < self@.len() ==> r@.contains(id),
            forall|y: usize, p: usize|
                r@.contains(y) && #[trigger] self.model().parent_step(y, p) ==> r@.contains(p),
    {
        let ghost m = self.model();
        if id >= self.arena_len() {
            let r: Vec<usize> = Vec::new();
            proof {
                assert(r@ =~= Seq::<usize>::empty());
            }
            return r;
        }
        let n = self.arena_len();
        let r = self.ancestors_upto(id, n);
        proof {
            assert forall|y: usize| #[trigger] r@.contains(y) <==> m.ancestor_of(y, id) by {
                if r@.contains(y) {
                    let k = choose|k: nat| k <= n && m.reaches_up(id, y, k);
                }
                if m.ancestor_of(y, id) {
                    m.lemma_ancestor_bounded(y, id);
                    let k = choose|k: nat| k <= m.size() - 1 && m.reaches_up(id, y, k);
                    assert(k <= n as nat && m.reaches_up(id, y, k));
                }
            }
            assert(m.reaches_up(id, id, 0));
            assert forall|y: usize, p: usize|
                r@.contains(y) && #[trigger] m.parent_step(y, p) implies r@.contains(p) by {
                let k = choose|k: nat| m.reaches_up(id, y, k);
                assert(m.parent_step(y, p) && m.reaches_up(p, p, 0));
                assert(m.reaches_up(y, p, 1));
                m.lemma_reach_trans(id, y, p, k, 1);
                assert(m.ancestor_of(p, id));
            }
        }
        r
    }

    /// The sorted set of ancestors of `id` no more than `max_depth` parent
    /// edges away, `id` itself included; empty for an unknown identifier.
    /// The depth bound caps the cost on deep pedigrees: the coefficient
    /// contribution of an ancestor `g` generations back shrinks as `0.5^g`.
    pub fn get_ancestors_bounded(&self, id: usize, max_depth: usize) -> (r: Vec<usize>)
        requires
            self.wf(),
        ensures
            strictly_sorted(r@),
            id >= self@.len() ==> r@ == Seq::<usize>::empty(),
            id < self@.len() ==> forall|y: usize|
                #[trigger] r@.contains(y) <==> self.model().ancestor_within(
                    y,
                    id,
                    max_depth as nat,
                ),
            id < self@.len() ==> r@.contains(id),
            max_depth >= 1 ==> forall|y: usize, p: usize|
                r@.contains(y) && self.model().ancestor_within(y, id, (max_depth - 1) as nat)
                    && #[trigger] self.model().parent_step(y, p) ==> r@.contains(p),
    {
        let ghost m = self.model();
        if id >= self.arena_len() {
            let r: Vec<usize> = Vec::new();
            proof {
                assert(r@ =~= Seq::<usize>::empty());
            }
            return r;
        }
        let r = self.ancestors_upto(id, max_depth);
        proof {
            assert(m.reaches_up(id, id, 0));
            assert(m.ancestor_within(id, id, max_depth as nat));
            if max_depth >= 1 {
                assert forall|y: usize, p: usize|
                    r@.contains(y) && m.ancestor_within(y, id, (max_depth - 1) as nat)
                        && #[trigger] m.parent_step(y, p) implies r@.contains(p) by {
                    let k = choose|k: nat| k <= max_depth - 1 && m.reaches_up(id, y, k);
                    assert(m.parent_step(y, p) && m.reaches_up(p, p, 0));
                    assert(m.reaches_up(y, p, 1));
                    m.lemma_reach_trans(id, y, p, k, 1);
                    assert(k + 1 <= max_depth as nat && m.reaches_up(id, p, k + 1));
                }
            }
        }
        r
    }
}

} // verus!
