use vstd::prelude::*;

use crate::model::Pedigree;
use crate::pedigree::Genealogy;

verus! {

/// The recorded children of `a`, or nothing for an unknown identifier.
pub open spec fn child_list(m: Pedigree, a: usize) -> Seq<usize> {
    if a < m.size() {
        m.children[a as int]
    } else {
        Seq::empty()
    }
}

/// The paths contributed by one child `x`: the single-step path where `x` is
/// the descendant itself, else every path below `x` with `x` appended.
/// `fuel` bounds the recursion depth; any fuel at least the longest downward
/// chain below `x` gives the same value.
pub open spec fn one_source_paths(m: Pedigree, x: usize, d: usize, fuel: nat) -> Seq<Seq<usize>>
    decreases fuel, 0int,
{
    if x == d {
        seq![seq![d]]
    } else if fuel == 0 {
        Seq::empty()
    } else {
        sub_paths(m, child_list(m, x), d, (fuel - 1) as nat).map_values(
            |p: Seq<usize>| p.push(x),
        )
    }
}

/// Depth-first, left-to-right: the paths from the children listed in `cs`
/// down to `d`, each read descendant-first, ending at the child it starts
/// from.
pub open spec fn sub_paths(m: Pedigree, cs: Seq<usize>, d: usize, fuel: nat) -> Seq<Seq<usize>>
    decreases fuel, cs.len() + 1,
{
    if cs.len() == 0 {
        Seq::empty()
    } else {
        one_source_paths(m, cs[0], d, fuel) + sub_paths(m, cs.drop_first(), d, fuel)
    }
}

/// Every downward path from `ancestor` to `descendant`, read
/// descendant-first: `[descendant, ..., ancestor]`. One singleton path where
/// the two coincide; the empty list where the descendant is unreachable.
pub open spec fn lineage_paths(m: Pedigree, a: usize, d: usize) -> Seq<Seq<usize>> {
    if a == d {
        seq![seq![a]]
    } else {
        sub_paths(m, child_list(m, a), d, m.size()).map_values(|p: Seq<usize>| p.push(a))
    }
}

/// The mathematical value of a vector of paths.
pub open spec fn paths_view(v: Vec<Vec<usize>>) -> Seq<Seq<usize>> {
    v@.map_values(|x: Vec<usize>| x@)
}

/// `q` is a downward lineage read descendant-first: it starts at `d` and
/// each element is a recorded child of the next.
pub open spec fn lineage_shape(m: Pedigree, q: Seq<usize>, d: usize) -> bool {
    &&& q.len() >= 1
    &&& q[0] == d
    &&& forall|i: int| 0 <= i < q.len() - 1 ==> #[trigger] m.child_step(q[i + 1], q[i])
}

/// Every enumerated path starts at the descendant, walks child edges, ends
/// at one of the listed children, and stays in range.
pub proof fn lemma_sub_paths_props(m: Pedigree, cs: Seq<usize>, d: usize, fuel: nat)
    requires
        m.wf(),
        forall|i: int| 0 <= i < cs.len() ==> cs[i] < m.size(),
    ensures
        forall|j: int|
            0 <= j < sub_paths(m, cs, d, fuel).len() ==> {
                let q = #[trigger] sub_paths(m, cs, d, fuel)[j];
                lineage_shape(m, q, d) && cs.contains(q.last()) && (forall|i: int|
                    0 <= i < q.len() ==> q[i] < m.size())
            },
    decreases fuel, cs.len() + 1,
{
    if cs.len() > 0 {
        let head = one_source_paths(m, cs[0], d, fuel);
        let rest = sub_paths(m, cs.drop_first(), d, fuel);
        assert forall|i: int| 0 <= i < cs.drop_first().len() implies cs.drop_first()[i]
            < m.size() by {
            assert(cs.drop_first()[i] == cs[i + 1]);
        }
        lemma_sub_paths_props(m, cs.drop_first(), d, fuel);
        if cs[0] != d && fuel > 0 {
            let below_cs = child_list(m, cs[0]);
            assert forall|i: int| 0 <= i < below_cs.len() implies below_cs[i] < m.size() by {
                assert(m.children[cs[0] as int].contains(below_cs[i]));
            }
            lemma_sub_paths_props(m, below_cs, d, (fuel - 1) as nat);
        }
        assert forall|j: int| 0 <= j < sub_paths(m, cs, d, fuel).len() implies {
            let q = #[trigger] sub_paths(m, cs, d, fuel)[j];
            lineage_shape(m, q, d) && cs.contains(q.last()) && (forall|i: int|
                0 <= i < q.len() ==> q[i] < m.size())
        } by {
            let q = sub_paths(m, cs, d, fuel)[j];
            if j < head.len() {
                if cs[0] == d {
                    assert(q =~= seq![d]);
                    assert(cs.contains(q.last()));
                } else {
                    let below = sub_paths(m, child_list(m, cs[0]), d, (fuel - 1) as nat);
                    let q0 = below[j];
                    assert(q == q0.push(cs[0]));
                    assert(lineage_shape(m, q, d)) by {
                        assert forall|i: int| 0 <= i < q.len() - 1 implies #[trigger] m.child_step(
                            q[i + 1],
                            q[i],
                        ) by {
                            if i < q0.len() - 1 {
                                assert(m.child_step(q0[i + 1], q0[i]));
                            } else {
                                assert(q[i] == q0.last() && q[i + 1] == cs[0]);
                                assert(child_list(m, cs[0]).contains(q0.last()));
                            }
                        }
                    }
                    assert(q.last() == cs[0] && cs.contains(cs[0]));
                    assert(forall|i: int| 0 <= i < q.len() ==> q[i] < m.size());
                }
            } else {
                let q1 = rest[j - head.len()];
                assert(q == q1);
                assert(cs.drop_first().contains(q1.last()));
                let t = choose|t: int|
                    0 <= t < cs.drop_first().len() && cs.drop_first()[t] == q1.last();
                assert(cs[t + 1] == q1.last());
            }
        }
    }
}

/// A lineage is a chain of parent steps read the other way round, so it
/// never repeats an individual.
pub proof fn lemma_lineage_shape_nodup(m: Pedigree, q: Seq<usize>, d: usize)
    requires
        m.wf(),
        lineage_shape(m, q, d),
    ensures
        m.up_chain(q),
        q.no_duplicates(),
{
    assert forall|i: int| 0 <= i < q.len() - 1 implies #[trigger] m.parent_step(q[i], q[i + 1]) by {
        assert(m.child_step(q[i + 1], q[i]));
        m.lemma_mirror_step(q[i + 1], q[i]);
    }
    m.lemma_up_chain_nodup(q);
}

/// Every path from `a` to `d` starts at `d`, ends at `a`, walks child edges,
/// repeats nobody, and stays in range.
pub proof fn lemma_lineage_paths_props(m: Pedigree, a: usize, d: usize)
    requires
        m.wf(),
        a < m.size(),
    ensures
        forall|j: int|
            0 <= j < lineage_paths(m, a, d).len() ==> {
                let p = #[trigger] lineage_paths(m, a, d)[j];
                lineage_shape(m, p, d) && p.last() == a && p.no_duplicates() && (forall|i: int|
                    0 <= i < p.len() ==> p[i] < m.size())
            },
{
    if a == d {
        assert forall|j: int| 0 <= j < lineage_paths(m, a, d).len() implies {
            let p = #[trigger] lineage_paths(m, a, d)[j];
            lineage_shape(m, p, d) && p.last() == a && p.no_duplicates() && (forall|i: int|
                0 <= i < p.len() ==> p[i] < m.size())
        } by {
            let p = lineage_paths(m, a, d)[j];
            assert(p =~= seq![a]);
        }
    } else {
        let cs = child_list(m, a);
        assert forall|i: int| 0 <= i < cs.len() implies cs[i] < m.size() by {
            assert(m.children[a as int].contains(cs[i]));
        }
        lemma_sub_paths_props(m, cs, d, m.size());
        assert forall|j: int| 0 <= j < lineage_paths(m, a, d).len() implies {
            let p = #[trigger] lineage_paths(m, a, d)[j];
            lineage_shape(m, p, d) && p.last() == a && p.no_duplicates() && (forall|i: int|
                0 <= i < p.len() ==> p[i] < m.size())
        } by {
            let p = lineage_paths(m, a, d)[j];
            let q = sub_paths(m, cs, d, m.size())[j];
            assert(p == q.push(a));
            assert(lineage_shape(m, p, d)) by {
                assert forall|i: int| 0 <= i < p.len() - 1 implies #[trigger] m.child_step(
                    p[i + 1],
                    p[i],
                ) by {
                    if i < q.len() - 1 {
                        assert(m.child_step(q[i + 1], q[i]));
                    } else {
                        assert(p[i] == q.last() && p[i + 1] == a);
                        assert(child_list(m, a).contains(q.last()));
                    }
                }
            }
            lemma_lineage_shape_nodup(m, p, d);
        }
    }
}

/// One reachable entry makes the whole enumeration non-empty.
proof fn lemma_sub_paths_member_nonempty(m: Pedigree, cs: Seq<usize>, d: usize, fuel: nat, idx: int)
    requires
        0 <= idx < cs.len(),
        cs[idx] == d || (fuel >= 1 && sub_paths(m, child_list(m, cs[idx]), d, (fuel - 1) as nat).len() >= 1),
    ensures
        sub_paths(m, cs, d, fuel).len() >= 1,
    decreases idx,
{
    if idx == 0 {
        if cs[0] == d {
            assert(one_source_paths(m, cs[0], d, fuel).len() == 1);
        } else {
            assert(one_source_paths(m, cs[0], d, fuel).len() >= 1);
        }
    } else {
        assert(cs.drop_first()[idx - 1] == cs[idx]);
        lemma_sub_paths_member_nonempty(m, cs.drop_first(), d, fuel, idx - 1);
    }
}

/// If `d` reaches `a` upward in `k >= 1` steps, the search below `a` finds a
/// path, given fuel at least `k - 1`.
proof fn lemma_reach_sub_nonempty(m: Pedigree, a: usize, d: usize, k: nat)
    requires
        m.wf(),
        m.reaches_up(d, a, k),
        k >= 1,
    ensures
        forall|fuel: nat|
            fuel >= k - 1 ==> #[trigger] sub_paths(m, child_list(m, a), d, fuel).len() >= 1,
    decreases k,
{
    if k == 1 {
        assert(m.parent_step(d, a)) by {
            let p = choose|p: usize| m.parent_step(d, p) && m.reaches_up(p, a, 0);
        }
        m.lemma_mirror_step(a, d);
        assert(m.children[a as int].contains(d));
        let idx = choose|idx: int| 0 <= idx < child_list(m, a).len() && child_list(m, a)[idx] == d;
        assert forall|fuel: nat| fuel >= k - 1 implies #[trigger] sub_paths(
            m,
            child_list(m, a),
            d,
            fuel,
        ).len() >= 1 by {
            lemma_sub_paths_member_nonempty(m, child_list(m, a), d, fuel, idx);
        }
    } else {
        m.lemma_reach_snoc(d, a, (k - 1) as nat);
        let z = choose|z: usize|
            m.reaches_up(d, z, (k - 1) as nat) && #[trigger] m.parent_step(z, a);
        assert(z != d) by {
            if z == d {
                let p = choose|p: usize| m.parent_step(d, p) && m.reaches_up(p, d, (k - 2) as nat);
                assert(m.ancestor_of(d, p));
            }
        }
        lemma_reach_sub_nonempty(m, z, d, (k - 1) as nat);
        m.lemma_mirror_step(a, z);
        assert(m.children[a as int].contains(z));
        let idx = choose|idx: int| 0 <= idx < child_list(m, a).len() && child_list(m, a)[idx] == z;
        assert forall|fuel: nat| fuel >= k - 1 implies #[trigger] sub_paths(
            m,
            child_list(m, a),
            d,
            fuel,
        ).len() >= 1 by {
            assert(sub_paths(m, child_list(m, z), d, (fuel - 1) as nat).len() >= 1);
            lemma_sub_paths_member_nonempty(m, child_list(m, a), d, fuel, idx);
        }
    }
}

/// The enumeration finds a path exactly when `a` is an ancestor of `d`.
pub proof fn lemma_paths_nonempty_iff(m: Pedigree, a: usize, d: usize)
    requires
        m.wf(),
    ensures
        lineage_paths(m, a, d).len() >= 1 <==> m.ancestor_of(a, d),
{
    if a == d {
        assert(m.reaches_up(d, a, 0));
    } else {
        if lineage_paths(m, a, d).len() >= 1 {
            let cs = child_list(m, a);
            if a >= m.size() {
                assert(cs =~= Seq::<usize>::empty());
                assert(sub_paths(m, cs, d, m.size()) =~= Seq::<Seq<usize>>::empty());
                assert(false);
            }
            lemma_lineage_paths_props(m, a, d);
            let p = lineage_paths(m, a, d)[0];
            lemma_lineage_shape_nodup(m, p, d);
            m.lemma_chain_to_reach(p);
            assert(m.reaches_up(d, a, (p.len() - 1) as nat));
        }
        if m.ancestor_of(a, d) {
            let k = choose|k: nat| m.reaches_up(d, a, k);
            assert(k >= 1);
            assert(d < m.size()) by {
                let p = choose|p: usize| m.parent_step(d, p) && m.reaches_up(p, a, (k - 1) as nat);
            }
            m.lemma_reach_shorten(d, a, k);
            let k2 = choose|k2: nat| k2 <= m.size() - 1 && m.reaches_up(d, a, k2);
            assert(k2 >= 1);
            lemma_reach_sub_nonempty(m, a, d, k2);
            assert(sub_paths(m, child_list(m, a), d, m.size()).len() >= 1);
        }
    }
}

/// Splitting off the last element of a prefix splits the enumerated paths.
proof fn lemma_sub_paths_take_snoc(m: Pedigree, cs: Seq<usize>, d: usize, fuel: nat, j: int)
    requires
        0 <= j < cs.len(),
    ensures
        sub_paths(m, cs.take(j + 1), d, fuel) == sub_paths(m, cs.take(j), d, fuel)
            + one_source_paths(m, cs[j], d, fuel),
    decreases j,
{
    if j == 0 {
        reveal_with_fuel(sub_paths, 2);
        assert(cs.take(1)[0] == cs[0]);
        assert(cs.take(1).drop_first() =~= Seq::<usize>::empty());
        assert(cs.take(0) =~= Seq::<usize>::empty());
        assert(sub_paths(m, cs.take(1).drop_first(), d, fuel) =~= Seq::<Seq<usize>>::empty());
        assert(sub_paths(m, cs.take(0), d, fuel) =~= Seq::<Seq<usize>>::empty());
        assert(sub_paths(m, cs.take(1), d, fuel) =~= sub_paths(m, cs.take(0), d, fuel)
            + one_source_paths(m, cs[0], d, fuel));
    } else {
        let tail = cs.drop_first();
        lemma_sub_paths_take_snoc(m, tail, d, fuel, j - 1);
        assert(cs.take(j + 1).drop_first() =~= tail.take(j));
        assert(cs.take(j).drop_first() =~= tail.take(j - 1));
        assert(cs.take(j + 1)[0] == cs[0]);
        assert(cs.take(j)[0] == cs[0]);
        assert(tail[j - 1] == cs[j]);
        assert(sub_paths(m, cs.take(j + 1), d, fuel) == one_source_paths(m, cs[0], d, fuel) + (
        sub_paths(m, tail.take(j - 1), d, fuel) + one_source_paths(m, cs[j], d, fuel)));
        assert(sub_paths(m, cs.take(j + 1), d, fuel) =~= (one_source_paths(m, cs[0], d, fuel)
            + sub_paths(m, tail.take(j - 1), d, fuel)) + one_source_paths(m, cs[j], d, fuel));
        assert(sub_paths(m, cs.take(j), d, fuel) == one_source_paths(m, cs[0], d, fuel)
            + sub_paths(m, tail.take(j - 1), d, fuel));
    }
}

/// Append `x` to every path of the vector.
fn push_to_all(paths: &mut Vec<Vec<usize>>, x: usize)
    ensures
        final(paths)@.len() == old(paths)@.len(),
        forall|i: int|
            0 <= i < old(paths)@.len() ==> #[trigger] final(paths)@[i]@ == old(paths)@[i]@.push(x),
{
    let mut i: usize = 0;
    while i < paths.len()
        invariant
            i <= paths@.len(),
            paths@.len() == old(paths)@.len(),
            forall|k: int| 0 <= k < i ==> #[trigger] paths@[k]@ == old(paths)@[k]@.push(x),
            forall|k: int| i <= k < paths@.len() ==> #[trigger] paths@[k]@ == old(paths)@[k]@,
        decreases paths@.len() - i,
    {
        paths[i].push(x);
        i += 1;
    }
}

/// Move every path of `src` to the end of `dst`, in order.
fn append_all(dst: &mut Vec<Vec<usize>>, src: Vec<Vec<usize>>)
    ensures
        final(dst)@.len() == old(dst)@.len() + src@.len(),
        forall|i: int| 0 <= i < old(dst)@.len() ==> #[trigger] final(dst)@[i] == old(dst)@[i],
        forall|i: int|
            old(dst)@.len() <= i < final(dst)@.len() ==> #[trigger] final(dst)@[i] == src@[i - old(
                dst,
            )@.len()],
{
    let mut src = src;
    let ghost orig = src@;
    let total = src.len();
    let mut taken: usize = 0;
    while src.len() > 0
        invariant
            total == orig.len(),
            taken + src@.len() == orig.len(),
            src@ == orig.skip(taken as int),
            dst@.len() == old(dst)@.len() + taken,
            forall|i: int| 0 <= i < old(dst)@.len() ==> #[trigger] dst@[i] == old(dst)@[i],
            forall|i: int|
                old(dst)@.len() <= i < dst@.len() ==> #[trigger] dst@[i] == orig[i - old(
                    dst,
                )@.len()],
        decreases src@.len(),
    {
        let p = src.remove(0);
        proof {
            assert(orig.skip(taken as int).drop_first() =~= orig.skip(taken + 1));
            assert(p == orig[taken as int]);
        }
        dst.push(p);
        taken += 1;
    }
}

impl<T> Genealogy<T> {
    /// Depth-first search below `ancestor` for every downward path to
    /// `descendant`. `chain` is the walk that led here from the original
    /// ancestor; acyclicity keeps it duplicate-free, which bounds the
    /// recursion.
    fn paths_below(&self, ancestor: usize, descendant: usize, chain: Ghost<Seq<usize>>) -> (r: Vec<
        Vec<usize>,
    >)
        requires
            self.wf(),
            chain@.len() >= 1,
            chain@.last() == ancestor,
            self.model().down_chain(chain@),
            chain@.no_duplicates(),
            forall|i: int| 0 <= i < chain@.len() ==> chain@[i] < self.model().size(),
        ensures
            forall|fuel: nat|
                fuel >= self@.len() - chain@.len() ==> paths_view(r) == sub_paths(
                    self.model(),
                    child_list(self.model(), ancestor),
                    descendant,
                    fuel,
                ),
        decreases self@.len() - chain@.len(),
    {
        let ghost m = self.model();
        proof {
            crate::model::lemma_nodup_len_bound(chain@, m.size());
        }
        let mut returner: Vec<Vec<usize>> = Vec::new();
        let n_children = self.child_count(ancestor);
        let ghost cs = child_list(m, ancestor);
        let mut j: usize = 0;
        while j < n_children
            invariant
                self.wf(),
                m == self.model(),
                ancestor < self@.len(),
                cs == child_list(m, ancestor),
                n_children == cs.len(),
                j <= n_children,
                chain@.len() >= 1,
                chain@.last() == ancestor,
                m.down_chain(chain@),
                chain@.no_duplicates(),
                forall|i: int| 0 <= i < chain@.len() ==> chain@[i] < m.size(),
                chain@.len() <= m.size(),
                forall|fuel: nat|
                    fuel >= self@.len() - chain@.len() ==> #[trigger] sub_paths(
                        m,
                        cs.take(j as int),
                        descendant,
                        fuel,
                    ) == paths_view(returner),
            decreases n_children - j,
        {
            let child = self.child_at(ancestor, j);
            proof {
                assert(m.child_step(ancestor, child));
                assert(child < m.size());
            }
            if child == descendant {
                let mut single: Vec<usize> = Vec::new();
                single.push(child);
                returner.push(single);
                proof {
                    assert forall|fuel: nat| fuel >= self@.len() - chain@.len() implies #[trigger] sub_paths(
                        m,
                        cs.take(j + 1),
                        descendant,
                        fuel,
                    ) == paths_view(returner) by {
                        lemma_sub_paths_take_snoc(m, cs, descendant, fuel, j as int);
                        assert(one_source_paths(m, child, descendant, fuel) =~= seq![
                            seq![descendant],
                        ]);
                        assert(sub_paths(m, cs.take(j + 1), descendant, fuel) =~= paths_view(
                            returner,
                        ));
                    }
                }
            } else {
                proof {
                    if chain@.contains(child) {
                        let i = choose|i: int| 0 <= i < chain@.len() && chain@[i] == child;
                        let cyc = chain@.subrange(i, chain@.len() as int).push(child);
                        assert(m.down_chain(cyc)) by {
                            assert forall|t: int|
                                0 <= t < cyc.len() - 1 implies #[trigger] m.child_step(
                                cyc[t],
                                cyc[t + 1],
                            ) by {
                                if t < cyc.len() - 2 {
                                    let u = i + t;
                                    assert(m.child_step(chain@[u], chain@[u + 1]));
                                } else {
                                    assert(cyc[t] == chain@.last() && cyc[t + 1] == child);
                                }
                            }
                        }
                        let rev = cyc.reverse();
                        assert(m.up_chain(rev)) by {
                            assert forall|t: int|
                                0 <= t < rev.len() - 1 implies #[trigger] m.parent_step(
                                rev[t],
                                rev[t + 1],
                            ) by {
                                let u = cyc.len() - 2 - t;
                                assert(m.child_step(cyc[u], cyc[u + 1]));
                                assert(rev[t] == cyc[u + 1] && rev[t + 1] == cyc[u]);
                                m.lemma_mirror_step(cyc[u], cyc[u + 1]);
                            }
                        }
                        m.lemma_up_chain_nodup(rev);
                        assert(rev[0] == child && rev.last() == chain@[i]);
                        assert(false);
                    }
                    assert(m.down_chain(chain@.push(child))) by {
                        let cx = chain@.push(child);
                        assert forall|t: int| 0 <= t < cx.len() - 1 implies #[trigger] m.child_step(
                            cx[t],
                            cx[t + 1],
                        ) by {
                            if t < cx.len() - 2 {
                                assert(m.child_step(chain@[t], chain@[t + 1]));
                            } else {
                                assert(cx[t] == chain@.last() && cx[t + 1] == child);
                            }
                        }
                    }
                    crate::model::lemma_nodup_len_bound(chain@.push(child), m.size());
                }
                let mut prep = self.paths_below(child, descendant, Ghost(chain@.push(child)));
                let ghost below_raw = paths_view(prep);
                push_to_all(&mut prep, child);
                let ghost prep_view = paths_view(prep);
                let ghost ret_before = paths_view(returner);
                proof {
                    assert(prep_view =~= below_raw.map_values(|p: Seq<usize>| p.push(child)));
                }
                append_all(&mut returner, prep);
                proof {
                    assert(paths_view(returner) =~= ret_before + prep_view);
                    assert forall|fuel: nat| fuel >= self@.len() - chain@.len() implies #[trigger] sub_paths(
                        m,
                        cs.take(j + 1),
                        descendant,
                        fuel,
                    ) == paths_view(returner) by {
                        lemma_sub_paths_take_snoc(m, cs, descendant, fuel, j as int);
                        assert(fuel >= 1);
                        let below = sub_paths(
                            m,
                            child_list(m, child),
                            descendant,
                            (fuel - 1) as nat,
                        );
                        assert(below_raw == below);
                        assert(one_source_paths(m, child, descendant, fuel) == below.map_values(
                            |p: Seq<usize>| p.push(child),
                        ));
                        assert(ret_before == sub_paths(m, cs.take(j as int), descendant, fuel));
                        assert(sub_paths(m, cs.take(j + 1), descendant, fuel) == ret_before
                            + prep_view);
                    }
                }
            }
            j += 1;
        }
        proof {
            assert(cs.take(n_children as int) =~= cs);
        }
        returner
    }

    /// Whether at least one downward path leads from `ancestor` to
    /// `descendant` — that is, whether `ancestor` is an ancestor of
    /// `descendant` (everybody is their own). Never fails on unknown
    /// identifiers: an unknown ancestor has no paths to offer.
    pub fn is_descendant_of(&self, ancestor: usize, descendant: usize) -> (r: bool)
        requires
            self.wf(),
        ensures
            r == (lineage_paths(self.model(), ancestor, descendant).len() >= 1),
            r == self.model().ancestor_of(ancestor, descendant),
    {
        let paths = self.get_paths_from_ancestor_to_descendant(ancestor, descendant);
        proof {
            lemma_paths_nonempty_iff(self.model(), ancestor, descendant);
            assert(paths_view(paths).len() == paths@.len());
        }
        paths.len() != 0
    }

    /// All simple downward paths from `ancestor` to `descendant`, each read
    /// descendant-first: `[descendant, ..., ancestor]`. Exactly the singleton
    /// path where the two coincide; the empty list where the descendant is
    /// unreachable; an unknown ancestor simply has no children to explore.
    pub fn get_paths_from_ancestor_to_descendant(&self, ancestor: usize, descendant: usize) -> (r:
        Vec<Vec<usize>>)
        requires
            self.wf(),
        ensures
            paths_view(r) == lineage_paths(self.model(), ancestor, descendant),
            r@.len() >= 1 <==> self.model().ancestor_of(ancestor, descendant),
            forall|j: int|
                0 <= j < r@.len() ==> {
                    let p = #[trigger] r@[j]@;
                    p.len() >= 1 && p[0] == descendant && p.last() == ancestor
                        && p.no_duplicates()
                },
    {
        let ghost m = self.model();
        proof {
            lemma_paths_nonempty_iff(m, ancestor, descendant);
        }
        if ancestor == descendant {
            let mut single: Vec<usize> = Vec::new();
            single.push(ancestor);
            let mut r: Vec<Vec<usize>> = Vec::new();
            r.push(single);
            proof {
                assert(paths_view(r) =~= lineage_paths(m, ancestor, descendant));
                assert(r@[0]@ =~= seq![ancestor]);
            }
            return r;
        }
        if ancestor >= self.arena_len() {
            let r: Vec<Vec<usize>> = Vec::new();
            proof {
                assert(child_list(m, ancestor) =~= Seq::<usize>::empty());
                assert(paths_view(r) =~= lineage_paths(m, ancestor, descendant));
            }
            return r;
        }
        let ghost start: Seq<usize> = seq![ancestor];
        let mut paths = self.paths_below(ancestor, descendant, Ghost(start));
        let ghost below = paths_view(paths);
        push_to_all(&mut paths, ancestor);
        proof {
            assert(below == sub_paths(m, child_list(m, ancestor), descendant, m.size()));
            assert(paths_view(paths) =~= below.map_values(|p: Seq<usize>| p.push(ancestor)));
            lemma_lineage_paths_props(m, ancestor, descendant);
            assert forall|j: int| 0 <= j < paths@.len() implies {
                let p = #[trigger] paths@[j]@;
                p.len() >= 1 && p[0] == descendant && p.last() == ancestor && p.no_duplicates()
            } by {
                assert(paths@[j]@ == lineage_paths(m, ancestor, descendant)[j]);
            }
        }
        paths
    }
}

} // verus!
