use vstd::prelude::*;

use array_tool::vec::Intersect;

use crate::ancestors::strictly_sorted;
use crate::model::Pedigree;
use crate::pedigree::Genealogy;

verus! {

/// A failure of a genealogical query, signalled to the caller as a normal
/// result variant.
#[derive(Clone, Copy, PartialEq, Eq, Structural, Debug)]
pub enum GeneError {
    /// An identifier out of the arena's range was queried.
    UnknownIndividual,
}

/// The first occurrence of every value of `s`, in order.
pub open spec fn first_occurrences(s: Seq<usize>) -> Seq<usize>
    decreases s.len(),
{
    if s.len() == 0 {
        s
    } else {
        let rest = first_occurrences(s.drop_last());
        if s.drop_last().contains(s.last()) {
            rest
        } else {
            rest.push(s.last())
        }
    }
}

/// The elements of `s` that also occur in `b`, in the order of `s`.
pub open spec fn restrict_to(s: Seq<usize>, b: Seq<usize>) -> Seq<usize>
    decreases s.len(),
{
    if s.len() == 0 {
        s
    } else {
        let rest = restrict_to(s.drop_last(), b);
        if b.contains(s.last()) {
            rest.push(s.last())
        } else {
            rest
        }
    }
}

/// The unique values of `a`, in the order of their first occurrence, that
/// also occur in `b`.
pub open spec fn common_elements(a: Seq<usize>, b: Seq<usize>) -> Seq<usize> {
    restrict_to(first_occurrences(a), b)
}

proof fn lemma_first_occurrences(s: Seq<usize>)
    ensures
        forall|x: usize|
            #[trigger] first_occurrences(s).contains(x) <==> s.contains(x),
        first_occurrences(s).no_duplicates(),
    decreases s.len(),
{
    broadcast use vstd::seq_lib::lemma_seq_contains_after_push;

    if s.len() > 0 {
        let s0 = s.drop_last();
        lemma_first_occurrences(s0);
        assert(s =~= s0.push(s.last()));
        let fo = first_occurrences(s);
        let rest = first_occurrences(s0);
        if s0.contains(s.last()) {
            assert forall|x: usize| #[trigger] fo.contains(x) <==> s.contains(x) by {
                assert(s.contains(x) <==> (s0.contains(x) || x == s.last()));
            }
        } else {
            assert(!rest.contains(s.last()));
            assert(fo.no_duplicates()) by {
                assert forall|i: int, j: int|
                    0 <= i < fo.len() && 0 <= j < fo.len() && i != j implies fo[i] != fo[j] by {
                    if i < fo.len() - 1 && j < fo.len() - 1 {
                        assert(fo[i] == rest[i] && fo[j] == rest[j]);
                    } else if i == fo.len() - 1 {
                        assert(fo[j] == rest[j] && rest.contains(rest[j]));
                    } else {
                        assert(fo[i] == rest[i] && rest.contains(rest[i]));
                    }
                }
            }
        }
    }
}

proof fn lemma_restrict_to(s: Seq<usize>, b: Seq<usize>)
    ensures
        forall|x: usize|
            #[trigger] restrict_to(s, b).contains(x) <==> (s.contains(x) && b.contains(x)),
        s.no_duplicates() ==> restrict_to(s, b).no_duplicates(),
        strictly_sorted(s) ==> strictly_sorted(restrict_to(s, b)),
    decreases s.len(),
{
    broadcast use vstd::seq_lib::lemma_seq_contains_after_push;

    if s.len() > 0 {
        let s0 = s.drop_last();
        lemma_restrict_to(s0, b);
        assert(s =~= s0.push(s.last()));
        let r = restrict_to(s, b);
        let rest = restrict_to(s0, b);
        assert forall|x: usize| #[trigger] r.contains(x) <==> (s.contains(x) && b.contains(x)) by {
            assert(s.contains(x) <==> (s0.contains(x) || x == s.last()));
        }
        if s.no_duplicates() {
            assert(s0.no_duplicates()) by {
                assert forall|i: int, j: int|
                    0 <= i < s0.len() && 0 <= j < s0.len() && i != j implies s0[i] != s0[j] by {
                    assert(s[i] == s0[i] && s[j] == s0[j]);
                }
            }
            if b.contains(s.last()) {
                assert(!s0.contains(s.last())) by {
                    if s0.contains(s.last()) {
                        let i = choose|i: int| 0 <= i < s0.len() && s0[i] == s.last();
                        assert(s[i] == s.last());
                    }
                }
                assert(!rest.contains(s.last()));
                assert(r.no_duplicates()) by {
                    assert forall|i: int, j: int|
                        0 <= i < r.len() && 0 <= j < r.len() && i != j implies r[i] != r[j] by {
                        if i < r.len() - 1 && j < r.len() - 1 {
                            assert(r[i] == rest[i] && r[j] == rest[j]);
                        } else if i == r.len() - 1 {
                            assert(r[j] == rest[j] && rest.contains(rest[j]));
                        } else {
                            assert(r[i] == rest[i] && rest.contains(rest[i]));
                        }
                    }
                }
            }
        }
        if strictly_sorted(s) {
            assert(strictly_sorted(s0)) by {
                assert forall|i: int, j: int|
                    0 <= i < j < s0.len() implies s0[i] < s0[j] by {
                    assert(s[i] == s0[i] && s[j] == s0[j]);
                }
            }
            if b.contains(s.last()) {
                assert(strictly_sorted(r)) by {
                    assert forall|i: int, j: int| 0 <= i < j < r.len() implies r[i] < r[j] by {
                        if j < r.len() - 1 {
                            assert(r[i] == rest[i] && r[j] == rest[j]);
                        } else {
                            assert(r[i] == rest[i] && rest.contains(rest[i]));
                            assert(s0.contains(rest[i]));
                            let t = choose|t: int| 0 <= t < s0.len() && s0[t] == rest[i];
                            assert(s[t] == rest[i] && s[s.len() - 1] == s.last());
                            assert(rest[i] < s.last());
                        }
                    }
                }
            }
        }
    }
}

/// What the intersection returns: the unique common values in first-operand
/// order; duplicate-free; sorted whenever the first operand was; empty
/// exactly when the operands share nothing.
pub proof fn lemma_common_elements(a: Seq<usize>, b: Seq<usize>)
    ensures
        forall|x: usize|
            #[trigger] common_elements(a, b).contains(x) <==> (a.contains(x) && b.contains(x)),
        common_elements(a, b).no_duplicates(),
        strictly_sorted(a) ==> strictly_sorted(common_elements(a, b)),
        (common_elements(a, b).len() == 0) <==> !(exists|x: usize|
            a.contains(x) && b.contains(x)),
{
    lemma_first_occurrences(a);
    lemma_restrict_to(first_occurrences(a), b);
    let fo = first_occurrences(a);
    if strictly_sorted(a) {
        assert(a.no_duplicates()) by {
            assert forall|i: int, j: int|
                0 <= i < a.len() && 0 <= j < a.len() && i != j implies a[i] != a[j] by {
                if i < j {
                    assert(a[i] < a[j]);
                } else {
                    assert(a[j] < a[i]);
                }
            }
        }
        assert(fo =~= a) by {
            lemma_first_occurrences_identity(a);
        }
    }
    if common_elements(a, b).len() > 0 {
        let c = common_elements(a, b);
        assert(c.contains(c[0]));
    } else {
        if exists|x: usize| a.contains(x) && b.contains(x) {
            let x = choose|x: usize| a.contains(x) && b.contains(x);
            assert(common_elements(a, b).contains(x));
            assert(false);
        }
    }
}

/// On a duplicate-free sequence, keeping first occurrences changes nothing.
proof fn lemma_first_occurrences_identity(s: Seq<usize>)
    requires
        s.no_duplicates(),
    ensures
        first_occurrences(s) == s,
    decreases s.len(),
{
    if s.len() > 0 {
        let s0 = s.drop_last();
        assert(s0.no_duplicates()) by {
            assert forall|i: int, j: int|
                0 <= i < s0.len() && 0 <= j < s0.len() && i != j implies s0[i] != s0[j] by {
                assert(s[i] == s0[i] && s[j] == s0[j]);
            }
        }
        lemma_first_occurrences_identity(s0);
        assert(!s0.contains(s.last())) by {
            if s0.contains(s.last()) {
                let i = choose|i: int| 0 <= i < s0.len() && s0[i] == s.last();
                assert(s[i] == s.last());
            }
        }
        assert(first_occurrences(s) =~= s);
    }
}

/// Two strictly sorted sequences with the same members are the same
/// sequence.
pub proof fn lemma_sorted_same_elements(s1: Seq<usize>, s2: Seq<usize>)
    requires
        strictly_sorted(s1),
        strictly_sorted(s2),
        forall|x: usize| #[trigger] s1.contains(x) <==> s2.contains(x),
    ensures
        s1 == s2,
    decreases s1.len(),
{
    if s1.len() == 0 {
        if s2.len() > 0 {
            assert(s2.contains(s2[0]));
            assert(!s1.contains(s2[0]));
            assert(false);
        }
        assert(s1 =~= s2);
    } else {
        assert(s1.contains(s1.last()));
        assert(s2.len() > 0);
        assert(s1.last() == s2.last()) by {
            let i = choose|i: int| 0 <= i < s2.len() && s2[i] == s1.last();
            if i < s2.len() - 1 {
                assert(s2[i] < s2[s2.len() - 1]);
            }
            assert(s1.last() <= s2.last());
            assert(s2.contains(s2.last()));
            assert(s1.contains(s2.last()));
            let j = choose|j: int| 0 <= j < s1.len() && s1[j] == s2.last();
            if j < s1.len() - 1 {
                assert(s1[j] < s1[s1.len() - 1]);
            }
            assert(s2.last() <= s1.last());
        }
        let t1 = s1.drop_last();
        let t2 = s2.drop_last();
        assert(strictly_sorted(t1) && strictly_sorted(t2)) by {
            assert forall|i: int, j: int| 0 <= i < j < t1.len() implies t1[i] < t1[j] by {
                assert(s1[i] == t1[i] && s1[j] == t1[j]);
            }
            assert forall|i: int, j: int| 0 <= i < j < t2.len() implies t2[i] < t2[j] by {
                assert(s2[i] == t2[i] && s2[j] == t2[j]);
            }
        }
        assert forall|x: usize| #[trigger] t1.contains(x) <==> t2.contains(x) by {
            assert(t1.contains(x) <==> (s1.contains(x) && x != s1.last())) by {
                if t1.contains(x) {
                    let i = choose|i: int| 0 <= i < t1.len() && t1[i] == x;
                    assert(s1[i] == x);
                    assert(s1[i] < s1[s1.len() - 1]);
                }
                if s1.contains(x) && x != s1.last() {
                    let i = choose|i: int| 0 <= i < s1.len() && s1[i] == x;
                    assert(i < s1.len() - 1);
                    assert(t1[i] == x);
                }
            }
            assert(t2.contains(x) <==> (s2.contains(x) && x != s2.last())) by {
                if t2.contains(x) {
                    let i = choose|i: int| 0 <= i < t2.len() && t2[i] == x;
                    assert(s2[i] == x);
                    assert(s2[i] < s2[s2.len() - 1]);
                }
                if s2.contains(x) && x != s2.last() {
                    let i = choose|i: int| 0 <= i < s2.len() && s2[i] == x;
                    assert(i < s2.len() - 1);
                    assert(t2[i] == x);
                }
            }
        }
        lemma_sorted_same_elements(t1, t2);
        assert(s1 =~= s2) by {
            assert(s1.len() == s2.len());
            assert forall|i: int| 0 <= i < s1.len() implies s1[i] == s2[i] by {
                if i < s1.len() - 1 {
                    assert(t1[i] == t2[i]);
                }
            }
        }
    }
}

/// Relies on `array_tool`'s `Vec::intersect`: it deduplicates its receiver
/// (keeping first occurrences, via `unique`) and keeps, in that order, the
/// values that also occur in the argument.
#[verifier::external_body]
fn intersect_ids(a: &Vec<usize>, b: &Vec<usize>) -> (r: Vec<usize>)
    ensures
        r@ == common_elements(a@, b@),
{
    a.intersect(b.clone())
}

/// The ancestors of `id` below position `i`, ascending.
pub open spec fn ancestor_seq_upto(m: Pedigree, id: usize, i: nat) -> Seq<usize>
    decreases i,
{
    if i == 0 {
        Seq::empty()
    } else {
        ancestor_seq_upto(m, id, (i - 1) as nat) + (if m.ancestor_of((i - 1) as usize, id) {
            seq![(i - 1) as usize]
        } else {
            Seq::empty()
        })
    }
}

/// The sorted set of ancestors of `id`, as a sequence: what `get_ancestors`
/// returns.
pub open spec fn ancestor_sequence(m: Pedigree, id: usize) -> Seq<usize> {
    ancestor_seq_upto(m, id, m.size())
}

proof fn lemma_ancestor_seq_upto(m: Pedigree, id: usize, i: nat)
    requires
        i <= usize::MAX,
    ensures
        forall|y: usize|
            #[trigger] ancestor_seq_upto(m, id, i).contains(y) <==> (y < i && m.ancestor_of(
                y,
                id,
            )),
        strictly_sorted(ancestor_seq_upto(m, id, i)),
        forall|a: int|
            0 <= a < ancestor_seq_upto(m, id, i).len() ==> ancestor_seq_upto(m, id, i)[a] < i,
    decreases i,
{
    if i > 0 {
        lemma_ancestor_seq_upto(m, id, (i - 1) as nat);
        let prev = ancestor_seq_upto(m, id, (i - 1) as nat);
        let cur = ancestor_seq_upto(m, id, i);
        assert forall|y: usize| #[trigger] cur.contains(y) <==> (y < i && m.ancestor_of(y, id)) by {
            if cur.contains(y) {
                let t = choose|t: int| 0 <= t < cur.len() && cur[t] == y;
                if t < prev.len() {
                    assert(prev.contains(prev[t]));
                } else {
                    assert(y == (i - 1) as usize);
                }
            }
            if y < i && m.ancestor_of(y, id) {
                if y < i - 1 {
                    assert(prev.contains(y));
                    let t = choose|t: int| 0 <= t < prev.len() && prev[t] == y;
                    assert(cur[t] == y);
                } else {
                    assert(cur[cur.len() - 1] == y);
                }
            }
        }
        assert forall|a: int, b: int| 0 <= a < b < cur.len() implies cur[a] < cur[b] by {
            if b < prev.len() {
                assert(cur[a] == prev[a] && cur[b] == prev[b]);
            } else {
                assert(cur[a] == prev[a] && prev.contains(prev[a]));
            }
        }
    }
}

/// Two disjoint duplicate-free sequences drawn from `0..n` hold at most `n`
/// values between them.
proof fn lemma_disjoint_len_bound(s1: Seq<usize>, s2: Seq<usize>, n: nat)
    requires
        s1.no_duplicates(),
        s2.no_duplicates(),
        forall|i: int| 0 <= i < s1.len() ==> s1[i] < n,
        forall|i: int| 0 <= i < s2.len() ==> s2[i] < n,
        forall|x: usize| !(#[trigger] s1.contains(x) && s2.contains(x)),
    ensures
        s1.len() + s2.len() <= n,
{
    let c = s1 + s2;
    assert(c.no_duplicates()) by {
        assert forall|i: int, j: int|
            0 <= i < c.len() && 0 <= j < c.len() && i != j implies c[i] != c[j] by {
            if i < s1.len() && j < s1.len() {
            } else if i >= s1.len() && j >= s1.len() {
                assert(c[i] == s2[i - s1.len()] && c[j] == s2[j - s1.len()]);
            } else if i < s1.len() {
                assert(c[i] == s1[i] && c[j] == s2[j - s1.len()]);
                assert(s1.contains(c[i]) && s2.contains(c[j]));
            } else {
                assert(c[j] == s1[j] && c[i] == s2[i - s1.len()]);
                assert(s1.contains(c[j]) && s2.contains(c[i]));
            }
        }
    }
    assert(forall|i: int| 0 <= i < c.len() ==> c[i] < n);
    crate::model::lemma_nodup_len_bound(c, n);
}

/// The independence test of one ordered pair of paths: the first path,
/// trailing common ancestor dropped, shares no individual with the second.
pub open spec fn pair_allowed(p1t: Seq<usize>, p2: Seq<usize>) -> bool {
    common_elements(p1t, p2).len() == 0
}

/// The contributions of one trimmed first path against every second path,
/// in order: each qualifying pair contributes the exponent
/// `|trimmed p1| + |p2| - 1`, that is, the number of parent-child edges on
/// the two lineages from the common ancestor down, minus one.
pub open spec fn exps_against(p1t: Seq<usize>, ps2: Seq<Seq<usize>>) -> Seq<int>
    decreases ps2.len(),
{
    if ps2.len() == 0 {
        Seq::empty()
    } else {
        let rest = exps_against(p1t, ps2.drop_last());
        if pair_allowed(p1t, ps2.last()) {
            rest.push(p1t.len() + ps2.last().len() - 1)
        } else {
            rest
        }
    }
}

/// The contributions of every ordered pair of paths, first paths outermost.
pub open spec fn exps_pairs(ps1: Seq<Seq<usize>>, ps2: Seq<Seq<usize>>) -> Seq<int>
    decreases ps1.len(),
{
    if ps1.len() == 0 {
        Seq::empty()
    } else {
        exps_pairs(ps1.drop_last(), ps2) + exps_against(ps1.last().drop_last(), ps2)
    }
}

/// The contributions gathered over a list of common ancestors, in order.
pub open spec fn exps_ancestors(m: Pedigree, cas: Seq<usize>, id1: usize, id2: usize) -> Seq<int>
    decreases cas.len(),
{
    if cas.len() == 0 {
        Seq::empty()
    } else {
        exps_ancestors(m, cas.drop_last(), id1, id2) + exps_pairs(
            crate::paths::lineage_paths(m, cas.last(), id1),
            crate::paths::lineage_paths(m, cas.last(), id2),
        )
    }
}

/// The coefficient of relationship of `id1` and `id2`, as the list of
/// halving exponents: the coefficient is the sum of `0.5^e` over this list.
/// Self-relationship is defined as exactly one contribution of `0.5^0 = 1`.
pub open spec fn relationship_exponents(m: Pedigree, id1: usize, id2: usize) -> Seq<int> {
    if id1 == id2 {
        seq![0int]
    } else {
        exps_ancestors(
            m,
            common_elements(ancestor_sequence(m, id1), ancestor_sequence(m, id2)),
            id1,
            id2,
        )
    }
}

/// `ancestor_sequence` is exactly the sorted ancestor set.
pub proof fn lemma_ancestor_sequence(m: Pedigree, id: usize)
    requires
        m.size() <= usize::MAX,
    ensures
        forall|y: usize|
            #[trigger] ancestor_sequence(m, id).contains(y) <==> (y < m.size()
                && m.ancestor_of(y, id)),
        strictly_sorted(ancestor_sequence(m, id)),
{
    lemma_ancestor_seq_upto(m, id, m.size());
}

/// The contribution of a single ordered pair, as a list of zero or one
/// exponents.
spec fn pair_cell(p1t: Seq<usize>, p2: Seq<usize>) -> Seq<int> {
    if pair_allowed(p1t, p2) {
        seq![p1t.len() + p2.len() - 1]
    } else {
        Seq::empty()
    }
}

/// The contributions of every first path against one fixed second path.
spec fn exps_col(ps1: Seq<Seq<usize>>, q: Seq<usize>) -> Seq<int>
    decreases ps1.len(),
{
    if ps1.len() == 0 {
        Seq::empty()
    } else {
        exps_col(ps1.drop_last(), q) + pair_cell(ps1.last().drop_last(), q)
    }
}

/// Every path of the list is simple, non-empty, and ends at the common
/// ancestor `a` — which is how the path enumerator hands them out.
pub open spec fn paths_end_at(ps: Seq<Seq<usize>>, a: usize) -> bool {
    forall|j: int|
        0 <= j < ps.len() ==> {
            let p = #[trigger] ps[j];
            p.len() >= 1 && p.no_duplicates() && p.last() == a
        }
}

/// The independence test does not care which of the two paths is trimmed:
/// the only individual the trimming removes is the shared trailing ancestor,
/// which a simple path holds nowhere else.
proof fn lemma_pair_allowed_symm(p: Seq<usize>, q: Seq<usize>, a: usize)
    requires
        p.len() >= 1,
        q.len() >= 1,
        p.no_duplicates(),
        q.no_duplicates(),
        p.last() == a,
        q.last() == a,
    ensures
        pair_allowed(p.drop_last(), q) == pair_allowed(q.drop_last(), p),
{
    lemma_common_elements(p.drop_last(), q);
    lemma_common_elements(q.drop_last(), p);
    let pt = p.drop_last();
    let qt = q.drop_last();
    assert forall|x: usize| (pt.contains(x) && q.contains(x)) implies (qt.contains(x)
        && p.contains(x)) by {
        assert(x != a) by {
            if x == a {
                let t = choose|t: int| 0 <= t < pt.len() && pt[t] == x;
                assert(p[t] == x && p[p.len() - 1] == a);
            }
        }
        let u = choose|u: int| 0 <= u < q.len() && q[u] == x;
        assert(u < q.len() - 1);
        assert(qt[u] == x);
        let t = choose|t: int| 0 <= t < pt.len() && pt[t] == x;
        assert(p[t] == x);
    }
    assert forall|x: usize| (qt.contains(x) && p.contains(x)) implies (pt.contains(x)
        && q.contains(x)) by {
        assert(x != a) by {
            if x == a {
                let t = choose|t: int| 0 <= t < qt.len() && qt[t] == x;
                assert(q[t] == x && q[q.len() - 1] == a);
            }
        }
        let u = choose|u: int| 0 <= u < p.len() && p[u] == x;
        assert(u < p.len() - 1);
        assert(pt[u] == x);
        let t = choose|t: int| 0 <= t < qt.len() && qt[t] == x;
        assert(q[t] == x);
    }
}

/// Against no second paths there are no contributions.
proof fn lemma_exps_pairs_empty(ps1: Seq<Seq<usize>>)
    ensures
        exps_pairs(ps1, Seq::empty()) == Seq::<int>::empty(),
    decreases ps1.len(),
{
    if ps1.len() > 0 {
        lemma_exps_pairs_empty(ps1.drop_last());
        assert(exps_pairs(ps1, Seq::empty()) =~= Seq::<int>::empty());
    }
}

/// A column of the contribution table equals the transposed row.
proof fn lemma_col_transpose(ps1: Seq<Seq<usize>>, q: Seq<usize>, a: usize)
    requires
        paths_end_at(ps1, a),
        q.len() >= 1,
        q.no_duplicates(),
        q.last() == a,
    ensures
        exps_col(ps1, q) == exps_against(q.drop_last(), ps1),
    decreases ps1.len(),
{
    if ps1.len() > 0 {
        assert(paths_end_at(ps1.drop_last(), a)) by {
            assert forall|j: int| 0 <= j < ps1.drop_last().len() implies {
                let p = #[trigger] ps1.drop_last()[j];
                p.len() >= 1 && p.no_duplicates() && p.last() == a
            } by {
                assert(ps1.drop_last()[j] == ps1[j]);
                assert(ps1[j] == (ps1[j]));
            }
        }
        lemma_col_transpose(ps1.drop_last(), q, a);
        let p1 = ps1.last();
        assert(p1.len() >= 1 && p1.no_duplicates() && p1.last() == a);
        lemma_pair_allowed_symm(p1, q, a);
        if pair_allowed(p1.drop_last(), q) {
            assert(p1.drop_last().len() + q.len() - 1 == q.drop_last().len() + p1.len() - 1);
            assert(exps_col(ps1, q) =~= exps_against(q.drop_last(), ps1));
        } else {
            assert(exps_col(ps1, q) =~= exps_against(q.drop_last(), ps1));
        }
    } else {
        assert(exps_col(ps1, q) =~= exps_against(q.drop_last(), ps1));
    }
}

/// Adding one second path adds exactly its column of contributions.
proof fn lemma_exps_pairs_snoc_right(ps1: Seq<Seq<usize>>, qs: Seq<Seq<usize>>, q: Seq<usize>)
    ensures
        exps_pairs(ps1, qs.push(q)).to_multiset() == exps_pairs(ps1, qs).to_multiset().add(
            exps_col(ps1, q).to_multiset(),
        ),
    decreases ps1.len(),
{
    broadcast use vstd::seq_lib::lemma_multiset_commutative;

    if ps1.len() == 0 {
        let e = Seq::<int>::empty();
        assert(e + e =~= e);
        vstd::seq_lib::lemma_multiset_commutative(e, e);
        assert(exps_pairs(ps1, qs.push(q)) == e);
        assert(exps_pairs(ps1, qs) == e);
        assert(exps_col(ps1, q) == e);
        assert(e.to_multiset() =~= e.to_multiset().add(e.to_multiset()));
    } else {
        let rest = ps1.drop_last();
        lemma_exps_pairs_snoc_right(rest, qs, q);
        let p1t = ps1.last().drop_last();
        assert(exps_against(p1t, qs.push(q)) =~= exps_against(p1t, qs) + pair_cell(p1t, q)) by {
            assert(qs.push(q).drop_last() =~= qs);
            assert(qs.push(q).last() == q);
            if pair_allowed(p1t, q) {
                assert(exps_against(p1t, qs.push(q)) =~= exps_against(p1t, qs) + pair_cell(
                    p1t,
                    q,
                ));
            }
        }
        assert(exps_pairs(ps1, qs.push(q)) == exps_pairs(rest, qs.push(q)) + exps_against(
            p1t,
            qs.push(q),
        ));
        assert(exps_pairs(ps1, qs.push(q)).to_multiset() =~= exps_pairs(ps1, qs).to_multiset().add(
            exps_col(ps1, q).to_multiset(),
        ));
    }
}

/// Swapping the two path lists permutes the contributions.
proof fn lemma_exps_pairs_transpose(ps1: Seq<Seq<usize>>, ps2: Seq<Seq<usize>>, a: usize)
    requires
        paths_end_at(ps1, a),
        paths_end_at(ps2, a),
    ensures
        exps_pairs(ps1, ps2).to_multiset() == exps_pairs(ps2, ps1).to_multiset(),
    decreases ps2.len(),
{
    broadcast use vstd::seq_lib::lemma_multiset_commutative;

    if ps2.len() == 0 {
        lemma_exps_pairs_empty(ps1);
        assert(ps2 =~= Seq::<Seq<usize>>::empty());
        assert(exps_pairs(ps1, ps2).to_multiset() =~= exps_pairs(ps2, ps1).to_multiset());
    } else {
        let qs = ps2.drop_last();
        let q = ps2.last();
        assert(paths_end_at(qs, a)) by {
            assert forall|j: int| 0 <= j < qs.len() implies {
                let p = #[trigger] qs[j];
                p.len() >= 1 && p.no_duplicates() && p.last() == a
            } by {
                assert(qs[j] == ps2[j]);
                assert(ps2[j] == (ps2[j]));
            }
        }
        lemma_exps_pairs_transpose(ps1, qs, a);
        assert(ps2 =~= qs.push(q));
        lemma_exps_pairs_snoc_right(ps1, qs, q);
        assert(q.len() >= 1 && q.no_duplicates() && q.last() == a);
        lemma_col_transpose(ps1, q, a);
        assert(exps_pairs(ps2, ps1) == exps_pairs(qs, ps1) + exps_against(q.drop_last(), ps1));
        assert(exps_pairs(ps1, ps2).to_multiset() =~= exps_pairs(ps2, ps1).to_multiset());
    }
}

/// Over any one list of common ancestors the two orders of the query yield
/// the same multiset of contributions.
proof fn lemma_exps_ancestors_symm(m: Pedigree, cas: Seq<usize>, x: usize, y: usize)
    requires
        m.wf(),
        forall|t: int| 0 <= t < cas.len() ==> cas[t] < m.size(),
    ensures
        exps_ancestors(m, cas, x, y).to_multiset() == exps_ancestors(m, cas, y, x).to_multiset(),
    decreases cas.len(),
{
    broadcast use vstd::seq_lib::lemma_multiset_commutative;

    if cas.len() > 0 {
        assert forall|t: int| 0 <= t < cas.drop_last().len() implies cas.drop_last()[t]
            < m.size() by {
            assert(cas.drop_last()[t] == cas[t]);
        }
        lemma_exps_ancestors_symm(m, cas.drop_last(), x, y);
        let a = cas.last();
        assert(a < m.size());
        let px = crate::paths::lineage_paths(m, a, x);
        let py = crate::paths::lineage_paths(m, a, y);
        crate::paths::lemma_lineage_paths_props(m, a, x);
        crate::paths::lemma_lineage_paths_props(m, a, y);
        assert(paths_end_at(px, a)) by {
            assert forall|j: int| 0 <= j < px.len() implies {
                let p = #[trigger] px[j];
                p.len() >= 1 && p.no_duplicates() && p.last() == a
            } by {
                assert(px[j] == (px[j]));
            }
        }
        assert(paths_end_at(py, a)) by {
            assert forall|j: int| 0 <= j < py.len() implies {
                let p = #[trigger] py[j];
                p.len() >= 1 && p.no_duplicates() && p.last() == a
            } by {
                assert(py[j] == (py[j]));
            }
        }
        lemma_exps_pairs_transpose(px, py, a);
        assert(exps_ancestors(m, cas, x, y).to_multiset() =~= exps_ancestors(
            m,
            cas,
            y,
            x,
        ).to_multiset());
    }
}

/// The numeric value of a list of contribution exponents, scaled by
/// `2^emax`: each exponent `e` is worth `0.5^e`, so contributes
/// `2^(emax - e)` to the scaled sum.
pub open spec fn scaled_value(s: Seq<int>, emax: int) -> int
    decreases s.len(),
{
    if s.len() == 0 {
        0
    } else {
        scaled_value(s.drop_last(), emax) + vstd::arithmetic::power2::pow2(
            (emax - s.last()) as nat,
        ) as int
    }
}

/// Taking one element out takes exactly its term out of the scaled value.
proof fn lemma_scaled_value_remove(s: Seq<int>, emax: int, j: int)
    requires
        0 <= j < s.len(),
    ensures
        scaled_value(s.remove(j), emax) == scaled_value(s, emax)
            - vstd::arithmetic::power2::pow2((emax - s[j]) as nat) as int,
    decreases s.len(),
{
    if j == s.len() - 1 {
        assert(s.remove(j) =~= s.drop_last());
    } else {
        assert(s.remove(j).drop_last() =~= s.drop_last().remove(j));
        assert(s.remove(j).last() == s.last());
        lemma_scaled_value_remove(s.drop_last(), emax, j);
        assert(s.drop_last()[j] == s[j]);
    }
}

/// Reordering a list of exponents does not change its value.
pub proof fn lemma_scaled_value_permutation(s1: Seq<int>, s2: Seq<int>, emax: int)
    requires
        s1.to_multiset() == s2.to_multiset(),
    ensures
        scaled_value(s1, emax) == scaled_value(s2, emax),
    decreases s1.len(),
{
    s1.to_multiset_ensures();
    s2.to_multiset_ensures();
    if s1.len() == 0 {
        assert(s2.to_multiset().len() == 0);
        assert(s2.len() == 0);
    } else {
        let v = s1.last();
        assert(s1.contains(v));
        assert(s1.to_multiset().count(v) > 0);
        assert(s2.contains(v));
        let j = choose|j: int| 0 <= j < s2.len() && s2[j] == v;
        let s2r = s2.remove(j);
        assert(s2r.to_multiset() =~= s2.to_multiset().remove(v));
        assert(s1.drop_last().to_multiset() =~= s1.to_multiset().remove(v)) by {
            assert(s1 =~= s1.drop_last().push(v));
            assert(s1.drop_last().push(v).to_multiset() =~= s1.drop_last().to_multiset().insert(
                v,
            )) by {
                s1.drop_last().to_multiset_ensures();
            }
        }
        lemma_scaled_value_permutation(s1.drop_last(), s2r, emax);
        lemma_scaled_value_remove(s2, emax, j);
    }
}

/// The numeric coefficient is symmetric: at any common scale the two orders
/// of the query sum to the same value.
pub proof fn lemma_relationship_value_symmetric(m: Pedigree, x: usize, y: usize, emax: int)
    requires
        m.wf(),
        m.size() <= usize::MAX,
        x < m.size(),
        y < m.size(),
    ensures
        scaled_value(relationship_exponents(m, x, y), emax) == scaled_value(
            relationship_exponents(m, y, x),
            emax,
        ),
{
    lemma_relationship_symmetric(m, x, y);
    lemma_scaled_value_permutation(
        relationship_exponents(m, x, y),
        relationship_exponents(m, y, x),
        emax,
    );
}

/// The coefficient of relationship is symmetric: querying `(x, y)` and
/// `(y, x)` yields the same multiset of contribution exponents, and so the
/// same coefficient.
pub proof fn lemma_relationship_symmetric(m: Pedigree, x: usize, y: usize)
    requires
        m.wf(),
        m.size() <= usize::MAX,
        x < m.size(),
        y < m.size(),
    ensures
        relationship_exponents(m, x, y).to_multiset() == relationship_exponents(
            m,
            y,
            x,
        ).to_multiset(),
{
    if x != y {
        lemma_ancestor_sequence(m, x);
        lemma_ancestor_sequence(m, y);
        let ax = ancestor_sequence(m, x);
        let ay = ancestor_sequence(m, y);
        lemma_common_elements(ax, ay);
        lemma_common_elements(ay, ax);
        let cxy = common_elements(ax, ay);
        let cyx = common_elements(ay, ax);
        assert forall|t: usize| #[trigger] cxy.contains(t) <==> cyx.contains(t) by {}
        lemma_sorted_same_elements(cxy, cyx);
        assert forall|t: int| 0 <= t < cxy.len() implies cxy[t] < m.size() by {
            assert(cxy.contains(cxy[t]));
        }
        lemma_exps_ancestors_symm(m, cxy, x, y);
    }
}

/// An exact coefficient of relationship. The numeric value is the sum of
/// `0.5^e` over `exponents`; keeping the exponents themselves keeps every
/// value exact, however deep the pedigree.
pub struct Coefficient {
    pub exponents: Vec<usize>,
}

/// The largest halving exponent present, 0 for no contributions at all.
pub open spec fn max_exponent(s: Seq<usize>) -> int
    decreases s.len(),
{
    if s.len() == 0 {
        0
    } else {
        let m0 = max_exponent(s.drop_last());
        if s.last() >= m0 {
            s.last() as int
        } else {
            m0
        }
    }
}

/// The sum of the contributions, scaled by `2^emax`: each exponent `e`
/// contributes `2^(emax - e)`.
pub open spec fn scaled_sum(s: Seq<usize>, emax: int) -> int
    decreases s.len(),
{
    if s.len() == 0 {
        0
    } else {
        scaled_sum(s.drop_last(), emax) + vstd::arithmetic::power2::pow2(
            (emax - s.last()) as nat,
        ) as int
    }
}

proof fn lemma_max_exponent_ge(s: Seq<usize>, j: int)
    requires
        0 <= j < s.len(),
    ensures
        s[j] <= max_exponent(s),
        max_exponent(s) >= 0,
    decreases s.len(),
{
    if j < s.len() - 1 {
        lemma_max_exponent_ge(s.drop_last(), j);
        assert(s.drop_last()[j] == s[j]);
    }
}

proof fn lemma_scaled_sum_mono(s: Seq<usize>, emax: int, i: int)
    requires
        0 <= i <= s.len(),
    ensures
        scaled_sum(s.take(i), emax) <= scaled_sum(s, emax),
    decreases s.len() - i,
{
    if i == s.len() {
        assert(s.take(i) =~= s);
    } else {
        lemma_scaled_sum_mono(s, emax, i + 1);
        assert(s.take(i + 1).drop_last() =~= s.take(i));
        assert(s.take(i + 1).last() == s[i]);
        assert(scaled_sum(s.take(i + 1), emax) == scaled_sum(s.take(i), emax)
            + vstd::arithmetic::power2::pow2((emax - s[i]) as nat) as int);
    }
}

impl Coefficient {
    /// The exact value as a dyadic ratio: `Some((num, e))` means the
    /// coefficient is `num / 2^e`, with `e` the largest halving exponent
    /// present. Nothing is returned exactly where that numerator would not
    /// fit in 64 bits.
    pub fn as_ratio(&self) -> (r: Option<(u64, usize)>)
        ensures
            match r {
                Some(pair) => pair.1 == max_exponent(self.exponents@) && pair.0 as int
                    == scaled_sum(self.exponents@, pair.1 as int),
                None => max_exponent(self.exponents@) >= 64 || scaled_sum(
                    self.exponents@,
                    max_exponent(self.exponents@),
                ) > u64::MAX,
            },
    {
        let s = &self.exponents;
        let mut emax: usize = 0;
        let mut i: usize = 0;
        while i < s.len()
            invariant
                s == &self.exponents,
                i <= s@.len(),
                emax as int == max_exponent(s@.take(i as int)),
            decreases s@.len() - i,
        {
            proof {
                assert(s@.take(i + 1).drop_last() =~= s@.take(i as int));
                assert(s@.take(i + 1).last() == s@[i as int]);
            }
            if s[i] > emax {
                emax = s[i];
            }
            i += 1;
        }
        proof {
            assert(s@.take(s@.len() as int) =~= s@);
        }
        if emax >= 64 {
            return None;
        }
        proof {
            assert forall|j: int| 0 <= j < s@.len() implies (#[trigger] s@[j]) <= emax by {
                lemma_max_exponent_ge(s@, j);
            }
        }
        let mut num: u64 = 0;
        i = 0;
        while i < s.len()
            invariant
                s == &self.exponents,
                i <= s@.len(),
                emax < 64,
                emax as int == max_exponent(s@),
                forall|j: int| 0 <= j < s@.len() ==> (#[trigger] s@[j]) <= emax,
                num as int == scaled_sum(s@.take(i as int), emax as int),
            decreases s@.len() - i,
        {
            let e = s[i];
            let sh = emax - e;
            let term = 1u64 << (sh as u64);
            proof {
                vstd::arithmetic::power2::lemma2_to64();
                vstd::arithmetic::power2::lemma2_to64_rest();
                if sh < 63 {
                    vstd::arithmetic::power2::lemma_pow2_strictly_increases(sh as nat, 63);
                }
                vstd::bits::lemma_u64_shl_is_mul(1u64, sh as u64);
                assert(term as int == vstd::arithmetic::power2::pow2(sh as nat) as int);
                assert(s@.take(i + 1).drop_last() =~= s@.take(i as int));
                assert(s@.take(i + 1).last() == s@[i as int]);
            }
            if num > u64::MAX - term {
                proof {
                    assert(scaled_sum(s@.take(i + 1), emax as int) > u64::MAX);
                    lemma_scaled_sum_mono(s@, emax as int, i + 1);
                }
                return None;
            }
            num = num + term;
            i += 1;
        }
        proof {
            assert(s@.take(s@.len() as int) =~= s@);
        }
        Some((num, emax))
    }
}

impl<T> Genealogy<T> {
    /// Wright's path-counting coefficient of relationship between `id1` and
    /// `id2` (every common ancestor treated as non-inbred), returned as its
    /// exact list of halving exponents: one entry `e`, worth `0.5^e`, per
    /// common ancestor and per pair of lineage paths that never reconverge
    /// below that ancestor. Self-relationship is defined as 1. Fails with
    /// `UnknownIndividual` exactly when either identifier is out of range.
    #[verifier::rlimit(100)]
    pub fn compute_coefficient_of_relationship(&self, id1: usize, id2: usize) -> (r: Result<
        Coefficient,
        GeneError,
    >)
        requires
            self.wf(),
        ensures
            match r {
                Ok(c) => id1 < self@.len() && id2 < self@.len() && c.exponents@.map_values(
                    |e: usize| e as int,
                ) == relationship_exponents(self.model(), id1, id2),
                Err(e) => (id1 >= self@.len() || id2 >= self@.len()) && e
                    == GeneError::UnknownIndividual,
            },
            (id1 < self@.len() && id1 == id2) ==> (r matches Ok(c) && c.exponents@ == seq![
                0usize,
            ]),
    {
        let ghost m = self.model();
        let n = self.arena_len();
        if id1 >= n || id2 >= n {
            return Err(GeneError::UnknownIndividual);
        }
        if id1 == id2 {
            let mut one: Vec<usize> = Vec::new();
            one.push(0);
            proof {
                assert(one@ =~= seq![0usize]);
                assert(one@.map_values(|e: usize| e as int) =~= seq![0int]);
            }
            return Ok(Coefficient { exponents: one });
        }
        let ancestors1 = self.get_ancestors(id1);
        let ancestors2 = self.get_ancestors(id2);
        proof {
            lemma_ancestor_sequence(m, id1);
            lemma_ancestor_sequence(m, id2);
            assert forall|y: usize|
                #[trigger] ancestors1@.contains(y) <==> ancestor_sequence(m, id1).contains(y) by {
                if ancestors1@.contains(y) {
                    let k = choose|k: nat| m.reaches_up(id1, y, k);
                    m.lemma_reach_valid(id1, y, k);
                }
            }
            lemma_sorted_same_elements(ancestors1@, ancestor_sequence(m, id1));
            assert forall|y: usize|
                #[trigger] ancestors2@.contains(y) <==> ancestor_sequence(m, id2).contains(y) by {
                if ancestors2@.contains(y) {
                    let k = choose|k: nat| m.reaches_up(id2, y, k);
                    m.lemma_reach_valid(id2, y, k);
                }
            }
            lemma_sorted_same_elements(ancestors2@, ancestor_sequence(m, id2));
        }
        let common_ancestors = intersect_ids(&ancestors1, &ancestors2);
        let ghost cas = common_elements(
            ancestor_sequence(m, id1),
            ancestor_sequence(m, id2),
        );
        proof {
            lemma_common_elements(ancestor_sequence(m, id1), ancestor_sequence(m, id2));
        }
        let mut exponents: Vec<usize> = Vec::new();
        let mut ai: usize = 0;
        while ai < common_ancestors.len()
            invariant
                self.wf(),
                m == self.model(),
                n == self@.len(),
                id1 < n,
                id2 < n,
                id1 != id2,
                common_ancestors@ == cas,
                forall|x: usize|
                    #[trigger] cas.contains(x) <==> (ancestor_sequence(m, id1).contains(x)
                        && ancestor_sequence(m, id2).contains(x)),
                forall|y: usize|
                    #[trigger] ancestor_sequence(m, id1).contains(y) <==> (y < m.size()
                        && m.ancestor_of(y, id1)),
                ai <= cas.len(),
                exponents@.map_values(|e: usize| e as int) == exps_ancestors(
                    m,
                    cas.take(ai as int),
                    id1,
                    id2,
                ),
            decreases cas.len() - ai,
        {
            let ancestor = common_ancestors[ai];
            proof {
                assert(cas.contains(ancestor));
                assert(ancestor < m.size());
            }
            self.gather_contributions(ancestor, id1, id2, &mut exponents);
            proof {
                assert(cas.take(ai + 1).drop_last() =~= cas.take(ai as int));
                assert(cas.take(ai + 1).last() == cas[ai as int]);
                assert(exps_ancestors(m, cas.take(ai + 1), id1, id2) == exps_ancestors(
                    m,
                    cas.take(ai as int),
                    id1,
                    id2,
                ) + exps_pairs(
                    crate::paths::lineage_paths(m, ancestor, id1),
                    crate::paths::lineage_paths(m, ancestor, id2),
                ));
            }
            ai += 1;
        }
        proof {
            assert(cas.take(cas.len() as int) =~= cas);
        }
        Ok(Coefficient { exponents })
    }

    /// Collect, onto the end of `exponents`, the contributions of every
    /// qualifying pair of lineage paths from one common ancestor down to the
    /// two individuals.
    #[verifier::rlimit(100)]
    fn gather_contributions(
        &self,
        ancestor: usize,
        id1: usize,
        id2: usize,
        exponents: &mut Vec<usize>,
    )
        requires
            self.wf(),
            ancestor < self@.len(),
        ensures
            final(exponents)@.map_values(|e: usize| e as int) == old(exponents)@.map_values(
                |e: usize| e as int,
            ) + exps_pairs(
                crate::paths::lineage_paths(self.model(), ancestor, id1),
                crate::paths::lineage_paths(self.model(), ancestor, id2),
            ),
    {
        let ghost m = self.model();
        let ghost base = old(exponents)@.map_values(|e: usize| e as int);
        let n = self.arena_len();
        proof {
            assert(m.size() == n as int);
            crate::paths::lemma_lineage_paths_props(m, ancestor, id1);
            crate::paths::lemma_lineage_paths_props(m, ancestor, id2);
        }
        let mut paths_1 = self.get_paths_from_ancestor_to_descendant(ancestor, id1);
        let paths_2 = self.get_paths_from_ancestor_to_descendant(ancestor, id2);
        let ghost ps1 = crate::paths::lineage_paths(m, ancestor, id1);
        let ghost ps2 = crate::paths::lineage_paths(m, ancestor, id2);
        proof {
            assert(crate::paths::paths_view(paths_1) == ps1);
            assert forall|k: int| 0 <= k < ps1.len() implies paths_1@[k]@ == ps1[k] by {
                assert(crate::paths::paths_view(paths_1)[k] == paths_1@[k]@);
            }
            assert forall|k: int| 0 <= k < ps2.len() implies paths_2@[k]@ == ps2[k] by {
                assert(crate::paths::paths_view(paths_2)[k] == paths_2@[k]@);
            }
        }
        let mut i: usize = 0;
        while i < paths_1.len()
            invariant
                self.wf(),
                m == self.model(),
                m.size() <= usize::MAX,
                ancestor < m.size(),
                paths_1@.len() == ps1.len(),
                paths_2@.len() == ps2.len(),
                i <= ps1.len(),
                forall|k: int| i <= k < ps1.len() ==> #[trigger] paths_1@[k]@ == ps1[k],
                forall|k: int| 0 <= k < ps2.len() ==> #[trigger] paths_2@[k]@ == ps2[k],
                forall|k: int|
                    0 <= k < ps1.len() ==> {
                        let p = #[trigger] ps1[k];
                        p.len() >= 1 && p.no_duplicates() && (forall|t: int|
                            0 <= t < p.len() ==> p[t] < m.size())
                    },
                forall|k: int|
                    0 <= k < ps2.len() ==> {
                        let p = #[trigger] ps2[k];
                        p.len() >= 1 && p.no_duplicates() && (forall|t: int|
                            0 <= t < p.len() ==> p[t] < m.size())
                    },
                exponents@.map_values(|e: usize| e as int) == base + exps_pairs(ps1.take(i as int), ps2),
            decreases ps1.len() - i,
        {
            let _ = paths_1[i].pop();
            let ghost p1t = ps1[i as int].drop_last();
            proof {
                assert(paths_1@[i as int]@ == p1t);
            }
            let mut j: usize = 0;
            while j < paths_2.len()
                invariant
                    self.wf(),
                    m == self.model(),
                    m.size() <= usize::MAX,
                    i < ps1.len(),
                    paths_1@.len() == ps1.len(),
                    paths_2@.len() == ps2.len(),
                    j <= ps2.len(),
                    ps1[i as int].len() >= 1,
                    p1t == ps1[i as int].drop_last(),
                    paths_1@[i as int]@ == p1t,
                    forall|k: int| 0 <= k < ps2.len() ==> #[trigger] paths_2@[k]@ == ps2[k],
                    ps1[i as int].no_duplicates(),
                    forall|t: int|
                        0 <= t < ps1[i as int].len() ==> (#[trigger] ps1[i as int][t])
                            < m.size(),
                    forall|k: int|
                        0 <= k < ps2.len() ==> {
                            let p = #[trigger] ps2[k];
                            p.len() >= 1 && p.no_duplicates() && (forall|t: int|
                                0 <= t < p.len() ==> p[t] < m.size())
                        },
                    exponents@.map_values(|e: usize| e as int) == base + exps_pairs(ps1.take(i as int), ps2) + exps_against(p1t, ps2.take(
                        j as int,
                    )),
                decreases ps2.len() - j,
            {
                let ghost exps_before = exponents@;
                let inter = intersect_ids(&paths_1[i], &paths_2[j]);
                proof {
                    lemma_common_elements(p1t, ps2[j as int]);
                    assert(ps2.take(j + 1).drop_last() =~= ps2.take(j as int));
                    assert(ps2.take(j + 1).last() == ps2[j as int]);
                }
                if inter.len() == 0 {
                    proof {
                        assert(pair_allowed(p1t, ps2[j as int]));
                        assert(p1t.no_duplicates()) by {
                            let p = ps1[i as int];
                            assert forall|a: int, b: int|
                                0 <= a < p1t.len() && 0 <= b < p1t.len() && a != b implies p1t[a]
                                != p1t[b] by {
                                assert(p[a] == p1t[a] && p[b] == p1t[b]);
                            }
                        }
                        assert forall|x: usize|
                            !(#[trigger] p1t.contains(x) && ps2[j as int].contains(x)) by {
                            if p1t.contains(x) && ps2[j as int].contains(x) {
                                assert(common_elements(p1t, ps2[j as int]).len() > 0);
                            }
                        }
                        assert forall|t: int| 0 <= t < p1t.len() implies p1t[t] < m.size() by {
                            assert(ps1[i as int][t] == p1t[t]);
                        }
                        lemma_disjoint_len_bound(p1t, ps2[j as int], m.size());
                    }
                    let l2 = paths_2[j].len();
                    let e = paths_1[i].len() + (l2 - 1);
                    exponents.push(e);
                    proof {
                        assert(exponents@.map_values(|e: usize| e as int) =~= exps_before
                            .map_values(|e: usize| e as int).push(e as int));
                        assert(exps_against(p1t, ps2.take(j + 1)) == exps_against(
                            p1t,
                            ps2.take(j as int),
                        ).push(p1t.len() + ps2[j as int].len() - 1));
                    }
                } else {
                    proof {
                        assert(!pair_allowed(p1t, ps2[j as int]));
                        assert(exps_against(p1t, ps2.take(j + 1)) == exps_against(
                            p1t,
                            ps2.take(j as int),
                        ));
                    }
                }
                j += 1;
            }
            proof {
                assert(ps2.take(ps2.len() as int) =~= ps2);
                assert(ps1.take(i + 1).drop_last() =~= ps1.take(i as int));
                assert(ps1.take(i + 1).last() == ps1[i as int]);
                assert(exps_pairs(ps1.take(i + 1), ps2) == exps_pairs(ps1.take(i as int), ps2)
                    + exps_against(p1t, ps2));
            }
            i += 1;
        }
        proof {
            assert(ps1.take(ps1.len() as int) =~= ps1);
        }
    }

}

} // verus!
