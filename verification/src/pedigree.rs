use vstd::prelude::*;

use crate::individual::Individual;
use crate::model::Pedigree;

verus! {

/// Everything of an individual but its edge lists: the payload and the
/// descriptive metadata.
pub open spec fn same_individual_data<T>(a: Individual<T>, b: Individual<T>) -> bool {
    &&& a.individual == b.individual
    &&& a.alive == b.alive
    &&& a.fertile == b.fertile
    &&& a.sex == b.sex
    &&& a.score == b.score
}

/// The condition under which a parent edge `pid -> id` is accepted: both
/// identifiers known, a parent slot free, and `id` not already an ancestor
/// of `pid` (which is what would close a cycle).
pub open spec fn parent_attach_ok(m: Pedigree, id: usize, pid: usize) -> bool {
    &&& id < m.size()
    &&& pid < m.size()
    &&& m.parents[id as int].len() < 2
    &&& !m.ancestor_of(id, pid)
}

/// What installing an optional parent edge does to the graph: nothing for an
/// absent or rejected edge, one new edge otherwise.
pub open spec fn parent_attach(m: Pedigree, id: usize, pid: Option<usize>) -> Pedigree {
    match pid {
        None => m,
        Some(p) => if parent_attach_ok(m, id, p) {
            m.with_edge(id, p)
        } else {
            m
        },
    }
}

/// An append-only arena of individuals. Position in the arena is the
/// identifier; identifiers are handed out sequentially from 0 and never
/// reused.
#[derive(Debug)]
pub struct Genealogy<T> {
    genealogy: Vec<Individual<T>>,
}

impl<T> View for Genealogy<T> {
    type V = Seq<Individual<T>>;

    closed spec fn view(&self) -> Seq<Individual<T>> {
        self.genealogy@
    }
}

impl<T> Genealogy<T> {
    /// The graph shape of this genealogy: just the edge lists, payloads
    /// forgotten.
    pub open spec fn model(&self) -> Pedigree {
        Pedigree {
            parents: Seq::new(self@.len(), |i: int| self@[i].parents@),
            children: Seq::new(self@.len(), |i: int| self@[i].children@),
        }
    }

    /// The structural invariant: edges in range, linkage bidirectional, at
    /// most two parents each, and no cycles.
    pub open spec fn wf(&self) -> bool {
        self.model().wf()
    }

    /// An empty genealogy.
    pub fn new() -> (r: Genealogy<T>)
        ensures
            r@ == Seq::<Individual<T>>::empty(),
            r.wf(),
    {
        let r = Genealogy { genealogy: Vec::new() };
        proof {
            assert(r.model().parents =~= Seq::<Seq<usize>>::empty());
            assert(r.model().children =~= Seq::<Seq<usize>>::empty());
        }
        r
    }

    /// Whether `id` names an individual of this genealogy.
    pub fn contains_id(&self, id: usize) -> (r: bool)
        ensures
            r == (id < self@.len()),
    {
        id < self.genealogy.len()
    }

    /// How many individuals the arena holds.
    pub(crate) fn arena_len(&self) -> (r: usize)
        ensures
            r == self@.len(),
    {
        self.genealogy.len()
    }

    /// How many children are recorded for `id`.
    pub(crate) fn child_count(&self, id: usize) -> (r: usize)
        requires
            id < self@.len(),
        ensures
            r == self.model().children[id as int].len(),
    {
        self.genealogy[id].children.len()
    }

    /// The `j`-th recorded child of `id`.
    pub(crate) fn child_at(&self, id: usize, j: usize) -> (r: usize)
        requires
            id < self@.len(),
            j < self.model().children[id as int].len(),
        ensures
            r == self.model().children[id as int][j as int],
    {
        self.genealogy[id].children[j]
    }

    /// How many parents are recorded for `id`.
    pub(crate) fn parent_count(&self, id: usize) -> (r: usize)
        requires
            id < self@.len(),
        ensures
            r == self.model().parents[id as int].len(),
    {
        self.genealogy[id].parents.len()
    }

    /// The `j`-th recorded parent of `id`.
    pub(crate) fn parent_at(&self, id: usize, j: usize) -> (r: usize)
        requires
            id < self@.len(),
            j < self.model().parents[id as int].len(),
        ensures
            r == self.model().parents[id as int][j as int],
    {
        self.genealogy[id].parents[j]
    }

    /// Try to record `pid` as a parent of `id`. Doing nothing counts as
    /// success for an absent `pid`. A present edge is rejected — `false`,
    /// graph left unchanged — when either identifier is unknown, when `id`
    /// already has two parents, or when `id` is already an ancestor of `pid`,
    /// which is exactly when the edge would make `id` an ancestor of itself.
    pub fn add_parent(&mut self, id: usize, pid: Option<usize>) -> (r: bool)
        requires
            old(self).wf(),
        ensures
            final(self).wf(),
            final(self).model() == parent_attach(old(self).model(), id, pid),
            r == match pid {
                None => true,
                Some(p) => parent_attach_ok(old(self).model(), id, p),
            },
            final(self)@.len() == old(self)@.len(),
            forall|i: int|
                0 <= i < final(self)@.len() ==> same_individual_data(
                    #[trigger] final(self)@[i],
                    old(self)@[i],
                ),
            !r ==> *final(self) == *old(self),
    {
        match pid {
            None => true,
            Some(p) => {
                if id >= self.genealogy.len() || p >= self.genealogy.len() {
                    false
                } else if self.parent_count(id) >= 2 {
                    false
                } else if self.is_descendant_of(id, p) {
                    false
                } else {
                    let ghost before = *self;
                    self.genealogy[p].children.push(id);
                    self.genealogy[id].parents.push(p);
                    proof {
                        assert(self.model() =~= before.model().with_edge(id, p)) by {
                            assert(id != p) by {
                                assert(before.model().reaches_up(p, p, 0));
                            }
                        }
                        before.model().lemma_with_edge_wf(id, p);
                    }
                    true
                }
            },
        }
    }

    /// Allocate the next identifier, append a fresh individual carrying
    /// `identifier`, then try to install the father edge and the mother edge,
    /// each independently. The new identifier is returned unconditionally:
    /// a rejected edge is simply left absent.
    pub fn add(&mut self, identifier: T, father: Option<usize>, mother: Option<usize>) -> (id:
        usize)
        requires
            old(self).wf(),
        ensures
            final(self).wf(),
            id == old(self)@.len(),
            final(self)@.len() == old(self)@.len() + 1,
            final(self).model() == parent_attach(
                parent_attach(old(self).model().push_node(), id, father),
                id,
                mother,
            ),
            final(self)@[id as int].individual == identifier,
            final(self)@[id as int].alive && final(self)@[id as int].fertile,
            final(self)@[id as int].sex is None && final(self)@[id as int].score is None,
            forall|i: int|
                0 <= i < old(self)@.len() ==> same_individual_data(
                    #[trigger] final(self)@[i],
                    old(self)@[i],
                ),
    {
        let id = self.genealogy.len();
        self.genealogy.push(Individual::new(identifier));
        proof {
            assert(self.model() =~= old(self).model().push_node());
            old(self).model().lemma_push_node_wf();
        }
        self.add_parent(id, father);
        self.add_parent(id, mother);
        id
    }

    /// The individual with this identifier, echoed back as stored, or
    /// nothing for an unknown identifier.
    pub fn get_individual(&self, id: usize) -> (r: Option<&Individual<T>>)
        ensures
            match r {
                Some(ind) => id < self@.len() && *ind == self@[id as int],
                None => id >= self@.len(),
            },
    {
        if id < self.genealogy.len() {
            Some(&self.genealogy[id])
        } else {
            None
        }
    }

    /// The last `amount` individuals, or nothing where the genealogy holds no
    /// more than `amount`.
    pub fn tail(&self, amount: usize) -> (r: Option<&[Individual<T>]>)
        ensures
            match r {
                None => amount >= self@.len(),
                Some(s) => amount < self@.len() && s@ == self@.skip(self@.len() - amount as int),
            },
    {
        if amount >= self.genealogy.len() {
            None
        } else {
            let start = self.genealogy.len() - amount;
            Some(vstd::slice::slice_subrange(
                self.genealogy.as_slice(),
                start,
                self.genealogy.len(),
            ))
        }
    }
}

} // verus!
