use vstd::prelude::*;

verus! {

/// Sex of an individual. Descriptive metadata only: the engine never
/// validates it against parentage.
#[derive(Clone, Copy, Debug)]
pub enum Sex {
    Female,
    Hermaphrodite,
    Male,
}

/// One member of a pedigree. Parent and child links are identifiers (arena
/// indices) of other individuals; the payload is opaque to the engine.
#[derive(Debug)]
pub struct Individual<T> {
    pub children: Vec<usize>,
    pub individual: T,
    pub parents: Vec<usize>,
    pub alive: bool,
    pub fertile: bool,
    pub sex: Option<Sex>,
    pub score: Option<usize>,
}

impl<T> Individual<T> {
    /// A fresh individual with no parents and no children, alive and fertile
    /// by default.
    pub fn new(individual: T) -> (r: Individual<T>)
        ensures
            r.children@ == Seq::<usize>::empty(),
            r.parents@ == Seq::<usize>::empty(),
            r.individual == individual,
            r.alive,
            r.fertile,
            r.sex is None,
            r.score is None,
    {
        Individual {
            children: Vec::new(),
            individual,
            parents: Vec::new(),
            alive: true,
            fertile: true,
            sex: None,
            score: None,
        }
    }
}

} // verus!
