//! The set of grid cells that a growing region has accepted.

use bevy::utils::hashbrown::HashSet;
use vstd::prelude::*;

verus! {

/// A hash set of grid cells: `bevy::utils::hashbrown::HashSet<(i32, i32)>`.
#[verifier::external_body]
pub struct CellSet {
    cells: HashSet<(i32, i32)>,
}

/// The cells that the hash set holds.
pub uninterp spec fn cell_set_contents(set: CellSet) -> Set<(i32, i32)>;

impl View for CellSet {
    type V = Set<(i32, i32)>;

    open spec fn view(&self) -> Set<(i32, i32)> {
        cell_set_contents(*self)
    }
}

impl CellSet {
    /// `HashSet::new`: a set that holds nothing.
    #[verifier::external_body]
    pub(crate) fn new() -> (set: CellSet)
        ensures
            cell_set_contents(set) == Set::<(i32, i32)>::empty(),
    {
        CellSet { cells: HashSet::new() }
    }

    /// `HashSet::len`: how many cells the set holds.
    #[verifier::external_body]
    pub(crate) fn len(&self) -> (n: usize)
        ensures
            n == cell_set_contents(*self).len(),
    {
        self.cells.len()
    }

    /// `HashSet::contains`: whether the set holds the cell.
    #[verifier::external_body]
    pub(crate) fn contains(&self, cell: &(i32, i32)) -> (held: bool)
        ensures
            held == cell_set_contents(*self).contains(*cell),
    {
        self.cells.contains(cell)
    }

    /// `HashSet::insert`: afterwards the set holds the cell besides what it
    /// held, and the result tells whether the cell is new to it.
    #[verifier::external_body]
    pub(crate) fn insert(&mut self, cell: (i32, i32)) -> (fresh: bool)
        ensures
            cell_set_contents(*final(self)) == cell_set_contents(*old(self)).insert(cell),
            fresh == !cell_set_contents(*old(self)).contains(cell),
    {
        self.cells.insert(cell)
    }

    /// `HashSet::into_iter`, collected: every cell of the set once, in the
    /// order in which the hash table is walked, of which nothing is claimed.
    #[verifier::external_body]
    pub(crate) fn into_vec(self) -> (cells: Vec<(i32, i32)>)
        ensures
            cells@.to_set() == cell_set_contents(self),
            cells@.no_duplicates(),
    {
        self.cells.into_iter().collect()
    }
}

} // verus!
