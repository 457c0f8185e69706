//! A constraint solver over 3D grids of cells.
pub mod generation;
pub mod grid;
pub mod position;
pub mod random;
pub mod sampler;
pub mod solver;

use vstd::prelude::*;

use self::sampler::{grids_agree, Sampler};

verus! {

/// A value that cells of the grid can hold, with the constraints that
/// decide where it can go.
pub trait Element: Sized + Clone {
    /// Every value that a cell can hold, each listed once.
    fn full_set() -> Vec<Self>;

    /// Whether `value` meets all of its constraints at the sampler's cell.
    fn satisfies(value: &Self, sampler: &Sampler<Self>) -> bool
        requires
            grids_agree(sampler.values_spec(), sampler.domains_spec(), sampler.full_spec()),
    ;
}

} // verus!
