//! The grid of masses that a calibration sweeps: how long it is, what it
//! holds when the caller supplies the masses, and the order of the sweep.
//!
//! The masses are scalars of the caller's; the crate counts, copies and
//! reorders them and never computes with them.

use crate::rng::shuffle_vec;
use vstd::prelude::*;

verus! {

/// The number of grid points for a requested length: one when the window
/// of cluster counts is a single count, else the request, raised to two
/// where it is less.
pub open spec fn grid_length_for(requested: nat, single_target: bool) -> nat {
    if single_target {
        1
    } else if requested < 2 {
        2
    } else {
        requested
    }
}

/// The number of grid points for a requested length.
pub fn resolve_grid_length(requested: usize, single_target: bool) -> (n: usize)
    ensures
        n == grid_length_for(requested as nat, single_target),
        n >= 1,
{
    if single_target {
        1
    } else if requested < 2 {
        2
    } else {
        requested
    }
}

/// Why the masses supplied do not make a grid.
#[derive(Clone, Copy, Debug, PartialEq, Eq)]
pub enum GridError {
    /// The masses are neither one nor as many as the grid is long.
    LengthMismatch,
}

/// The grid that the supplied masses stand for.
pub open spec fn explicit_grid<T>(masses: Seq<T>, grid_length: nat) -> Result<Seq<T>, GridError> {
    if masses.len() == 1 {
        Ok(Seq::new(grid_length, |i: int| masses[0]))
    } else if masses.len() == grid_length {
        Ok(masses)
    } else {
        Err(GridError::LengthMismatch)
    }
}

/// What came of building a grid, as plain values.
pub open spec fn grid_outcome<T>(r: Result<Vec<T>, GridError>) -> Result<Seq<T>, GridError> {
    match r {
        Ok(grid) => Ok(grid@),
        Err(e) => Err(e),
    }
}

/// The grid for masses that the caller supplies: a single mass stands at
/// every grid point, `grid_length` masses are taken as they are, and any
/// other number of masses is an error.
pub fn explicit_masses<T: Copy>(masses: &[T], grid_length: usize) -> (r: Result<Vec<T>, GridError>)
    ensures
        grid_outcome(r) == explicit_grid(masses@, grid_length as nat),
{
    let n = masses.len();
    if n != 1 && n != grid_length {
        return Err(GridError::LengthMismatch);
    }
    let mut grid: Vec<T> = Vec::new();
    let mut i: usize = 0;
    while i < grid_length
        invariant
            i <= grid_length,
            n == masses@.len(),
            n == 1 || n == grid_length,
            grid@.len() == i,
            forall|k: int|
                0 <= k < i ==> #[trigger] grid@[k] == if n == 1 {
                    masses@[0]
                } else {
                    masses@[k]
                },
        decreases grid_length - i,
    {
        let mass = if n == 1 {
            masses[0]
        } else {
            masses[i]
        };
        grid.push(mass);
        i += 1;
    }
    proof {
        if n == 1 {
            assert(grid@ =~= Seq::new(grid_length as nat, |i: int| masses@[0]));
        } else {
            assert(grid@ =~= masses@);
        }
    }
    Ok(grid)
}

/// Puts the grid into an order drawn from `rng`, so that what a sweep
/// carries from one grid point to the next does not follow the masses up
/// or down. The grid holds the same masses afterwards, each as often as
/// before.
pub fn shuffle_grid<T>(grid: &mut Vec<T>, rng: &mut rand_pcg::Mcg128Xsl64)
    ensures
        final(grid)@.to_multiset() == old(grid)@.to_multiset(),
        final(grid)@.len() == old(grid)@.len(),
{
    shuffle_vec(grid, rng);
    proof {
        vstd::seq_lib::to_multiset_len(grid@);
        vstd::seq_lib::to_multiset_len(old(grid)@);
    }
}

} // verus!
