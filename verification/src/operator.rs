//! Genetic operators: selection, crossover and mutation.

pub mod crossover;
pub mod mutate;
pub mod permutation;
pub mod select;

pub use crossover::{NoCrossover, PointCrossover};
pub use mutate::SwapMutation;
pub use permutation::{
    CycleCrossover, EdgeRecombinationCrossover, InsertionMutation, InversionMutation,
    OrderCrossover, PartiallyMappedCrossover, ScrambleMutation,
};
pub use select::{RandomSelection, Tournament};

use crate::error::{reason_got, Error, Result};
use vstd::prelude::*;

verus! {

/// The largest population, number of offspring, tournament or number of neighbors accepted,
/// 2^24: far beyond practical runs, and small enough that the memory and time they take are
/// bounded instead of overflowing or hanging.
pub const MAX_SIZE: usize = 0x100_0000;

/// A count of at most [`MAX_SIZE`] for `setting`.
///
/// # Errors
///
/// [`Error::InvalidSetting`] for a larger count.
pub fn check_size(setting: &'static str, size: usize) -> (r: Result<usize>)
    ensures
        r is Ok <==> size <= MAX_SIZE,
        r matches Ok(s) ==> s == size,
        r matches Err(e) ==> e.is_invalid_setting(setting),
{
    if size <= MAX_SIZE {
        Ok(size)
    } else {
        Err(Error::InvalidSetting { setting, reason: reason_got("must be at most 16777216 (2^24)", size) })
    }
}

} // verus!
