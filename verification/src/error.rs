//! Why a mosaic could not be built.

use vstd::prelude::*;
use crate::brick::Brick;

verus! {

/// An error that ends the construction of a mosaic.
#[non_exhaustive]
#[derive(Copy, Clone, Eq, PartialEq, Debug)]
pub enum MosaicError<U, B> {
    /// The brick that was chosen for a voxel is not 1x1x1.
    NotUnitBrick(Brick<U, B>),
    /// There are more voxels in a section than the machine can number.
    PointerTooSmall,
}

} // verus!
