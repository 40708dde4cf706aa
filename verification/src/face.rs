//! The face shared by two adjacent cells, carried as its normal vector.

use vstd::prelude::*;

use crate::vector_3d::Vector3D;

verus! {

/// The face between two adjacent cells A and B, with normal
/// `center(A) - center(B)`: it points from B toward A.
#[derive(Clone, Copy, PartialEq, Eq, Structural, Debug, Hash)]
pub struct Face {
    pub normal: Vector3D,
}

} // verus!
