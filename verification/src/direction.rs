//! Sweep directions: a vector plus a stable index.

use vstd::prelude::*;

use crate::vector_3d::Vector3D;

verus! {

/// One angular direction of the sweep. The index is stable in `[0, D)` and
/// breaks ties in task priorities.
#[derive(Clone, Copy, PartialEq, Eq, Structural, Debug, Hash)]
pub struct Direction {
    pub vector: Vector3D,
    pub index: usize,
}

/// Numbers a list of direction vectors in order.
pub fn get_directions(vectors: &Vec<Vector3D>) -> (r: Vec<Direction>)
    ensures
        r@.len() == vectors@.len(),
        forall|i: int|
            0 <= i < r@.len() ==> r@[i] == (Direction { vector: vectors@[i], index: i as usize }),
{
    let mut r: Vec<Direction> = Vec::new();
    let mut i: usize = 0;
    while i < vectors.len()
        invariant
            i <= vectors@.len(),
            r@.len() == i,
            forall|j: int|
                0 <= j < i ==> r@[j] == (Direction { vector: vectors@[j], index: j as usize }),
        decreases vectors@.len() - i,
    {
        r.push(Direction { vector: vectors[i], index: i });
        i = i + 1;
    }
    r
}

} // verus!
