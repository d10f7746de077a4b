//! Arithmetic helpers shared by the grid and the tile layer.
use vstd::prelude::*;
use crate::vector::{IVec2, UVec2};

verus! {

/// The exponential growth rule: an axis of size `current` that must grow by
/// at least `distance` grows to `max(current + distance, 2 * current)`.
pub open spec fn exp_growth(distance: int, current: int) -> int {
    let needed = current + distance;
    let doubled = 2 * current;
    (if needed >= doubled { needed } else { doubled }) - current
}

/// How much an axis of size `current_size` grows when it falls short by
/// `distance`: at least doubling, and further if doubling is not enough.
pub fn calculate_exponential_distance(distance: isize, current_size: usize) -> (r: usize)
    requires
        distance >= 0,
    ensures
        r == exp_growth(distance as int, current_size as int),
        r >= distance,
        r >= current_size,
{
    let d = distance as usize;
    if d >= current_size {
        d
    } else {
        current_size
    }
}

/// Converts each component to a signed integer.
pub fn usize_vec_to_isize(vector: UVec2) -> (r: IVec2)
    requires
        vector.x <= isize::MAX,
        vector.y <= isize::MAX,
    ensures
        r.x == vector.x,
        r.y == vector.y,
{
    IVec2 { x: vector.x as isize, y: vector.y as isize }
}

/// Converts each component to an unsigned integer, negative ones becoming 0.
pub fn isize_vec_to_usize_saturating(vector: IVec2) -> (r: UVec2)
    ensures
        r.x == (if vector.x < 0 { 0 } else { vector.x as int }),
        r.y == (if vector.y < 0 { 0 } else { vector.y as int }),
{
    UVec2 {
        x: if vector.x < 0 { 0 } else { vector.x as usize },
        y: if vector.y < 0 { 0 } else { vector.y as usize },
    }
}

} // verus!
