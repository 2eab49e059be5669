//! The 8-neighborhood: offsets of the eight cells around a grid cell, and the
//! pairing of each direction with its opposite.

use vstd::prelude::*;

verus! {

/// Horizontal offset of direction `i`, for `i` in `0..8`. The directions are
/// enumerated in reading order: the three cells above, the two beside, the
/// three below.
pub open spec fn offset_dx(i: int) -> int {
    if i == 0 || i == 3 || i == 5 {
        -1
    } else if i == 1 || i == 6 {
        0
    } else {
        1
    }
}

/// Vertical offset of direction `i`, for `i` in `0..8`.
pub open spec fn offset_dy(i: int) -> int {
    if i == 0 || i == 1 || i == 2 {
        -1
    } else if i == 3 || i == 4 {
        0
    } else {
        1
    }
}

/// Index of the direction opposite to `i`: the enumeration is arranged so
/// that reversing it negates the offsets.
pub open spec fn opp(i: int) -> int {
    7 - i
}

/// Law (direction involution): for every direction, the opposite direction's
/// offset is the exact negation of its own, and taking the opposite twice
/// leads back.
pub proof fn lemma_offset_involution()
    ensures
        forall|i: int| 0 <= i < 8 ==> #[trigger] offset_dx(opp(i)) == -offset_dx(i),
        forall|i: int| 0 <= i < 8 ==> #[trigger] offset_dy(opp(i)) == -offset_dy(i),
        forall|i: int| 0 <= i < 8 ==> #[trigger] opp(opp(i)) == i,
        forall|i: int| 0 <= i < 8 ==> 0 <= #[trigger] opp(i) < 8,
{
}

/// The offset of direction `i` as a coordinate pair.
pub fn offset(i: usize) -> (r: (isize, isize))
    requires
        i < 8,
    ensures
        r.0 as int == offset_dx(i as int),
        r.1 as int == offset_dy(i as int),
{
    match i {
        0 => (-1, -1),
        1 => (0, -1),
        2 => (1, -1),
        3 => (-1, 0),
        4 => (1, 0),
        5 => (-1, 1),
        6 => (0, 1),
        _ => (1, 1),
    }
}

/// The index of the direction opposite to `i`.
pub fn minus_index(i: usize) -> (r: usize)
    requires
        i < 8,
    ensures
        r as int == opp(i as int),
        r < 8,
{
    7 - i
}

} // verus!
