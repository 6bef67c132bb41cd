//! The eight counters that a surveyed cell keeps for the positions around it.
//!
//! While a cell looks at the cells up to two steps away from it, it counts
//! for each of the eight positions around it how many neighbours that
//! position has. A cell two steps away is a neighbour of up to three of these
//! positions, one a single step away of up to four.

use vstd::prelude::*;
use crate::life::Life;
use crate::rules::{adjacent, offset_x, offset_y};

verus! {

/// Whether a cell that stands `(dx, dy)` away from a centre is a neighbour of
/// the position around that centre numbered `pos`. The centre itself is left
/// out: it is a neighbour of all eight and is counted beforehand.
pub open spec fn touches(dx: int, dy: int, pos: int) -> bool {
    (dx != 0 || dy != 0) && adjacent(dx - offset_x(pos), dy - offset_y(pos))
}

/// What a cell that stands `(dx, dy)` away adds to the counter numbered `pos`.
pub open spec fn increment(dx: int, dy: int, pos: int) -> int {
    if touches(dx, dy, pos) {
        1
    } else {
        0
    }
}

/// Adds `neighbor` to the counters of `center`: each counter whose position
/// has `neighbor` as a neighbour goes up by one, the others stay.
pub fn update_new_life_counters(counters: &mut [u8; 8], center: &Life, neighbor: &Life)
    requires
        forall|pos: int|
            0 <= pos < 8 && touches(
                neighbor.x_pos - center.x_pos,
                neighbor.y_pos - center.y_pos,
                pos,
            ) ==> old(counters)[pos] < u8::MAX,
    ensures
        forall|pos: int|
            0 <= pos < 8 ==> final(counters)[pos] == old(counters)[pos] + increment(
                neighbor.x_pos - center.x_pos,
                neighbor.y_pos - center.y_pos,
                pos,
            ),
{
    let (dist_x, dist_y) = match (
        neighbor.x_pos.checked_sub(center.x_pos),
        neighbor.y_pos.checked_sub(center.y_pos),
    ) {
        (Some(dist_x), Some(dist_y)) => (dist_x, dist_y),
        _ => { return ; },
    };

    match dist_y {
        2 => {
            match dist_x {
                -2 => counters[0] += 1,
                -1 => { counters[0] += 1; counters[1] += 1; }
                0 => { counters[0] += 1; counters[1] += 1; counters[2] += 1; }
                1 => { counters[1] += 1; counters[2] += 1; }
                2 => counters[2] += 1,
                _ => {}
            }
        }
        1 => {
            match dist_x {
                -2 => { counters[0] += 1; counters[3] += 1; }
                -1 => { counters[1] += 1; counters[3] += 1; }
                0 => { counters[0] += 1; counters[2] += 1; counters[3] += 1; counters[4] += 1; }
                1 => { counters[1] += 1; counters[4] += 1; }
                2 => { counters[2] += 1; counters[4] += 1; }
                _ => {}
            }
        }
        0 => {
            match dist_x {
                -2 => { counters[0] += 1; counters[3] += 1; counters[5] += 1; }
                -1 => { counters[0] += 1; counters[1] += 1; counters[5] += 1; counters[6] += 1; }
                1 => { counters[1] += 1; counters[2] += 1; counters[6] += 1; counters[7] += 1; }
                2 => { counters[2] += 1; counters[4] += 1; counters[7] += 1; }
                _ => {}
            }
        }
        -1 => {
            match dist_x {
                -2 => { counters[3] += 1; counters[5] += 1; }
                -1 => { counters[3] += 1; counters[6] += 1; }
                0 => { counters[3] += 1; counters[4] += 1; counters[5] += 1; counters[7] += 1; }
                1 => { counters[4] += 1; counters[6] += 1; }
                2 => { counters[4] += 1; counters[7] += 1; }
                _ => {}
            }
        }
        -2 => {
            match dist_x {
                -2 => { counters[5] += 1; }
                -1 => { counters[5] += 1; counters[6] += 1; }
                0 => { counters[5] += 1; counters[6] += 1; counters[7] += 1; }
                1 => { counters[6] += 1; counters[7] += 1; }
                2 => { counters[7] += 1; }
                _ => {}
            }
        }
        _ => {}
    }
}

} // verus!
