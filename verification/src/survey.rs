//! The survey of one cell: how many neighbours it has, and how many each of
//! the eight positions around it has.
//!
//! A cell is surveyed with a single query over the cells at most two steps
//! away from it. That is enough to count its own neighbours and, at the same
//! time, the neighbours of each of the eight positions around it, because a
//! neighbour of such a position is never more than two steps away.

use vstd::prelude::*;
use crate::counters::{increment, update_new_life_counters};
use crate::grid::{lists_window, precedes, World};
use crate::life::Life;
use crate::rules::{adjacent, mature, neighbor_count, offset_x, offset_y, Cells};

verus! {

/// What the survey of one cell finds.
#[derive(Debug, Clone, Copy)]
pub struct Survey {
    /// How many neighbours the cell has.
    pub close_neighbor_count: u8,
    /// For each of the eight positions around the cell, how many neighbours
    /// that position has, the cell itself counted among them.
    pub new_life_counters: [u8; 8],
}

impl World {
    /// Surveys the surroundings of `life`, which need not be on the plane
    /// itself. Cells of age 0 are passed over, and so is a cell at the
    /// position of `life`: it is counted once, beforehand, for each of the
    /// eight positions around it.
    pub fn survey(&self, life: &Life) -> (found: Survey)
        ensures
            found.close_neighbor_count == neighbor_count(
                self@,
                life.x_pos as int,
                life.y_pos as int,
            ),
            forall|pos: int|
                0 <= pos < 8 ==> #[trigger] found.new_life_counters[pos] == 1 + neighbor_count(
                    self@.remove((life.x_pos as int, life.y_pos as int)),
                    life.x_pos + offset_x(pos),
                    life.y_pos + offset_y(pos),
                ),
    {
        let mut close_neighbor_count: u8 = 0;
        // Initialize to 1 to account for self
        let mut new_life_counters: [u8; 8] = [1;8];
        let neighbors = self.query_around_point(life.x_pos, life.y_pos);
        let mut index: usize = 0;
        proof {
            lemma_survey_start(
                neighbors@,
                life.x_pos as int,
                life.y_pos as int,
                new_life_counters@,
            );
        }
        while index < neighbors.len()
            invariant
                index <= neighbors.len(),
                lists_window(
                    neighbors@,
                    self@,
                    life.x_pos - 2,
                    life.x_pos + 2,
                    life.y_pos - 2,
                    life.y_pos + 2,
                ),
                surveyed(
                    neighbors@,
                    index as int,
                    life.x_pos as int,
                    life.y_pos as int,
                    close_neighbor_count as int,
                    new_life_counters@,
                ),
            decreases neighbors.len() - index,
        {
            let neighbor: Life = neighbors[index];
            let ghost close_before = close_neighbor_count as int;
            let ghost counters_before = new_life_counters@;
            proof {
                lemma_survey_bounds(
                    neighbors@,
                    index as int,
                    life.x_pos as int,
                    life.y_pos as int,
                    close_before,
                    counters_before,
                );
            }
            // Skip self, skip newborns
            let is_self = life.x_pos == neighbor.x_pos && life.y_pos == neighbor.y_pos;
            if !is_self && neighbor.age != 0 {
                if life.is_close_neighbor(&neighbor) {
                    close_neighbor_count += 1;
                }
                update_new_life_counters(&mut new_life_counters, life, &neighbor);
            }
            proof {
                lemma_survey_step(
                    neighbors@,
                    index as int,
                    *life,
                    close_before,
                    counters_before,
                    close_neighbor_count as int,
                    new_life_counters@,
                );
            }
            index += 1;
        }
        proof {
            lemma_survey_done(
                neighbors@,
                self@,
                life.x_pos as int,
                life.y_pos as int,
                close_neighbor_count as int,
                new_life_counters@,
            );
        }
        Survey { close_neighbor_count, new_life_counters }
    }
}

/// Whether one of the first `k` cells of `listing` stands at `(x, y)` and
/// takes part in the rules, `(x, y)` not being the centre `(cx, cy)`.
spec fn spotted(listing: Seq<Life>, k: int, cx: int, cy: int, x: int, y: int) -> bool {
    exists|i: int|
        0 <= i < k && (#[trigger] listing[i]).x_pos == x && listing[i].y_pos == y && listing[i].age
            >= 1 && (x != cx || y != cy)
}

spec fn noted(listing: Seq<Life>, k: int, cx: int, cy: int, x: int, y: int) -> nat {
    if spotted(listing, k, cx, cy, x, y) {
        1
    } else {
        0
    }
}

/// How many of the eight positions around `(x, y)` hold one of the first `k`
/// cells of `listing` that takes part in the rules and is not the centre.
#[verifier::opaque]
spec fn tally(listing: Seq<Life>, k: int, cx: int, cy: int, x: int, y: int) -> nat {
    noted(listing, k, cx, cy, x - 1, y + 1) + noted(listing, k, cx, cy, x, y + 1) + noted(
        listing,
        k,
        cx,
        cy,
        x + 1,
        y + 1,
    ) + noted(listing, k, cx, cy, x - 1, y) + noted(listing, k, cx, cy, x + 1, y) + noted(
        listing,
        k,
        cx,
        cy,
        x - 1,
        y - 1,
    ) + noted(listing, k, cx, cy, x, y - 1) + noted(listing, k, cx, cy, x + 1, y - 1)
}

/// Whether the cell `seen`, met around the centre `(cx, cy)`, is a neighbour
/// of `(x, y)` that counts.
spec fn counts_for(seen: Life, cx: int, cy: int, x: int, y: int) -> bool {
    seen.age >= 1 && (seen.x_pos != cx || seen.y_pos != cy) && adjacent(
        seen.x_pos - x,
        seen.y_pos - y,
    )
}

/// Before any cell of the listing has been looked at, every tally is 0.
proof fn lemma_tally_start(listing: Seq<Life>, cx: int, cy: int, x: int, y: int)
    ensures
        tally(listing, 0, cx, cy, x, y) == 0,
{
    reveal(tally);
}

proof fn lemma_spotted_step(listing: Seq<Life>, k: int, cx: int, cy: int, x: int, y: int)
    requires
        0 <= k < listing.len(),
        forall|i: int, j: int|
            0 <= i < j < listing.len() ==> precedes(#[trigger] listing[i], #[trigger] listing[j]),
    ensures
        spotted(listing, k + 1, cx, cy, x, y) <==> spotted(listing, k, cx, cy, x, y) || (
        listing[k].x_pos == x && listing[k].y_pos == y && listing[k].age >= 1 && (x != cx || y
            != cy)),
        listing[k].x_pos == x && listing[k].y_pos == y ==> !spotted(listing, k, cx, cy, x, y),
{
    if spotted(listing, k, cx, cy, x, y) {
        let i = choose|i: int|
            0 <= i < k && (#[trigger] listing[i]).x_pos == x && listing[i].y_pos == y
                && listing[i].age >= 1 && (x != cx || y != cy);
        assert(precedes(listing[i], listing[k]));
        assert(0 <= i < k + 1 && listing[i].x_pos == x);
    }
    if listing[k].x_pos == x && listing[k].y_pos == y && listing[k].age >= 1 && (x != cx || y
        != cy) {
        assert(0 <= k < k + 1 && listing[k].x_pos == x);
    }
}

/// What the next cell of the listing adds to the tally around `(x, y)`.
proof fn lemma_tally_step(listing: Seq<Life>, k: int, cx: int, cy: int, x: int, y: int)
    requires
        0 <= k < listing.len(),
        forall|i: int, j: int|
            0 <= i < j < listing.len() ==> precedes(#[trigger] listing[i], #[trigger] listing[j]),
    ensures
        tally(listing, k + 1, cx, cy, x, y) == tally(listing, k, cx, cy, x, y) + (if counts_for(
            listing[k],
            cx,
            cy,
            x,
            y,
        ) {
            1nat
        } else {
            0nat
        }),
        tally(listing, k, cx, cy, x, y) <= 8,
{
    reveal(tally);
    lemma_spotted_step(listing, k, cx, cy, x - 1, y + 1);
    lemma_spotted_step(listing, k, cx, cy, x, y + 1);
    lemma_spotted_step(listing, k, cx, cy, x + 1, y + 1);
    lemma_spotted_step(listing, k, cx, cy, x - 1, y);
    lemma_spotted_step(listing, k, cx, cy, x + 1, y);
    lemma_spotted_step(listing, k, cx, cy, x - 1, y - 1);
    lemma_spotted_step(listing, k, cx, cy, x, y - 1);
    lemma_spotted_step(listing, k, cx, cy, x + 1, y - 1);
}

proof fn lemma_spotted_complete(listing: Seq<Life>, cells: Cells, cx: int, cy: int, x: int, y: int)
    requires
        lists_window(listing, cells, cx - 2, cx + 2, cy - 2, cy + 2),
        cx - 2 <= x <= cx + 2,
        cy - 2 <= y <= cy + 2,
    ensures
        spotted(listing, listing.len() as int, cx, cy, x, y) <==> mature(
            cells.remove((cx, cy)),
            x,
            y,
        ),
{
    if spotted(listing, listing.len() as int, cx, cy, x, y) {
        let i = choose|i: int|
            0 <= i < listing.len() && (#[trigger] listing[i]).x_pos == x && listing[i].y_pos == y
                && listing[i].age >= 1 && (x != cx || y != cy);
        assert(cells.contains_key((listing[i].x_pos as int, listing[i].y_pos as int)));
    }
    if mature(cells.remove((cx, cy)), x, y) {
        assert(cells.contains_key((x, y)));
        let i = choose|i: int|
            0 <= i < listing.len() && (#[trigger] listing[i]).x_pos == x && listing[i].y_pos == y;
        assert(listing[i].age >= 1);
    }
}

/// Once the whole listing around the centre has been gone through, the tally
/// around a position next to the centre, or around the centre itself, is the
/// number of its neighbours other than the centre.
proof fn lemma_tally_complete(listing: Seq<Life>, cells: Cells, cx: int, cy: int, x: int, y: int)
    requires
        lists_window(listing, cells, cx - 2, cx + 2, cy - 2, cy + 2),
        cx - 1 <= x <= cx + 1,
        cy - 1 <= y <= cy + 1,
    ensures
        tally(listing, listing.len() as int, cx, cy, x, y) == neighbor_count(
            cells.remove((cx, cy)),
            x,
            y,
        ),
{
    reveal(tally);
    lemma_spotted_complete(listing, cells, cx, cy, x - 1, y + 1);
    lemma_spotted_complete(listing, cells, cx, cy, x, y + 1);
    lemma_spotted_complete(listing, cells, cx, cy, x + 1, y + 1);
    lemma_spotted_complete(listing, cells, cx, cy, x - 1, y);
    lemma_spotted_complete(listing, cells, cx, cy, x + 1, y);
    lemma_spotted_complete(listing, cells, cx, cy, x - 1, y - 1);
    lemma_spotted_complete(listing, cells, cx, cy, x, y - 1);
    lemma_spotted_complete(listing, cells, cx, cy, x + 1, y - 1);
}

/// Whether `close` and `counters` are what the survey around `(cx, cy)` has
/// counted once the first `k` cells of `listing` have been looked at.
#[verifier::opaque]
spec fn surveyed(listing: Seq<Life>, k: int, cx: int, cy: int, close: int, counters: Seq<u8>) -> bool {
    &&& counters.len() == 8
    &&& close == tally(listing, k, cx, cy, cx, cy)
    &&& forall|pos: int|
        0 <= pos < 8 ==> #[trigger] counters[pos] == 1 + tally(
            listing,
            k,
            cx,
            cy,
            cx + offset_x(pos),
            cy + offset_y(pos),
        )
}

/// The survey starts with no neighbour counted, and the centre counted once
/// for each position around it.
proof fn lemma_survey_start(listing: Seq<Life>, cx: int, cy: int, counters: Seq<u8>)
    requires
        counters.len() == 8,
        forall|pos: int| 0 <= pos < 8 ==> #[trigger] counters[pos] == 1,
    ensures
        surveyed(listing, 0, cx, cy, 0, counters),
{
    reveal(surveyed);
    lemma_tally_start(listing, cx, cy, cx, cy);
    assert forall|pos: int| 0 <= pos < 8 implies #[trigger] counters[pos] == 1 + tally(
        listing,
        0,
        cx,
        cy,
        cx + offset_x(pos),
        cy + offset_y(pos),
    ) by {
        lemma_tally_start(listing, cx, cy, cx + offset_x(pos), cy + offset_y(pos));
    }
}

/// What the survey counts stays small, and looking at one more cell of the
/// listing changes it as the counting rules say: a cell of age 0 and the
/// centre itself change nothing; any other cell adds one to the centre's
/// count where it is close to the centre, and to each counter whose
/// position it touches.
proof fn lemma_survey_step(
    listing: Seq<Life>,
    k: int,
    center: Life,
    close: int,
    counters: Seq<u8>,
    next_close: int,
    next_counters: Seq<u8>,
)
    requires
        0 <= k < listing.len(),
        forall|i: int, j: int|
            0 <= i < j < listing.len() ==> precedes(#[trigger] listing[i], #[trigger] listing[j]),
        surveyed(listing, k, center.x_pos as int, center.y_pos as int, close, counters),
        next_counters.len() == 8,
        ({
            let seen = listing[k];
            let skipped = (seen.x_pos == center.x_pos && seen.y_pos == center.y_pos) || seen.age
                == 0;
            &&& next_close == close + (if !skipped && center.close_to(&seen) {
                1int
            } else {
                0int
            })
            &&& forall|pos: int|
                0 <= pos < 8 ==> #[trigger] next_counters[pos] == counters[pos] + (if skipped {
                    0
                } else {
                    increment(seen.x_pos - center.x_pos, seen.y_pos - center.y_pos, pos)
                })
        }),
    ensures
        surveyed(
            listing,
            k + 1,
            center.x_pos as int,
            center.y_pos as int,
            next_close,
            next_counters,
        ),
{
    reveal(surveyed);
    let cx = center.x_pos as int;
    let cy = center.y_pos as int;
    let seen = listing[k];
    lemma_tally_step(listing, k, cx, cy, cx, cy);
    assert forall|pos: int| 0 <= pos < 8 implies #[trigger] next_counters[pos] == 1 + tally(
        listing,
        k + 1,
        cx,
        cy,
        cx + offset_x(pos),
        cy + offset_y(pos),
    ) by {
        lemma_tally_step(listing, k, cx, cy, cx + offset_x(pos), cy + offset_y(pos));
        assert(counters[pos] == 1 + tally(
            listing,
            k,
            cx,
            cy,
            cx + offset_x(pos),
            cy + offset_y(pos),
        ));
    }
}

/// No count of the survey goes beyond what eight positions can hold.
proof fn lemma_survey_bounds(
    listing: Seq<Life>,
    k: int,
    cx: int,
    cy: int,
    close: int,
    counters: Seq<u8>,
)
    requires
        0 <= k < listing.len(),
        forall|i: int, j: int|
            0 <= i < j < listing.len() ==> precedes(#[trigger] listing[i], #[trigger] listing[j]),
        surveyed(listing, k, cx, cy, close, counters),
    ensures
        0 <= close <= 8,
        forall|pos: int| 0 <= pos < 8 ==> #[trigger] counters[pos] <= 9,
{
    reveal(surveyed);
    lemma_tally_step(listing, k, cx, cy, cx, cy);
    assert forall|pos: int| 0 <= pos < 8 implies #[trigger] counters[pos] <= 9 by {
        lemma_tally_step(listing, k, cx, cy, cx + offset_x(pos), cy + offset_y(pos));
    }
}

/// Once the whole listing has been looked at, the survey holds the numbers
/// of neighbours on the plane.
proof fn lemma_survey_done(
    listing: Seq<Life>,
    cells: Cells,
    cx: int,
    cy: int,
    close: int,
    counters: Seq<u8>,
)
    requires
        lists_window(listing, cells, cx - 2, cx + 2, cy - 2, cy + 2),
        surveyed(listing, listing.len() as int, cx, cy, close, counters),
    ensures
        close == neighbor_count(cells, cx, cy),
        forall|pos: int|
            0 <= pos < 8 ==> #[trigger] counters[pos] == 1 + neighbor_count(
                cells.remove((cx, cy)),
                cx + offset_x(pos),
                cy + offset_y(pos),
            ),
{
    reveal(surveyed);
    lemma_tally_complete(listing, cells, cx, cy, cx, cy);
    assert forall|pos: int| 0 <= pos < 8 implies #[trigger] counters[pos] == 1 + neighbor_count(
        cells.remove((cx, cy)),
        cx + offset_x(pos),
        cy + offset_y(pos),
    ) by {
        lemma_tally_complete(listing, cells, cx, cy, cx + offset_x(pos), cy + offset_y(pos));
    }
}

} // verus!
