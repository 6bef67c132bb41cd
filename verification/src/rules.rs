//! The rules of the game, stated over a mathematical model of the plane.
//!
//! A generation is a finite map from positions to ages. A cell of age 0 has
//! just been created: it is stored, but it does not yet take part in the
//! rules. Neither can it die, nor does it count as a neighbour of anything.

use vstd::prelude::*;

verus! {

/// One generation: the age of the cell at each occupied position.
pub type Cells = Map<(int, int), nat>;

/// `v` brought into the range of coordinates that can be stored.
pub open spec fn clamp(v: int) -> int {
    if v < i64::MIN {
        i64::MIN as int
    } else if v > i64::MAX {
        i64::MAX as int
    } else {
        v
    }
}

/// Horizontal step from a cell to the position around it numbered `pos`.
/// The eight positions are numbered row by row, from the row above, each row
/// from left to right: 0, 1, 2 above, 3 and 4 beside, 5, 6, 7 below.
pub open spec fn offset_x(pos: int) -> int {
    if pos == 0 || pos == 3 || pos == 5 {
        -1
    } else if pos == 1 || pos == 6 {
        0
    } else {
        1
    }
}

/// Vertical step from a cell to the position around it numbered `pos`.
pub open spec fn offset_y(pos: int) -> int {
    if pos <= 2 {
        1
    } else if pos <= 4 {
        0
    } else {
        -1
    }
}

/// Whether `(ex, ey)` is a step from a position to one of the eight around it.
pub open spec fn adjacent(ex: int, ey: int) -> bool {
    -1 <= ex <= 1 && -1 <= ey <= 1 && (ex != 0 || ey != 0)
}

/// Whether a cell that takes part in the rules stands at `(x, y)`.
pub open spec fn mature(cells: Cells, x: int, y: int) -> bool {
    cells.contains_key((x, y)) && cells[(x, y)] >= 1
}

/// 1 where a cell that takes part in the rules stands at `(x, y)`, else 0.
pub open spec fn counted(cells: Cells, x: int, y: int) -> nat {
    if mature(cells, x, y) {
        1
    } else {
        0
    }
}

/// How many of the eight positions around `(x, y)` hold a cell that takes
/// part in the rules. `(x, y)` need not be a position that can be stored.
pub open spec fn neighbor_count(cells: Cells, x: int, y: int) -> nat {
    counted(cells, x - 1, y + 1) + counted(cells, x, y + 1) + counted(cells, x + 1, y + 1)
        + counted(cells, x - 1, y) + counted(cells, x + 1, y)
        + counted(cells, x - 1, y - 1) + counted(cells, x, y - 1) + counted(cells, x + 1, y - 1)
}

/// Whether the cell at `(x, y)` is removed by the next generation: it takes
/// part in the rules and has neither two nor three neighbours.
pub open spec fn dies(cells: Cells, x: int, y: int) -> bool {
    mature(cells, x, y) && neighbor_count(cells, x, y) != 2 && neighbor_count(cells, x, y) != 3
}

/// Whether the cell at `(cx, cy)` proposes a birth at `(x, y)` through the
/// position around it numbered `pos`: that position has exactly three
/// neighbours, and `(x, y)` is where it lies once brought into range.
pub open spec fn nominates(cells: Cells, cx: int, cy: int, pos: int, x: int, y: int) -> bool {
    &&& 0 <= pos < 8
    &&& mature(cells, cx, cy)
    &&& neighbor_count(cells, cx + offset_x(pos), cy + offset_y(pos)) == 3
    &&& x == clamp(cx + offset_x(pos))
    &&& y == clamp(cy + offset_y(pos))
}

/// Whether some cell proposes a birth at `(x, y)`.
pub open spec fn nominated(cells: Cells, x: int, y: int) -> bool {
    exists|cx: int, cy: int, pos: int| nominates(cells, cx, cy, pos, x, y)
}

/// Whether the cell at `p` is kept by the next generation.
pub open spec fn stays(cells: Cells, p: (int, int)) -> bool {
    cells.contains_key(p) && !dies(cells, p.0, p.1)
}

/// `cells` with a cell of the given age at `(x, y)`, unless one stands there.
pub open spec fn with_life(cells: Cells, x: int, y: int, age: nat) -> Cells {
    if cells.contains_key((x, y)) {
        cells
    } else {
        cells.insert((x, y), age)
    }
}

/// `cells` once a cell of age 0 has been put at each position of `places`
/// in turn, unless a cell stood there.
pub open spec fn with_newborns(cells: Cells, places: Seq<(i64, i64)>) -> Cells
    decreases places.len(),
{
    if places.len() == 0 {
        cells
    } else {
        with_life(
            with_newborns(cells, places.drop_last()),
            places.last().0 as int,
            places.last().1 as int,
            0,
        )
    }
}

/// `cells` without the cell at `(x, y)`, if there is one.
pub open spec fn without_life(cells: Cells, x: int, y: int) -> Cells {
    cells.remove((x, y))
}

/// Every cell one generation older.
pub open spec fn aged(cells: Cells) -> Cells {
    Map::new(|p: (int, int)| cells.contains_key(p), |p: (int, int)| cells[p] + 1)
}

/// The generation that follows `cells`. The cells that take part and have two
/// or three neighbours stay, and so do those of age 0; a new cell appears at
/// every free position that some cell proposes; then all of them age by one.
pub open spec fn next_generation(cells: Cells) -> Cells {
    Map::new(
        |p: (int, int)| stays(cells, p) || nominated(cells, p.0, p.1),
        |p: (int, int)|
            if stays(cells, p) {
                cells[p] + 1
            } else {
                1
            },
    )
}

/// The generation reached from `cells` after `steps` more.
pub open spec fn generation_after(cells: Cells, steps: nat) -> Cells
    decreases steps,
{
    if steps == 0 {
        cells
    } else {
        next_generation(generation_after(cells, (steps - 1) as nat))
    }
}

} // verus!
