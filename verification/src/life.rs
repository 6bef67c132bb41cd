//! A single live cell.

use vstd::prelude::*;
use crate::coord::{saturating_add, saturating_sub};
use crate::rules::{clamp, offset_x, offset_y};

verus! {

/// A live cell: a position on the plane and the number of generations
/// the cell has lived through since it was created.
#[derive(Debug, Clone, Copy, PartialEq, Eq, Structural)]
pub struct Life {
    pub x_pos: i64,
    pub y_pos: i64,
    pub age: u32,
}

impl Life {
    /// A cell at `(x_pos, y_pos)` that has just been created.
    pub fn new(x_pos: i64, y_pos: i64) -> (life: Life)
        ensures
            life == (Life { x_pos, y_pos, age: 0 }),
    {
        Life { x_pos, y_pos, age: 0 }
    }

    /// Whether `neighbor` stands at most one step away from this cell in each
    /// direction. A cell is close to itself.
    pub open spec fn close_to(&self, neighbor: &Life) -> bool {
        &&& -1 <= neighbor.x_pos - self.x_pos <= 1
        &&& -1 <= neighbor.y_pos - self.y_pos <= 1
    }

    /// Decides `close_to` for any two cells, however far apart.
    pub fn is_close_neighbor(&self, neighbor: &Life) -> (close: bool)
        ensures
            close == self.close_to(neighbor),
    {
        match (neighbor.x_pos.checked_sub(self.x_pos), neighbor.y_pos.checked_sub(self.y_pos)) {
            (Some(dist_x), Some(dist_y)) => dist_x >= -1 && dist_x <= 1 && dist_y >= -1 && dist_y
                <= 1,
            _ => false,
        }
    }

    /// The position around this cell numbered `pos`, brought into range at
    /// the edges of the plane; `None` for a number that names no position.
    pub fn calculate_neighbor_coordinates(&self, pos: u8) -> (coordinates: Option<(i64, i64)>)
        ensures
            pos < 8 ==> coordinates == Some(
                (
                    clamp(self.x_pos + offset_x(pos as int)) as i64,
                    clamp(self.y_pos + offset_y(pos as int)) as i64,
                ),
            ),
            pos >= 8 ==> coordinates.is_none(),
    {
        match pos {
            0 => Some((saturating_sub(self.x_pos, 1), saturating_add(self.y_pos, 1))),
            1 => Some((self.x_pos, saturating_add(self.y_pos, 1))),
            2 => Some((saturating_add(self.x_pos, 1), saturating_add(self.y_pos, 1))),
            3 => Some((saturating_sub(self.x_pos, 1), self.y_pos)),
            4 => Some((saturating_add(self.x_pos, 1), self.y_pos)),
            5 => Some((saturating_sub(self.x_pos, 1), saturating_sub(self.y_pos, 1))),
            6 => Some((self.x_pos, saturating_sub(self.y_pos, 1))),
            7 => Some((saturating_add(self.x_pos, 1), saturating_sub(self.y_pos, 1))),
            _ => None,
        }
    }
}

/// What lives through time, one generation after the other.
pub trait TimeBasedEntity: Sized {
    /// Whether one more generation can go by.
    spec fn can_tick(&self) -> bool;

    /// Whether `after` is what this is once one generation has gone by.
    spec fn ticked(&self, after: &Self) -> bool;

    /// Lets one generation go by.
    fn tick(&mut self)
        requires
            old(self).can_tick(),
        ensures
            old(self).ticked(final(self)),
    ;
}

impl TimeBasedEntity for Life {
    /// A cell can age as long as its age can be stored.
    open spec fn can_tick(&self) -> bool {
        self.age < u32::MAX
    }

    /// The cell stays where it is and is one generation older.
    open spec fn ticked(&self, after: &Self) -> bool {
        *after == (Life { age: (self.age + 1) as u32, ..*self })
    }

    fn tick(&mut self) {
        self.age += 1;
    }
}

} // verus!
