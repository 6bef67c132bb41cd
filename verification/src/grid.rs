//! The sparse store of live cells.
//!
//! Cells are kept column by column: an ordered map from x to the cells of
//! that column, itself an ordered map from y to the cell. Both levels can be
//! walked over a closed interval of keys, which is what makes a query over a
//! rectangle cost no more than the columns and cells it meets.

use std::collections::BTreeMap;
use vstd::prelude::*;
use crate::coord::{saturating_add, saturating_sub};
use crate::life::{Life, TimeBasedEntity};
use crate::rules::{aged, with_life, without_life, Cells};

verus! {

/// The live cells of the plane, and the number of generations gone by.
pub struct World {
    map: BTreeMap<i64, BTreeMap<i64, Life>>,
    age: u32,
}

/// Whether `(x, y)` is a position that can be stored.
pub open spec fn on_plane(x: int, y: int) -> bool {
    i64::MIN <= x <= i64::MAX && i64::MIN <= y <= i64::MAX
}

/// Whether `first` comes before `second` when cells are listed by ascending
/// x and, within one x, by ascending y.
pub open spec fn precedes(first: Life, second: Life) -> bool {
    first.x_pos < second.x_pos || (first.x_pos == second.x_pos && first.y_pos < second.y_pos)
}

/// Whether `listing` holds the cells of `cells` that lie in the closed
/// rectangle from `x_min` to `x_max` and from `y_min` to `y_max`: each of
/// them once, with its age, by ascending x and then ascending y, and nothing
/// else.
pub open spec fn lists_window(
    listing: Seq<Life>,
    cells: Cells,
    x_min: int,
    x_max: int,
    y_min: int,
    y_max: int,
) -> bool {
    &&& forall|i: int, j: int|
        0 <= i < j < listing.len() ==> precedes(#[trigger] listing[i], #[trigger] listing[j])
    &&& forall|i: int|
        0 <= i < listing.len() ==> {
            let cell = #[trigger] listing[i];
            &&& x_min <= cell.x_pos <= x_max
            &&& y_min <= cell.y_pos <= y_max
            &&& cells.contains_key((cell.x_pos as int, cell.y_pos as int))
            &&& cells[(cell.x_pos as int, cell.y_pos as int)] == cell.age
        }
    &&& forall|x: int, y: int|
        x_min <= x <= x_max && y_min <= y <= y_max && #[trigger] cells.contains_key((x, y))
            ==> exists|i: int|
            0 <= i < listing.len() && (#[trigger] listing[i]).x_pos == x && listing[i].y_pos == y
}

/// Whether `listing` holds the positions of all cells of `cells`, each of
/// them once, by ascending x and then ascending y, and nothing else.
pub open spec fn lists_positions(listing: Seq<(i64, i64)>, cells: Cells) -> bool {
    &&& forall|i: int, j: int|
        0 <= i < j < listing.len() ==> {
            let first = #[trigger] listing[i];
            let second = #[trigger] listing[j];
            first.0 < second.0 || (first.0 == second.0 && first.1 < second.1)
        }
    &&& forall|i: int|
        0 <= i < listing.len() ==> cells.contains_key(
            ((#[trigger] listing[i]).0 as int, listing[i].1 as int),
        )
    &&& forall|x: int, y: int| #[trigger]
        cells.contains_key((x, y)) ==> exists|i: int|
            0 <= i < listing.len() && #[trigger] listing[i] == (x as i64, y as i64)
}

/// Whether `entries` holds the entries of `map` whose keys lie between `low`
/// and `high`, both included: each of them once, by ascending key, and
/// nothing else.
spec fn lists_range<V>(
    entries: Seq<(&i64, &V)>,
    map: Map<i64, V>,
    low: int,
    high: int,
) -> bool {
    &&& forall|i: int, j: int|
        0 <= i < j < entries.len() ==> *(#[trigger] entries[i]).0 < *(#[trigger] entries[j]).0
    &&& forall|i: int|
        0 <= i < entries.len() ==> {
            let entry = #[trigger] entries[i];
            &&& low <= *entry.0 <= high
            &&& map.contains_key(*entry.0)
            &&& map[*entry.0] == *entry.1
        }
    &&& forall|key: i64|
        low <= key <= high && #[trigger] map.contains_key(key) ==> exists|i: int|
            0 <= i < entries.len() && *(#[trigger] entries[i]).0 == key
}

/// Whether `key` lies before every entry of `entries` from `index` on, the
/// entries being in ascending order.
spec fn ahead<V>(entries: Seq<(&i64, &V)>, index: int, key: i64) -> bool {
    index < entries.len() ==> key < *entries[index].0
}

/// The entries of `map` whose keys lie between `low` and `high`, both
/// included, in ascending order of their keys.
///
/// This is `BTreeMap::range` of the standard library, called with two
/// included bounds. Its documentation promises an iterator over the entries
/// of that sub-range, and the map's that its iterators go by ascending key.
/// It panics where the lower bound is above the upper one, which the
/// precondition leaves out.
#[verifier::external_body]
fn entries_within<'a, V>(map: &'a BTreeMap<i64, V>, low: i64, high: i64) -> (entries: Vec<
    (&'a i64, &'a V),
>)
    requires
        low <= high,
    ensures
        lists_range(entries@, map@, low as int, high as int),
{
    map.range((std::ops::Bound::Included(low), std::ops::Bound::Included(high))).collect()
}

impl View for World {
    type V = Cells;

    /// The age of the cell at each occupied position.
    closed spec fn view(&self) -> Cells {
        Map::new(
            |p: (int, int)| on_plane(p.0, p.1) && self.stored(p.0 as i64, p.1 as i64),
            |p: (int, int)| self.cell(p.0 as i64, p.1 as i64).age as nat,
        )
    }
}

impl World {
    spec fn stored(&self, x: i64, y: i64) -> bool {
        self.map@.contains_key(x) && self.map@[x]@.contains_key(y)
    }

    spec fn cell(&self, x: i64, y: i64) -> Life {
        self.map@[x]@[y]
    }

    /// Every cell is filed under its own coordinates.
    #[verifier::type_invariant]
    spec fn well_formed(&self) -> bool {
        forall|x: i64, y: i64|
            self.map@.contains_key(x) && #[trigger] self.map@[x]@.contains_key(y)
                ==> self.map@[x]@[y].x_pos == x && self.map@[x]@[y].y_pos == y
    }

    /// The number of generations gone by.
    pub closed spec fn spec_age(&self) -> u32 {
        self.age
    }

    /// Whether every cell can still grow one generation older.
    pub open spec fn can_age(&self) -> bool {
        forall|p: (int, int)| #[trigger] self@.contains_key(p) ==> self@[p] < u32::MAX
    }

    /// Every cell stands at a position that can be stored and has an age
    /// that can be stored.
    pub proof fn lemma_cells_bounded(&self)
        ensures
            forall|p: (int, int)| #[trigger]
                self@.contains_key(p) ==> on_plane(p.0, p.1) && self@[p] <= u32::MAX,
    {
    }

    /// The plane holds finitely many cells.
    pub proof fn lemma_cells_finite(&self)
        ensures
            self@.dom().finite(),
    {
        let place = |x: i64| (|y: i64| (x as int, y as int));
        let column = |x: i64| self.map@[x]@.dom().map(place(x));
        let columns = self.map@.dom().map(column);
        self.map@.dom().lemma_map_finite(column);
        assert forall|positions: Set<(int, int)>| columns.contains(positions) implies (
        #[trigger] positions.finite()) by {
            let x = choose|x: i64| self.map@.dom().contains(x) && column(x) == positions;
            self.map@[x]@.dom().lemma_map_finite(place(x));
        }
        columns.lemma_flatten_finite();
        assert forall|p: (int, int)| self@.dom().contains(p) implies columns.flatten().contains(
            p,
        ) by {
            let x = p.0 as i64;
            let y = p.1 as i64;
            assert(self.map@.dom().contains(x));
            assert(columns.contains(column(x)));
            assert(self.map@[x]@.dom().contains(y));
            assert(place(x)(y) == p);
            assert(column(x).contains(p));
        }
        vstd::set_lib::lemma_set_subset_finite(columns.flatten(), self@.dom());
    }

    /// An empty plane, before the first generation.
    pub fn new() -> (world: World)
        ensures
            world@ == Map::<(int, int), nat>::empty(),
            world.spec_age() == 0,
    {
        let world = World { map: BTreeMap::new(), age: 0 };
        assert(world@ =~= Map::<(int, int), nat>::empty());
        world
    }

    /// The number of generations gone by.
    #[verifier::when_used_as_spec(spec_age)]
    pub fn age(&self) -> (age: u32)
        ensures
            age == self.spec_age(),
    {
        self.age
    }

    /// Counts one more generation. The cells stay as they are.
    pub(crate) fn count_generation(&mut self)
        requires
            old(self).spec_age() < u32::MAX,
        ensures
            final(self)@ == old(self)@,
            final(self).spec_age() == old(self).spec_age() + 1,
    {
        proof {
            use_type_invariant(&*self);
        }
        self.age += 1;
    }

    /// Puts `life` on the plane unless its position is taken: the cell that
    /// came first stays as it is.
    pub fn add_life(&mut self, life: Life)
        ensures
            final(self)@ == with_life(
                old(self)@,
                life.x_pos as int,
                life.y_pos as int,
                life.age as nat,
            ),
            final(self).spec_age() == old(self).spec_age(),
    {
        proof {
            use_type_invariant(&*self);
        }
        let mut x_map: BTreeMap<i64, BTreeMap<i64, Life>> = BTreeMap::new();
        std::mem::swap(&mut self.map, &mut x_map);
        match x_map.remove(&life.x_pos) {
            Some(mut y_map) => {
                if !y_map.contains_key(&life.y_pos) {
                    y_map.insert(life.y_pos, life);
                }
                x_map.insert(life.x_pos, y_map);
            },
            None => {
                let mut y_map: BTreeMap<i64, Life> = BTreeMap::new();
                y_map.insert(life.y_pos, life);
                x_map.insert(life.x_pos, y_map);
            },
        }
        proof {
            assert forall|x: i64, y: i64|
                x_map@.contains_key(x) && #[trigger] x_map@[x]@.contains_key(y) implies x_map@[x]@[y].x_pos
                == x && x_map@[x]@[y].y_pos == y by {
                if x != life.x_pos || y != life.y_pos {
                    assert(old(self).stored(x, y));
                }
            }
        }
        self.map = x_map;
        assert(self@ =~= with_life(
            old(self)@,
            life.x_pos as int,
            life.y_pos as int,
            life.age as nat,
        ));
    }

    /// Takes the cell at the position of `life` off the plane, if there is
    /// one. Only the position of `life` is looked at.
    pub fn remove_life(&mut self, life: &Life)
        ensures
            final(self)@ == without_life(old(self)@, life.x_pos as int, life.y_pos as int),
            final(self).spec_age() == old(self).spec_age(),
    {
        proof {
            use_type_invariant(&*self);
        }
        let mut x_map: BTreeMap<i64, BTreeMap<i64, Life>> = BTreeMap::new();
        std::mem::swap(&mut self.map, &mut x_map);
        match x_map.remove(&life.x_pos) {
            Some(mut y_map) => {
                if y_map.contains_key(&life.y_pos) {
                    y_map.remove(&life.y_pos);
                }
                x_map.insert(life.x_pos, y_map);
            },
            None => {},
        }
        proof {
            assert forall|x: i64, y: i64|
                x_map@.contains_key(x) && #[trigger] x_map@[x]@.contains_key(y) implies x_map@[x]@[y].x_pos
                == x && x_map@[x]@[y].y_pos == y by {
                assert(old(self).stored(x, y));
            }
        }
        self.map = x_map;
        assert(self@ =~= without_life(old(self)@, life.x_pos as int, life.y_pos as int));
    }

    /// The cells in the closed rectangle that spans from `start_x` to `end_x`
    /// and from `end_y` up to `start_y`, by ascending x and then ascending y.
    /// The first corner is the upper left one, the second the lower right
    /// one; where they are the other way round, the rectangle is empty.
    pub fn spatial_query(&self, start_x: i64, start_y: i64, end_x: i64, end_y: i64) -> (results:
        Vec<Life>)
        ensures
            lists_window(
                results@,
                self@,
                start_x as int,
                end_x as int,
                end_y as int,
                start_y as int,
            ),
    {
        proof {
            use_type_invariant(self);
        }
        let mut results: Vec<Life> = Vec::new();
        if start_x > end_x || end_y > start_y {
            return results;
        }
        let x_range = entries_within(&self.map, start_x, end_x);
        let mut column: usize = 0;
        while column < x_range.len()
            invariant
                self.well_formed(),
                start_x <= end_x,
                end_y <= start_y,
                column <= x_range.len(),
                lists_range(x_range@, self.map@, start_x as int, end_x as int),
                forall|i: int, j: int|
                    0 <= i < j < results@.len() ==> precedes(
                        #[trigger] results@[i],
                        #[trigger] results@[j],
                    ),
                forall|i: int|
                    0 <= i < results@.len() ==> {
                        let cell = #[trigger] results@[i];
                        &&& start_x <= cell.x_pos <= end_x
                        &&& end_y <= cell.y_pos <= start_y
                        &&& self.stored(cell.x_pos, cell.y_pos)
                        &&& self.cell(cell.x_pos, cell.y_pos) == cell
                        &&& ahead(x_range@, column as int, cell.x_pos)
                    },
                forall|x: i64, y: i64|
                    start_x <= x <= end_x && end_y <= y <= start_y && #[trigger] self.stored(x, y)
                        && ahead(x_range@, column as int, x) ==> exists|i: int|
                        0 <= i < results@.len() && (#[trigger] results@[i]).x_pos == x
                            && results@[i].y_pos == y,
            decreases x_range.len() - column,
        {
            let x_key: i64 = *x_range[column].0;
            let y_map = x_range[column].1;
            let y_range = entries_within(y_map, end_y, start_y);
            let ghost before = results@;
            let mut row: usize = 0;
            while row < y_range.len()
                invariant
                    self.well_formed(),
                    column < x_range.len(),
                    x_key == *x_range@[column as int].0,
                    start_x <= x_key <= end_x,
                    self.map@.contains_key(x_key),
                    self.map@[x_key] == *y_map,
                    row <= y_range.len(),
                    lists_range(y_range@, y_map@, end_y as int, start_y as int),
                    before.len() <= results@.len(),
                    forall|i: int| 0 <= i < before.len() ==> #[trigger] results@[i] == before[i],
                    forall|i: int|
                        0 <= i < before.len() ==> (#[trigger] results@[i]).x_pos < x_key,
                    forall|i: int, j: int|
                        0 <= i < j < results@.len() ==> precedes(
                            #[trigger] results@[i],
                            #[trigger] results@[j],
                        ),
                    forall|i: int|
                        before.len() <= i < results@.len() ==> {
                            let cell = #[trigger] results@[i];
                            &&& cell.x_pos == x_key
                            &&& end_y <= cell.y_pos <= start_y
                            &&& self.stored(cell.x_pos, cell.y_pos)
                            &&& self.cell(cell.x_pos, cell.y_pos) == cell
                            &&& ahead(y_range@, row as int, cell.y_pos)
                        },
                    forall|y: i64|
                        end_y <= y <= start_y && #[trigger] y_map@.contains_key(y) && ahead(
                            y_range@,
                            row as int,
                            y,
                        ) ==> exists|i: int|
                            before.len() <= i < results@.len() && (#[trigger] results@[i]).x_pos
                                == x_key && results@[i].y_pos == y,
                decreases y_range.len() - row,
            {
                let life: Life = *y_range[row].1;
                assert(self.stored(x_key, *y_range@[row as int].0));
                let ghost listed = results@;
                results.push(life);
                proof {
                    assert forall|y: i64|
                        end_y <= y <= start_y && #[trigger] y_map@.contains_key(y) && ahead(
                            y_range@,
                            row + 1,
                            y,
                        ) implies exists|i: int|
                        before.len() <= i < results@.len() && (#[trigger] results@[i]).x_pos
                            == x_key && results@[i].y_pos == y by {
                        if y < *y_range@[row as int].0 {
                            let i = choose|i: int|
                                before.len() <= i < listed.len() && (#[trigger] listed[i]).x_pos
                                    == x_key && listed[i].y_pos == y;
                            assert(results@[i] == listed[i]);
                        } else {
                            let k = choose|k: int|
                                0 <= k < y_range@.len() && *(#[trigger] y_range@[k]).0 == y;
                            assert(k == row);
                            assert(results@[listed.len() as int] == life);
                        }
                    }
                }
                row += 1;
            }
            proof {
                assert forall|x: i64, y: i64|
                    start_x <= x <= end_x && end_y <= y <= start_y && #[trigger] self.stored(x, y)
                        && ahead(x_range@, column + 1, x) implies exists|i: int|
                    0 <= i < results@.len() && (#[trigger] results@[i]).x_pos == x
                        && results@[i].y_pos == y by {
                    if x < x_key {
                        let i = choose|i: int|
                            0 <= i < before.len() && (#[trigger] before[i]).x_pos == x
                                && before[i].y_pos == y;
                        assert(results@[i] == before[i]);
                    } else {
                        let k = choose|k: int|
                            0 <= k < x_range@.len() && *(#[trigger] x_range@[k]).0 == x;
                        assert(k == column);
                    }
                }
            }
            column += 1;
        }
        proof {
            assert forall|x: int, y: int|
                start_x <= x <= end_x && end_y <= y <= start_y && #[trigger] self@.contains_key(
                    (x, y),
                ) implies exists|i: int|
                0 <= i < results@.len() && (#[trigger] results@[i]).x_pos == x
                    && results@[i].y_pos == y by {
                assert(self.stored(x as i64, y as i64));
            }
        }
        results
    }

    /// The cells at most two steps away from `(x, y)` in each direction, the
    /// one at `(x, y)` among them, by ascending x and then ascending y.
    pub fn query_around_point(&self, x: i64, y: i64) -> (results: Vec<Life>)
        ensures
            lists_window(results@, self@, x - 2, x + 2, y - 2, y + 2),
    {
        let results = self.spatial_query(
            saturating_sub(x, 2),
            saturating_add(y, 2),
            saturating_add(x, 2),
            saturating_sub(y, 2),
        );
        proof {
            self.lemma_cells_bounded();
        }
        results
    }

    /// The positions of all cells, by ascending x and then ascending y.
    pub fn enumerate_live_cells(&self) -> (positions: Vec<(i64, i64)>)
        ensures
            lists_positions(positions@, self@),
    {
        let cells = self.spatial_query(i64::MIN, i64::MAX, i64::MAX, i64::MIN);
        let mut positions: Vec<(i64, i64)> = Vec::new();
        let mut index: usize = 0;
        while index < cells.len()
            invariant
                index <= cells.len(),
                positions@.len() == index,
                forall|i: int|
                    0 <= i < index ==> #[trigger] positions@[i] == (
                        cells@[i].x_pos,
                        cells@[i].y_pos,
                    ),
            decreases cells.len() - index,
        {
            positions.push((cells[index].x_pos, cells[index].y_pos));
            index += 1;
        }
        proof {
            self.lemma_cells_bounded();
            assert forall|x: int, y: int| #[trigger] self@.contains_key((x, y)) implies exists|
                i: int,
            |
                0 <= i < positions@.len() && #[trigger] positions@[i] == (x as i64, y as i64) by {
                let i = choose|i: int|
                    0 <= i < cells@.len() && (#[trigger] cells@[i]).x_pos == x && cells@[i].y_pos
                        == y;
                assert(positions@[i] == (x as i64, y as i64));
            }
            assert forall|i: int, j: int| 0 <= i < j < positions@.len() implies {
                let first = #[trigger] positions@[i];
                let second = #[trigger] positions@[j];
                first.0 < second.0 || (first.0 == second.0 && first.1 < second.1)
            } by {
                assert(precedes(cells@[i], cells@[j]));
            }
        }
        positions
    }

    /// Ages every cell by one generation. To be called once when the first
    /// cells are in place, so that the first generation finds them taking
    /// part in the rules.
    pub fn initialize(&mut self)
        requires
            old(self).can_age(),
        ensures
            final(self)@ == aged(old(self)@),
            final(self).spec_age() == old(self).spec_age(),
    {
        proof {
            use_type_invariant(&*self);
        }
        let x_range = entries_within(&self.map, i64::MIN, i64::MAX);
        let mut x_map: BTreeMap<i64, BTreeMap<i64, Life>> = BTreeMap::new();
        let mut column: usize = 0;
        while column < x_range.len()
            invariant
                self.well_formed(),
                self.can_age(),
                column <= x_range.len(),
                lists_range(x_range@, self.map@, i64::MIN as int, i64::MAX as int),
                forall|x: i64| #[trigger]
                    x_map@.contains_key(x) <==> self.map@.contains_key(x) && ahead(
                        x_range@,
                        column as int,
                        x,
                    ),
                forall|x: i64, y: i64|
                    x_map@.contains_key(x) ==> (#[trigger] x_map@[x]@.contains_key(y)
                        <==> self.map@[x]@.contains_key(y)),
                forall|x: i64, y: i64|
                    x_map@.contains_key(x) && #[trigger] x_map@[x]@.contains_key(y) ==> x_map@[x]@[y]
                        == (Life { age: (self.map@[x]@[y].age + 1) as u32, ..self.map@[x]@[y] }),
            decreases x_range.len() - column,
        {
            let x_key: i64 = *x_range[column].0;
            let y_range = entries_within(x_range[column].1, i64::MIN, i64::MAX);
            let ghost old_y_map = self.map@[x_key]@;
            let mut y_map: BTreeMap<i64, Life> = BTreeMap::new();
            let mut row: usize = 0;
            while row < y_range.len()
                invariant
                    self.well_formed(),
                    self.can_age(),
                    self.map@.contains_key(x_key),
                    old_y_map == self.map@[x_key]@,
                    row <= y_range.len(),
                    lists_range(y_range@, old_y_map, i64::MIN as int, i64::MAX as int),
                    forall|y: i64| #[trigger]
                        y_map@.contains_key(y) <==> old_y_map.contains_key(y) && ahead(
                            y_range@,
                            row as int,
                            y,
                        ),
                    forall|y: i64| #[trigger]
                        y_map@.contains_key(y) ==> y_map@[y] == (Life {
                            age: (old_y_map[y].age + 1) as u32,
                            ..old_y_map[y]
                        }),
                decreases y_range.len() - row,
            {
                let y_key: i64 = *y_range[row].0;
                let mut life: Life = *y_range[row].1;
                proof {
                    assert(self.stored(x_key, y_key));
                    assert(self@.contains_key((x_key as int, y_key as int)));
                }
                life.tick();
                y_map.insert(y_key, life);
                proof {
                    assert forall|y: i64| #[trigger]
                        old_y_map.contains_key(y) && ahead(y_range@, row + 1, y)
                        implies y_map@.contains_key(y) by {
                        let k = choose|k: int|
                            0 <= k < y_range@.len() && *(#[trigger] y_range@[k]).0 == y;
                        assert(k <= row);
                    }
                }
                row += 1;
            }
            x_map.insert(x_key, y_map);
            proof {
                assert forall|x: i64| #[trigger]
                    self.map@.contains_key(x) && ahead(x_range@, column + 1, x)
                    implies x_map@.contains_key(x) by {
                    let k = choose|k: int|
                        0 <= k < x_range@.len() && *(#[trigger] x_range@[k]).0 == x;
                    assert(k <= column);
                }
            }
            column += 1;
        }
        proof {
            assert forall|x: i64, y: i64|
                x_map@.contains_key(x) && #[trigger] x_map@[x]@.contains_key(y) implies x_map@[x]@[y].x_pos
                == x && x_map@[x]@[y].y_pos == y by {
                assert(self.stored(x, y));
            }
        }
        self.map = x_map;
        proof {
            assert forall|p: (int, int)| #[trigger]
                aged(old(self)@).contains_key(p) implies self@.contains_key(p) && self@[p] == aged(
                old(self)@,
            )[p] by {
                assert(old(self).stored(p.0 as i64, p.1 as i64));
            }
            assert(self@ =~= aged(old(self)@));
        }
    }
}

} // verus!
