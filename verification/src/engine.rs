//! One generation: the survey of every cell, the deaths and births it
//! decides, and the ageing of what is left.

use std::collections::BTreeSet;
use vstd::prelude::*;
use crate::grid::{lists_window, on_plane, World};
use crate::life::{Life, TimeBasedEntity};
use crate::rules::{
    dies, generation_after, mature, neighbor_count, next_generation, nominated, nominates,
    offset_x, offset_y, with_life, with_newborns, without_life, Cells,
};

verus! {

impl World {
    /// Surveys every cell that takes part in the rules and collects what the
    /// generation decides: the cells that die, and the positions proposed for
    /// a birth.
    fn decide(&self) -> (decided: (Vec<Life>, BTreeSet<(i64, i64)>))
        ensures
            forall|x: int, y: int| marked(decided.0@, x, y) <==> dies(self@, x, y),
            forall|x: int, y: int| chosen(decided.1@, x, y) <==> nominated(self@, x, y),
    {
        let ghost cells = self@;
        let mut kill_vec: Vec<Life> = Vec::new();
        let mut new_life_set: BTreeSet<(i64, i64)> = BTreeSet::new();

        let lives = self.spatial_query(i64::MIN, i64::MAX, i64::MAX, i64::MIN);
        let mut index: usize = 0;
        while index < lives.len()
            invariant
                self@ == cells,
                index <= lives.len(),
                lists_window(
                    lives@,
                    cells,
                    i64::MIN as int,
                    i64::MAX as int,
                    i64::MIN as int,
                    i64::MAX as int,
                ),
                forall|x: int, y: int| marked(kill_vec@, x, y) ==> dies(cells, x, y),
                forall|i: int|
                    0 <= i < index && dies(
                        cells,
                        (#[trigger] lives@[i]).x_pos as int,
                        lives@[i].y_pos as int,
                    ) ==> marked(kill_vec@, lives@[i].x_pos as int, lives@[i].y_pos as int),
                forall|x: int, y: int| chosen(new_life_set@, x, y) ==> nominated(cells, x, y),
                forall|i: int, pos: int, x: int, y: int|
                    0 <= i < index && #[trigger] nominates(
                        cells,
                        (#[trigger] lives@[i]).x_pos as int,
                        lives@[i].y_pos as int,
                        pos,
                        x,
                        y,
                    ) ==> chosen(new_life_set@, x, y),
            decreases lives.len() - index,
        {
            let life: Life = lives[index];
            // Skip newborns
            if life.age != 0 {
                let found = self.survey(&life);
                proof {
                    lemma_centre_counts(cells, life.x_pos as int, life.y_pos as int);
                }
                let ghost collected = new_life_set@;
                let mut pos: u8 = 0;
                while pos < 8
                    invariant
                        pos <= 8,
                        mature(cells, life.x_pos as int, life.y_pos as int),
                        forall|q: int|
                            0 <= q < 8 ==> #[trigger] found.new_life_counters[q] == neighbor_count(
                                cells,
                                life.x_pos + offset_x(q),
                                life.y_pos + offset_y(q),
                            ),
                        forall|x: int, y: int|
                            chosen(new_life_set@, x, y) ==> nominated(cells, x, y),
                        forall|x: int, y: int|
                            chosen(collected, x, y) ==> chosen(new_life_set@, x, y),
                        forall|q: int, x: int, y: int|
                            0 <= q < pos && #[trigger] nominates(
                                cells,
                                life.x_pos as int,
                                life.y_pos as int,
                                q,
                                x,
                                y,
                            ) ==> chosen(new_life_set@, x, y),
                    decreases 8 - pos,
                {
                    if found.new_life_counters[pos as usize] == 3 {
                        match life.calculate_neighbor_coordinates(pos) {
                            Some(coords) => {
                                proof {
                                    assert(nominates(
                                        cells,
                                        life.x_pos as int,
                                        life.y_pos as int,
                                        pos as int,
                                        coords.0 as int,
                                        coords.1 as int,
                                    ));
                                }
                                new_life_set.insert(coords);
                            },
                            None => {},
                        }
                    }
                    pos += 1;
                }

                if !(found.close_neighbor_count == 2 || found.close_neighbor_count == 3) {
                    proof {
                        lemma_marked_push(kill_vec@, life);
                    }
                    kill_vec.push(life);
                }
            }
            index += 1;
        }

        proof {
            self.lemma_cells_bounded();
            assert forall|x: int, y: int| dies(cells, x, y) implies marked(kill_vec@, x, y) by {
                let i = choose|i: int|
                    0 <= i < lives@.len() && (#[trigger] lives@[i]).x_pos == x && lives@[i].y_pos
                        == y;
            }
            assert forall|x: int, y: int| nominated(cells, x, y) implies chosen(
                new_life_set@,
                x,
                y,
            ) by {
                let (cx, cy, pos) = choose|cx: int, cy: int, pos: int|
                    nominates(cells, cx, cy, pos, x, y);
                let i = choose|i: int|
                    0 <= i < lives@.len() && (#[trigger] lives@[i]).x_pos == cx && lives@[i].y_pos
                        == cy;
                assert(nominates(cells, lives@[i].x_pos as int, lives@[i].y_pos as int, pos, x, y));
            }
        }
        (kill_vec, new_life_set)
    }

    /// Takes the cells at the positions of `kills` off the plane.
    fn remove_lives(&mut self, kills: &Vec<Life>)
        ensures
            final(self)@ == without_all(old(self)@, kills@),
            final(self).spec_age() == old(self).spec_age(),
    {
        let mut index: usize = 0;
        while index < kills.len()
            invariant
                index <= kills.len(),
                self@ == without_all(old(self)@, kills@.take(index as int)),
                self.spec_age() == old(self).spec_age(),
            decreases kills.len() - index,
        {
            proof {
                assert(kills@.take(index + 1).drop_last() == kills@.take(index as int));
            }
            self.remove_life(&kills[index]);
            index += 1;
        }
        proof {
            assert(kills@.take(kills@.len() as int) == kills@);
        }
    }

    /// Puts a cell of age 0 at each position of `births` that is free.
    fn add_lives(&mut self, births: &BTreeSet<(i64, i64)>)
        ensures
            final(self)@ == with_births(old(self)@, births@),
            final(self).spec_age() == old(self).spec_age(),
    {
        let ghost done: Seq<(i64, i64)> = Seq::empty();
        for coords in birth: births.iter()
            invariant
                done == birth.history().unref(),
                birth.seq().unref().to_set() == births@,
                birth.index() == birth.seq().len() ==> birth.history() == birth.seq(),
                self@ == with_newborns(old(self)@, done),
                self.spec_age() == old(self).spec_age(),
        {
            proof {
                assert(birth.index() + 1 == birth.seq().len() ==> birth.history().push(coords)
                    =~= birth.seq());
                assert(done.push(*coords).drop_last() == done);
                done = done.push(*coords);
            }
            self.add_life(Life::new(coords.0, coords.1));
        }
        proof {
            lemma_with_newborns(old(self)@, done);
            assert forall|p: (int, int)| proposed(done, p.0, p.1) <==> chosen(
                births@,
                p.0,
                p.1,
            ) by {
                if proposed(done, p.0, p.1) {
                    let k = choose|k: int|
                        0 <= k < done.len() && (#[trigger] done[k]).0 == p.0 && done[k].1 == p.1;
                    assert(done.to_set().contains(done[k]));
                }
                if chosen(births@, p.0, p.1) {
                    assert(done.to_set().contains((p.0 as i64, p.1 as i64)));
                    assert(done.contains((p.0 as i64, p.1 as i64)));
                }
            }
            assert(self@ =~= with_births(old(self)@, births@));
        }
    }

    /// Whether the plane can move on by `generations` generations.
    pub open spec fn can_run(&self, generations: nat) -> bool {
        &&& self.spec_age() + generations <= u32::MAX
        &&& forall|p: (int, int)| #[trigger]
            self@.contains_key(p) ==> self@[p] + generations <= u32::MAX
    }

    /// Moves the plane on by `generations` generations, one after the other.
    pub fn run(&mut self, generations: u32)
        requires
            old(self).can_run(generations as nat),
        ensures
            final(self)@ == generation_after(old(self)@, generations as nat),
            final(self).spec_age() == old(self).spec_age() + generations,
    {
        let mut done: u32 = 0;
        while done < generations
            invariant
                done <= generations,
                self@ == generation_after(old(self)@, done as nat),
                self.spec_age() == old(self).spec_age() + done,
                self.can_run((generations - done) as nat),
            decreases generations - done,
        {
            proof {
                lemma_ages_by_one(self@, (generations - done) as nat);
            }
            self.tick();
            done += 1;
        }
    }
}

impl TimeBasedEntity for World {
    /// The plane can move on as long as every cell can grow older and the
    /// generations can still be counted.
    open spec fn can_tick(&self) -> bool {
        self.can_age() && self.spec_age() < u32::MAX
    }

    /// The cells are those of the generation that follows, and one more
    /// generation has been counted.
    open spec fn ticked(&self, after: &Self) -> bool {
        after@ == next_generation(self@) && after.spec_age() == self.spec_age() + 1
    }

    /// Moves the plane on by one generation. All deaths and births are
    /// decided on the plane as it stands at the start; only then do the dead
    /// leave and the newborn appear, and at last every cell ages by one.
    fn tick(&mut self) {
        let ghost cells = self@;
        let (kill_vec, new_life_set) = self.decide();
        self.remove_lives(&kill_vec);
        proof {
            lemma_without_all(cells, kill_vec@);
        }
        self.add_lives(&new_life_set);
        self.initialize();
        self.count_generation();
        proof {
            assert(self@ =~= next_generation(cells));
        }
    }
}

/// A cell is at most one generation older after a generation, and a newborn
/// cell is found with age 1: whatever room the ages had is smaller by one.
proof fn lemma_ages_by_one(cells: Cells, room: nat)
    requires
        room >= 1,
        forall|p: (int, int)| #[trigger] cells.contains_key(p) ==> cells[p] + room <= u32::MAX,
    ensures
        forall|p: (int, int)| #[trigger]
            next_generation(cells).contains_key(p) ==> next_generation(cells)[p] + (room - 1)
                <= u32::MAX,
{
}

/// Whether a cell at `(x, y)` is among those marked for death.
spec fn marked(kills: Seq<Life>, x: int, y: int) -> bool {
    exists|k: int| 0 <= k < kills.len() && (#[trigger] kills[k]).x_pos == x && kills[k].y_pos == y
}

/// Whether `(x, y)` is one of the positions collected for a birth.
spec fn chosen(births: Set<(i64, i64)>, x: int, y: int) -> bool {
    on_plane(x, y) && births.contains((x as i64, y as i64))
}

/// `cells` with a cell of age 0 at each position of `births` that was free.
spec fn with_births(cells: Cells, births: Set<(i64, i64)>) -> Cells {
    Map::new(
        |p: (int, int)| cells.contains_key(p) || chosen(births, p.0, p.1),
        |p: (int, int)|
            if cells.contains_key(p) {
                cells[p]
            } else {
                0
            },
    )
}

/// Whether `(x, y)` is among the positions listed for a birth.
spec fn proposed(births: Seq<(i64, i64)>, x: int, y: int) -> bool {
    exists|k: int| 0 <= k < births.len() && (#[trigger] births[k]).0 == x && births[k].1 == y
}

/// `cells` once the cells at the positions of `kills` have left, one by one.
spec fn without_all(cells: Cells, kills: Seq<Life>) -> Cells
    decreases kills.len(),
{
    if kills.len() == 0 {
        cells
    } else {
        without_life(
            without_all(cells, kills.drop_last()),
            kills.last().x_pos as int,
            kills.last().y_pos as int,
        )
    }
}

proof fn lemma_marked_push(kills: Seq<Life>, life: Life)
    ensures
        forall|x: int, y: int| #[trigger]
            marked(kills.push(life), x, y) <==> marked(kills, x, y) || (life.x_pos == x
                && life.y_pos == y),
{
    let longer = kills.push(life);
    assert(longer[kills.len() as int] == life);
    assert forall|x: int, y: int| marked(kills, x, y) implies marked(longer, x, y) by {
        let k = choose|k: int|
            0 <= k < kills.len() && (#[trigger] kills[k]).x_pos == x && kills[k].y_pos == y;
        assert(longer[k] == kills[k]);
    }
    assert forall|x: int, y: int| marked(longer, x, y) implies marked(kills, x, y) || (life.x_pos
        == x && life.y_pos == y) by {
        let k = choose|k: int|
            0 <= k < longer.len() && (#[trigger] longer[k]).x_pos == x && longer[k].y_pos == y;
        if k < kills.len() {
            assert(longer[k] == kills[k]);
        }
    }
}

proof fn lemma_proposed_push(births: Seq<(i64, i64)>, coords: (i64, i64))
    ensures
        forall|x: int, y: int| #[trigger]
            proposed(births.push(coords), x, y) <==> proposed(births, x, y) || (coords.0 == x
                && coords.1 == y),
{
    let longer = births.push(coords);
    assert(longer[births.len() as int] == coords);
    assert forall|x: int, y: int| proposed(births, x, y) implies proposed(longer, x, y) by {
        let k = choose|k: int|
            0 <= k < births.len() && (#[trigger] births[k]).0 == x && births[k].1 == y;
        assert(longer[k] == births[k]);
    }
    assert forall|x: int, y: int| proposed(longer, x, y) implies proposed(births, x, y) || (
    coords.0 == x && coords.1 == y) by {
        let k = choose|k: int|
            0 <= k < longer.len() && (#[trigger] longer[k]).0 == x && longer[k].1 == y;
        if k < births.len() {
            assert(longer[k] == births[k]);
        }
    }
}

/// The cells that are left are those at no position of `kills`, as they were.
proof fn lemma_without_all(cells: Cells, kills: Seq<Life>)
    ensures
        forall|p: (int, int)| #[trigger]
            without_all(cells, kills).contains_key(p) <==> cells.contains_key(p) && !marked(
                kills,
                p.0,
                p.1,
            ),
        forall|p: (int, int)| #[trigger]
            without_all(cells, kills).contains_key(p) ==> without_all(cells, kills)[p] == cells[p],
    decreases kills.len(),
{
    if kills.len() > 0 {
        let earlier = kills.drop_last();
        let last = kills.last();
        let gone = (last.x_pos as int, last.y_pos as int);
        lemma_without_all(cells, earlier);
        lemma_marked_push(earlier, last);
        assert(earlier.push(last) =~= kills);
        assert(without_all(cells, kills) == without_all(cells, earlier).remove(gone));
        assert forall|p: (int, int)|
            (#[trigger] without_all(cells, kills).contains_key(p) <==> cells.contains_key(p)
                && !marked(kills, p.0, p.1)) && (without_all(cells, kills).contains_key(p)
                ==> without_all(cells, kills)[p] == cells[p]) by {
            assert(marked(earlier.push(last), p.0, p.1) <==> marked(earlier, p.0, p.1) || (
            last.x_pos == p.0 && last.y_pos == p.1));
            assert(without_all(cells, earlier).contains_key(p) <==> cells.contains_key(p)
                && !marked(earlier, p.0, p.1));
            assert(p == gone <==> p.0 == gone.0 && p.1 == gone.1);
        }
    } else {
        assert forall|p: (int, int)| !marked(kills, p.0, p.1) by {}
    }
}

/// The cells are those that were there, as they were, and one of age 0 at
/// each position of `births` that was free.
proof fn lemma_with_newborns(cells: Cells, births: Seq<(i64, i64)>)
    ensures
        forall|p: (int, int)| #[trigger]
            with_newborns(cells, births).contains_key(p) <==> cells.contains_key(p) || proposed(
                births,
                p.0,
                p.1,
            ),
        forall|p: (int, int)| #[trigger]
            with_newborns(cells, births).contains_key(p) ==> with_newborns(cells, births)[p] == (
            if cells.contains_key(p) {
                cells[p]
            } else {
                0
            }),
    decreases births.len(),
{
    if births.len() > 0 {
        let earlier = births.drop_last();
        let last = births.last();
        let place = (last.0 as int, last.1 as int);
        lemma_with_newborns(cells, earlier);
        lemma_proposed_push(earlier, last);
        assert(earlier.push(last) =~= births);
        assert(with_newborns(cells, births) == with_life(
            with_newborns(cells, earlier),
            place.0,
            place.1,
            0,
        ));
        assert forall|p: (int, int)|
            (#[trigger] with_newborns(cells, births).contains_key(p) <==> cells.contains_key(p)
                || proposed(births, p.0, p.1)) && (with_newborns(cells, births).contains_key(p)
                ==> with_newborns(cells, births)[p] == (if cells.contains_key(p) {
                cells[p]
            } else {
                0
            })) by {
            assert(proposed(earlier.push(last), p.0, p.1) <==> proposed(earlier, p.0, p.1) || (
            last.0 == p.0 && last.1 == p.1));
            assert(with_newborns(cells, earlier).contains_key(p) <==> cells.contains_key(p)
                || proposed(earlier, p.0, p.1));
            assert(with_newborns(cells, earlier).contains_key(place) <==> cells.contains_key(place)
                || proposed(earlier, place.0, place.1));
            assert(p == place <==> p.0 == place.0 && p.1 == place.1);
        }
    } else {
        assert forall|p: (int, int)| !proposed(births, p.0, p.1) by {}
    }
}

/// A cell that takes part in the rules is one of the neighbours of each
/// position around it, and not one of its own.
proof fn lemma_centre_counts(cells: Cells, cx: int, cy: int)
    requires
        mature(cells, cx, cy),
    ensures
        neighbor_count(cells.remove((cx, cy)), cx, cy) == neighbor_count(cells, cx, cy),
        forall|pos: int|
            0 <= pos < 8 ==> 1 + neighbor_count(
                cells.remove((cx, cy)),
                cx + offset_x(pos),
                cy + offset_y(pos),
            ) == #[trigger] neighbor_count(cells, cx + offset_x(pos), cy + offset_y(pos)),
{
}

} // verus!
