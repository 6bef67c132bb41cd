//! A whole run, from the first cells to the cells that are left.

use vstd::prelude::*;
use crate::grid::{lists_positions, World};
use crate::life::Life;
use crate::rules::{aged, generation_after, with_newborns, Cells};

verus! {

/// The plane on which a run starts: a cell at each position of `seeds`, all
/// of them taking part in the rules from the first generation on.
pub open spec fn first_generation(seeds: Seq<(i64, i64)>) -> Cells {
    aged(with_newborns(Map::<(int, int), nat>::empty(), seeds))
}

/// Puts a cell at each position of `seeds`, lets `generations` generations
/// go by, and lists the positions of the cells that are left, by ascending
/// x and then ascending y. A position named twice counts once.
pub fn simulate(seeds: &Vec<(i64, i64)>, generations: u32) -> (positions: Vec<(i64, i64)>)
    requires
        generations < u32::MAX,
    ensures
        lists_positions(
            positions@,
            generation_after(first_generation(seeds@), generations as nat),
        ),
{
    let mut world = World::new();
    let mut index: usize = 0;
    while index < seeds.len()
        invariant
            index <= seeds.len(),
            world.spec_age() == 0,
            world@ == with_newborns(Map::<(int, int), nat>::empty(), seeds@.take(index as int)),
            forall|p: (int, int)| #[trigger] world@.contains_key(p) ==> world@[p] == 0,
        decreases seeds.len() - index,
    {
        proof {
            assert(seeds@.take(index + 1).drop_last() == seeds@.take(index as int));
        }
        world.add_life(Life::new(seeds[index].0, seeds[index].1));
        index += 1;
    }
    proof {
        assert(seeds@.take(seeds@.len() as int) == seeds@);
    }
    world.initialize();
    world.run(generations);
    world.enumerate_live_cells()
}

} // verus!
