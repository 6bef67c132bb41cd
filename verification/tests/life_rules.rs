use sparse_life::grid::World;
use sparse_life::life::{Life, TimeBasedEntity};

fn settled(cells: &[(i64, i64)]) -> World {
    let mut world = World::new();
    for &(x, y) in cells {
        world.add_life(Life::new(x, y));
    }
    world.initialize();
    world
}

fn age_at(world: &World, x: i64, y: i64) -> Option<u32> {
    let found = world.spatial_query(x, y, x, y);
    assert!(found.len() <= 1);
    found.first().map(|life| life.age)
}

#[test]
fn block_is_stable() {
    let mut world = settled(&[(0, 0), (1, 0), (0, 1), (1, 1)]);
    world.tick();
    assert_eq!(world.enumerate_live_cells(), vec![(0, 0), (0, 1), (1, 0), (1, 1)]);
    world.tick();
    assert_eq!(world.enumerate_live_cells(), vec![(0, 0), (0, 1), (1, 0), (1, 1)]);
}

#[test]
fn block_cells_grow_older() {
    let mut world = settled(&[(5, 5), (6, 5), (5, 6), (6, 6)]);
    world.tick();
    world.tick();
    world.tick();
    for &(x, y) in &[(5, 5), (6, 5), (5, 6), (6, 6)] {
        assert_eq!(age_at(&world, x, y), Some(4));
    }
    assert_eq!(world.age(), 3);
}

#[test]
fn blinker_oscillates() {
    let mut world = settled(&[(0, 0), (1, 0), (2, 0)]);
    world.tick();
    assert_eq!(world.enumerate_live_cells(), vec![(1, -1), (1, 0), (1, 1)]);
    world.tick();
    assert_eq!(world.enumerate_live_cells(), vec![(0, 0), (1, 0), (2, 0)]);
}

#[test]
fn blinker_ages() {
    let mut world = settled(&[(0, 0), (1, 0), (2, 0)]);
    world.tick();
    assert_eq!(age_at(&world, 1, 0), Some(2));
    assert_eq!(age_at(&world, 1, -1), Some(1));
    assert_eq!(age_at(&world, 1, 1), Some(1));
    assert_eq!(age_at(&world, 0, 0), None);
    world.tick();
    assert_eq!(age_at(&world, 1, 0), Some(3));
    assert_eq!(age_at(&world, 0, 0), Some(1));
    assert_eq!(age_at(&world, 2, 0), Some(1));
}

#[test]
fn single_cell_dies() {
    let mut world = settled(&[(7, -3)]);
    world.tick();
    assert_eq!(world.enumerate_live_cells(), vec![]);
}

#[test]
fn two_cells_die() {
    let mut side_by_side = settled(&[(0, 0), (1, 0)]);
    side_by_side.tick();
    assert_eq!(side_by_side.enumerate_live_cells(), vec![]);

    let mut apart = settled(&[(0, 0), (40, 40)]);
    apart.tick();
    assert_eq!(apart.enumerate_live_cells(), vec![]);

    let mut diagonal = settled(&[(0, 0), (1, 1)]);
    diagonal.tick();
    assert_eq!(diagonal.enumerate_live_cells(), vec![]);
}

#[test]
fn crowded_cell_dies() {
    // The centre of a plus sign has four neighbours.
    let mut world = settled(&[(0, 0), (1, 0), (-1, 0), (0, 1), (0, -1)]);
    world.tick();
    assert_eq!(age_at(&world, 0, 0), None);
    assert_eq!(
        world.enumerate_live_cells(),
        vec![(-1, -1), (-1, 0), (-1, 1), (0, -1), (0, 1), (1, -1), (1, 0), (1, 1)]
    );
}

#[test]
fn cell_with_eight_neighbors_dies() {
    let mut cells = Vec::new();
    for x in -1..=1 {
        for y in -1..=1 {
            cells.push((x, y));
        }
    }
    let mut world = settled(&cells);
    world.tick();
    assert_eq!(age_at(&world, 0, 0), None);
    // The corners have three neighbours and stay, the edges have five.
    assert_eq!(age_at(&world, 1, 1), Some(2));
    assert_eq!(age_at(&world, 1, 0), None);
}

#[test]
fn birth_with_three_neighbors() {
    let mut world = settled(&[(0, 0), (2, 0), (1, 2)]);
    world.tick();
    // (1, 1) had exactly three neighbours; each of them had none.
    assert_eq!(world.enumerate_live_cells(), vec![(1, 1)]);
    assert_eq!(age_at(&world, 1, 1), Some(1));
    world.tick();
    assert_eq!(world.enumerate_live_cells(), vec![]);
}

#[test]
fn no_birth_with_two_or_four_neighbors() {
    let mut two = settled(&[(0, 0), (2, 0)]);
    two.tick();
    assert_eq!(age_at(&two, 1, 0), None);
    assert_eq!(age_at(&two, 1, 1), None);

    let mut four = settled(&[(0, 0), (2, 0), (0, 2), (2, 2)]);
    four.tick();
    assert_eq!(age_at(&four, 1, 1), None);
    assert_eq!(four.enumerate_live_cells(), vec![]);
}

#[test]
fn newborn_is_not_counted_as_neighbor() {
    // Two settled cells and a third that has just been added: to the rules
    // the third is not there yet, so each of the two has a single neighbour.
    let mut world = settled(&[(0, 0), (1, 0)]);
    world.add_life(Life::new(0, 1));
    world.tick();
    assert_eq!(world.enumerate_live_cells(), vec![(0, 1)]);
    assert_eq!(age_at(&world, 0, 1), Some(1));
}

#[test]
fn newborn_does_not_cause_birth() {
    // With the third cell settled, (1, 1) would have three neighbours.
    let mut world = settled(&[(0, 0), (2, 0)]);
    world.add_life(Life::new(1, 2));
    world.tick();
    assert_eq!(world.enumerate_live_cells(), vec![(1, 2)]);
}

#[test]
fn newborn_is_not_surveyed() {
    // A cell of age 0 with no neighbour at all is kept and aged.
    let mut world = World::new();
    world.add_life(Life::new(3, 3));
    world.tick();
    assert_eq!(world.enumerate_live_cells(), vec![(3, 3)]);
    assert_eq!(age_at(&world, 3, 3), Some(1));
    world.tick();
    assert_eq!(world.enumerate_live_cells(), vec![]);
}

#[test]
fn cell_born_this_tick_takes_part_in_the_next() {
    // The blinker's new arms are born with age 0 and aged to 1 in the same
    // generation; the next generation finds them taking part.
    let mut world = settled(&[(0, 0), (1, 0), (2, 0)]);
    world.tick();
    let found = world.survey(&Life::new(1, 0));
    assert_eq!(found.close_neighbor_count, 2);
}

#[test]
fn empty_world_stays_empty() {
    let mut world = World::new();
    world.initialize();
    for _ in 0..10 {
        world.tick();
    }
    assert_eq!(world.enumerate_live_cells(), vec![]);
    assert_eq!(world.age(), 10);
}

#[test]
fn glider_moves_diagonally() {
    let mut world = settled(&[(1, 0), (2, -1), (0, -2), (1, -2), (2, -2)]);
    for _ in 0..4 {
        world.tick();
    }
    assert_eq!(
        world.enumerate_live_cells(),
        vec![(1, -3), (2, -3), (2, -1), (3, -3), (3, -2)]
    );
}

#[test]
fn run_is_repeated_tick() {
    let mut stepped = settled(&[(1, 0), (2, -1), (0, -2), (1, -2), (2, -2)]);
    let mut ran = settled(&[(1, 0), (2, -1), (0, -2), (1, -2), (2, -2)]);
    for _ in 0..7 {
        stepped.tick();
    }
    ran.run(7);
    assert_eq!(
        stepped.spatial_query(i64::MIN, i64::MAX, i64::MAX, i64::MIN),
        ran.spatial_query(i64::MIN, i64::MAX, i64::MAX, i64::MIN)
    );
    assert_eq!(ran.age(), 7);
}

#[test]
fn run_for_no_generation_changes_nothing() {
    let mut world = settled(&[(0, 0)]);
    world.run(0);
    assert_eq!(world.enumerate_live_cells(), vec![(0, 0)]);
    assert_eq!(world.age(), 0);
}

#[test]
fn survey_counts_neighbors_of_all_nine_positions() {
    let world = settled(&[(0, 0), (1, 0), (2, 0)]);
    let found = world.survey(&Life::new(1, 0));
    assert_eq!(found.close_neighbor_count, 2);
    // Above and below the middle of the row there are three neighbours,
    // beside the ends two, and at either end one.
    assert_eq!(found.new_life_counters, [2, 3, 2, 1, 1, 2, 3, 2]);
}

#[test]
fn survey_of_a_position_that_holds_no_cell() {
    let world = settled(&[(0, 0), (2, 0), (1, 2)]);
    let found = world.survey(&Life::new(1, 1));
    assert_eq!(found.close_neighbor_count, 3);
    // Every counter holds one for the surveyed position itself.
    assert_eq!(found.new_life_counters, [2, 1, 2, 3, 3, 1, 3, 1]);
}

#[test]
fn tick_at_the_corner_of_the_plane() {
    // A block in the far corner is as stable as anywhere else.
    let max = i64::MAX;
    let mut block = settled(&[(max, max), (max - 1, max), (max, max - 1), (max - 1, max - 1)]);
    block.tick();
    assert_eq!(
        block.enumerate_live_cells(),
        vec![(max - 1, max - 1), (max - 1, max), (max, max - 1), (max, max)]
    );

    let min = i64::MIN;
    let mut lone = settled(&[(min, min)]);
    lone.tick();
    assert_eq!(lone.enumerate_live_cells(), vec![]);
}

#[test]
fn blinker_along_the_edge_of_the_plane() {
    // The position past the edge has three neighbours. It is brought back
    // onto the edge, where the middle of the row stands and stays.
    let max = i64::MAX;
    let mut world = settled(&[(max, -1), (max, 0), (max, 1)]);
    world.tick();
    assert_eq!(world.enumerate_live_cells(), vec![(max - 1, 0), (max, 0)]);
    assert_eq!(age_at(&world, max, 0), Some(2));
    assert_eq!(age_at(&world, max - 1, 0), Some(1));
}

#[test]
fn crowded_cell_on_the_edge_is_born_again() {
    // The cell at (max, 0) has four neighbours and dies. The position past
    // the edge beside it has three, and is brought back onto (max, 0).
    let max = i64::MAX;
    let mut world = settled(&[(max, 0), (max, 1), (max, -1), (max - 1, 0), (max - 1, 1)]);
    world.tick();
    assert_eq!(age_at(&world, max, 0), Some(1));
}
