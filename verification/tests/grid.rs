use sparse_life::grid::World;
use sparse_life::life::{Life, TimeBasedEntity};

fn cell(x_pos: i64, y_pos: i64, age: u32) -> Life {
    Life { x_pos, y_pos, age }
}

fn everything(world: &World) -> Vec<Life> {
    world.spatial_query(i64::MIN, i64::MAX, i64::MAX, i64::MIN)
}

#[test]
fn new_world_is_empty() {
    let world = World::new();
    assert_eq!(world.enumerate_live_cells(), vec![]);
    assert_eq!(everything(&world), vec![]);
    assert_eq!(world.age(), 0);
}

#[test]
fn new_life_has_age_zero() {
    assert_eq!(Life::new(3, -4), cell(3, -4, 0));
}

#[test]
fn add_life_stores_the_cell() {
    let mut world = World::new();
    world.add_life(Life::new(2, 3));
    assert_eq!(everything(&world), vec![cell(2, 3, 0)]);
    assert_eq!(world.enumerate_live_cells(), vec![(2, 3)]);
}

#[test]
fn add_life_twice_keeps_one_cell() {
    let mut world = World::new();
    world.add_life(Life::new(2, 3));
    world.add_life(Life::new(2, 3));
    assert_eq!(everything(&world), vec![cell(2, 3, 0)]);
}

#[test]
fn add_life_keeps_the_age_of_the_first() {
    let mut world = World::new();
    world.add_life(Life::new(2, 3));
    world.initialize();
    world.add_life(Life::new(2, 3));
    assert_eq!(everything(&world), vec![cell(2, 3, 1)]);

    let mut other = World::new();
    other.add_life(cell(0, 0, 7));
    other.add_life(cell(0, 0, 9));
    other.add_life(Life::new(0, 0));
    assert_eq!(everything(&other), vec![cell(0, 0, 7)]);
}

#[test]
fn add_life_in_one_column() {
    let mut world = World::new();
    world.add_life(Life::new(1, 5));
    world.add_life(Life::new(1, -5));
    world.add_life(Life::new(1, 0));
    assert_eq!(world.enumerate_live_cells(), vec![(1, -5), (1, 0), (1, 5)]);
}

#[test]
fn remove_life_takes_the_cell_away() {
    let mut world = World::new();
    world.add_life(Life::new(1, 1));
    world.add_life(Life::new(1, 2));
    world.add_life(Life::new(2, 1));
    world.remove_life(&Life::new(1, 1));
    assert_eq!(world.enumerate_live_cells(), vec![(1, 2), (2, 1)]);
}

#[test]
fn remove_life_looks_at_the_position_only() {
    let mut world = World::new();
    world.add_life(cell(4, 4, 3));
    world.remove_life(&cell(4, 4, 0));
    assert_eq!(everything(&world), vec![]);
}

#[test]
fn remove_life_of_an_absent_cell_changes_nothing() {
    let mut world = World::new();
    world.add_life(Life::new(1, 1));
    world.remove_life(&Life::new(1, 2));
    world.remove_life(&Life::new(2, 1));
    world.remove_life(&Life::new(9, 9));
    assert_eq!(world.enumerate_live_cells(), vec![(1, 1)]);

    let mut empty = World::new();
    empty.remove_life(&Life::new(0, 0));
    assert_eq!(empty.enumerate_live_cells(), vec![]);
}

#[test]
fn column_emptied_and_filled_again() {
    let mut world = World::new();
    world.add_life(Life::new(1, 1));
    world.remove_life(&Life::new(1, 1));
    assert_eq!(world.enumerate_live_cells(), vec![]);
    world.add_life(Life::new(1, 2));
    assert_eq!(world.enumerate_live_cells(), vec![(1, 2)]);
    world.initialize();
    assert_eq!(everything(&world), vec![cell(1, 2, 1)]);
}

#[test]
fn spatial_query_is_inclusive_on_all_sides() {
    let mut world = World::new();
    for x in 0..5 {
        for y in 0..5 {
            world.add_life(Life::new(x, y));
        }
    }
    let found = world.spatial_query(1, 3, 3, 1);
    let positions: Vec<(i64, i64)> = found.iter().map(|life| (life.x_pos, life.y_pos)).collect();
    assert_eq!(
        positions,
        vec![(1, 1), (1, 2), (1, 3), (2, 1), (2, 2), (2, 3), (3, 1), (3, 2), (3, 3)]
    );
}

#[test]
fn spatial_query_of_a_single_position() {
    let mut world = World::new();
    world.add_life(Life::new(2, 2));
    world.add_life(Life::new(2, 3));
    world.add_life(Life::new(3, 2));
    assert_eq!(world.spatial_query(2, 2, 2, 2), vec![cell(2, 2, 0)]);
    assert_eq!(world.spatial_query(4, 4, 4, 4), vec![]);
}

#[test]
fn spatial_query_with_no_cell_in_range() {
    let mut world = World::new();
    world.add_life(Life::new(0, 0));
    world.add_life(Life::new(10, 10));
    assert_eq!(world.spatial_query(2, 8, 8, 2), vec![]);
    // The column is in range, the cell in it is not.
    assert_eq!(world.spatial_query(0, 8, 8, 2), vec![]);
    // The row is in range, the column is not.
    assert_eq!(world.spatial_query(2, 10, 8, 0), vec![]);
}

#[test]
fn spatial_query_of_an_empty_range() {
    let mut world = World::new();
    world.add_life(Life::new(0, 0));
    world.add_life(Life::new(1, 1));
    // The first corner lies to the right of the second.
    assert_eq!(world.spatial_query(1, 1, 0, 0), vec![]);
    // The first corner lies below the second.
    assert_eq!(world.spatial_query(0, 0, 1, 1), vec![]);
    assert_eq!(world.spatial_query(5, -5, -5, 5), vec![]);
}

#[test]
fn spatial_query_on_an_empty_world() {
    let world = World::new();
    assert_eq!(world.spatial_query(-3, 3, 3, -3), vec![]);
}

#[test]
fn spatial_query_reports_ages() {
    let mut world = World::new();
    world.add_life(Life::new(0, 0));
    world.initialize();
    world.add_life(Life::new(0, 1));
    assert_eq!(world.spatial_query(0, 1, 0, 0), vec![cell(0, 0, 1), cell(0, 1, 0)]);
}

#[test]
fn spatial_query_over_the_whole_plane() {
    let mut world = World::new();
    world.add_life(Life::new(i64::MAX, i64::MIN));
    world.add_life(Life::new(i64::MIN, i64::MAX));
    world.add_life(Life::new(0, 0));
    assert_eq!(
        everything(&world),
        vec![cell(i64::MIN, i64::MAX, 0), cell(0, 0, 0), cell(i64::MAX, i64::MIN, 0)]
    );
}

#[test]
fn query_around_point_reaches_two_steps() {
    let mut world = World::new();
    for x in -3..=3 {
        for y in -3..=3 {
            world.add_life(Life::new(x, y));
        }
    }
    let found = world.query_around_point(0, 0);
    assert_eq!(found.len(), 25);
    assert_eq!(found[0], cell(-2, -2, 0));
    assert_eq!(found[12], cell(0, 0, 0));
    assert_eq!(found[24], cell(2, 2, 0));
    assert!(found.iter().all(|life| life.x_pos.abs() <= 2 && life.y_pos.abs() <= 2));
}

#[test]
fn query_around_point_at_the_edges() {
    let mut world = World::new();
    world.add_life(Life::new(i64::MAX, i64::MAX));
    world.add_life(Life::new(i64::MAX - 2, i64::MAX - 2));
    world.add_life(Life::new(i64::MAX - 3, i64::MAX));
    world.add_life(Life::new(i64::MIN, i64::MIN));
    world.add_life(Life::new(i64::MIN + 2, i64::MIN + 1));
    world.add_life(Life::new(i64::MIN + 3, i64::MIN));
    assert_eq!(
        world.query_around_point(i64::MAX, i64::MAX),
        vec![cell(i64::MAX - 2, i64::MAX - 2, 0), cell(i64::MAX, i64::MAX, 0)]
    );
    assert_eq!(
        world.query_around_point(i64::MIN, i64::MIN),
        vec![cell(i64::MIN, i64::MIN, 0), cell(i64::MIN + 2, i64::MIN + 1, 0)]
    );
}

#[test]
fn enumerate_live_cells_is_ordered_by_x_then_y() {
    let mut world = World::new();
    for &(x, y) in &[(3, 1), (-1, 7), (3, -2), (0, 0), (-1, -7), (3, 0)] {
        world.add_life(Life::new(x, y));
    }
    assert_eq!(
        world.enumerate_live_cells(),
        vec![(-1, -7), (-1, 7), (0, 0), (3, -2), (3, 0), (3, 1)]
    );
}

#[test]
fn initialize_ages_every_cell_by_one() {
    let mut world = World::new();
    world.add_life(Life::new(0, 0));
    world.add_life(Life::new(0, 1));
    world.add_life(cell(5, 5, 41));
    world.initialize();
    assert_eq!(everything(&world), vec![cell(0, 0, 1), cell(0, 1, 1), cell(5, 5, 42)]);
    assert_eq!(world.age(), 0);
    world.initialize();
    assert_eq!(everything(&world), vec![cell(0, 0, 2), cell(0, 1, 2), cell(5, 5, 43)]);
}

#[test]
fn initialize_on_an_empty_world() {
    let mut world = World::new();
    world.initialize();
    assert_eq!(everything(&world), vec![]);
}

#[test]
fn life_tick_adds_one_to_the_age() {
    let mut life = Life::new(1, 2);
    life.tick();
    assert_eq!(life, cell(1, 2, 1));
    life.tick();
    assert_eq!(life, cell(1, 2, 2));
}
