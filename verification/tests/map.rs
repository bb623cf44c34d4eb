use griphus::components::{Cardinal, Entity};
use griphus::map::{TileMap, TileType};
use griphus::systems::run_systems;
use griphus::turn_history::TurnsHistory;
use griphus::world::World;

#[test]
fn empty_map_has_no_tile() {
    let map = TileMap::empty();
    assert_eq!(map.level(), 0);
    assert_eq!(map.width(), 0);
    assert_eq!(map.height(), 0);
    assert!(!map.is_inside(0, 0));
    assert!(map.is_blocked(0, 0));
    assert!(!map.is_lasered(0, 0));
    assert!(!map.is_exit(0, 0));
    assert_eq!(map.get_exits(), vec![]);
}

#[test]
fn new_map_is_a_walled_room() {
    let map = TileMap::new(3, 4, 3);
    assert_eq!(map.level(), 3);
    assert_eq!(map.width(), 4);
    assert_eq!(map.height(), 3);
    for y in 0..3 {
        for x in 0..4 {
            let border = x == 0 || y == 0 || x == 3 || y == 2;
            let expected = if border { TileType::Wall } else { TileType::Floor };
            assert_eq!(map.get_tiletype(x, y), expected);
            assert!(!map.is_blocked(x, y));
            assert!(!map.is_lasered(x, y));
            assert!(map.iter_content(x, y).is_empty());
        }
    }
}

#[test]
fn outside_the_grid_is_blocked_and_not_walkable() {
    let map = TileMap::new(1, 4, 3);
    for (x, y) in [(-1, 0), (0, -1), (4, 0), (0, 3), (i32::MAX, i32::MIN)] {
        assert!(!map.is_inside(x, y));
        assert!(map.is_blocked(x, y));
        assert!(!map.is_lasered(x, y));
        assert!(!map.is_exit(x, y));
        assert!(!map.is_exit_valid(x, y));
    }
}

#[test]
fn reset_blocked_blocks_the_walls_only() {
    let mut map = TileMap::new(1, 4, 4);
    map.set_blocked(1, 1);
    assert!(map.is_blocked(1, 1));
    assert!(!map.is_blocked(2, 1));
    map.reset_blocked();
    assert!(!map.is_blocked(1, 1));
    assert!(!map.is_blocked(2, 2));
    assert!(map.is_blocked(0, 0));
    assert!(map.is_blocked(3, 2));
}

#[test]
fn lasered_layer_keeps_the_two_axes_apart() {
    let mut map = TileMap::new(1, 5, 5);
    map.set_lasered(1, 1, Cardinal::S);
    map.set_lasered(2, 1, Cardinal::W);
    map.set_lasered(3, 1, Cardinal::N);
    map.set_lasered(3, 1, Cardinal::E);
    assert!(map.is_lasered_vertical(1, 1) && !map.is_lasered_horizontal(1, 1));
    assert!(!map.is_lasered_vertical(2, 1) && map.is_lasered_horizontal(2, 1));
    assert!(map.is_lasered_vertical(3, 1) && map.is_lasered_horizontal(3, 1));
    assert!(map.is_lasered(1, 1) && map.is_lasered(2, 1) && map.is_lasered(3, 1));
    assert!(!map.is_lasered(2, 2));
    assert!(!map.is_exit_valid(1, 1));
    map.reset_lasered();
    assert!(!map.is_lasered(1, 1) && !map.is_lasered(2, 1) && !map.is_lasered(3, 1));
}

#[test]
fn exits_are_listed_row_by_row() {
    let mut map = TileMap::new(1, 5, 4);
    map.set_tiletype(3, 2, TileType::Exit);
    map.set_tiletype(1, 2, TileType::Exit);
    map.set_tiletype(4, 0, TileType::Exit);
    assert_eq!(map.get_exits(), vec![(4, 0), (1, 2), (3, 2)]);
    assert!(map.is_exit(1, 2));
    map.set_tiletype(1, 2, TileType::Floor);
    assert_eq!(map.get_exits(), vec![(4, 0), (3, 2)]);
    assert!(!map.is_exit(1, 2));
}

#[test]
fn content_keeps_the_order_of_addition() {
    let mut map = TileMap::new(1, 4, 4);
    map.add_content(1, 2, Entity(5));
    map.add_content(1, 2, Entity(2));
    map.add_content(2, 2, Entity(7));
    assert_eq!(map.iter_content(1, 2), &vec![Entity(5), Entity(2)]);
    assert_eq!(map.iter_content(2, 2), &vec![Entity(7)]);
    map.reset_content();
    assert!(map.iter_content(1, 2).is_empty());
    assert!(map.iter_content(2, 2).is_empty());
}

fn settled(world: &mut World, map: &mut TileMap) {
    let mut log = TurnsHistory::new();
    run_systems(world, map, &mut log);
}

#[test]
fn tile_queries_read_the_entities_on_the_tile() {
    let mut map = TileMap::new(1, 6, 6);
    let mut world = World::new();
    let plate = world.spawn_weight_plate(2, 2);
    let block = world.spawn_block(2, 2);
    let reflector = world.spawn_laser_reflector(3, 2, Cardinal::NW);
    world.spawn_laser_receptor(4, 2);
    world.spawn_player(1, 1);
    settled(&mut world, &mut map);
    assert_eq!(map.iter_content(2, 2), &vec![plate, block]);
    assert!(map.has_plate(2, 2, &world));
    assert!(!map.has_plate(3, 2, &world));
    assert!(!map.has_plate(4, 2, &world));
    assert_eq!(map.movable(2, 2, &world), Some(block));
    assert_eq!(map.movable(3, 2, &world), Some(reflector));
    assert_eq!(map.movable(4, 2, &world), None);
    assert_eq!(map.movable(1, 1, &world), None);
    assert_eq!(map.movable(-1, 0, &world), None);
    assert!(map.is_blocking_laser(2, 2, &world));
    assert!(!map.is_blocking_laser(3, 2, &world));
    assert!(map.is_blocking_laser(4, 2, &world));
    assert!(map.is_blocking_laser(0, 0, &world));
    assert!(map.is_blocking_laser(-1, 9, &world));
    assert!(!map.is_blocking_laser(1, 1, &world));
    assert_eq!(map.is_reflecting_laser(3, 2, &world), Some(Cardinal::NW));
    assert_eq!(map.is_reflecting_laser(2, 2, &world), None);
    assert_eq!(map.is_reflecting_laser(9, 9, &world), None);
}

#[test]
fn block_in_a_corner_makes_the_level_impossible() {
    let mut map = TileMap::new(1, 6, 6);
    let mut world = World::new();
    world.spawn_block(1, 1);
    settled(&mut world, &mut map);
    assert!(map.is_cornered(1, 1));
    assert!(map.is_impossible(&world));
}

#[test]
fn block_on_a_plate_in_a_corner_is_no_dead_end() {
    let mut map = TileMap::new(1, 6, 6);
    let mut world = World::new();
    world.spawn_weight_plate(1, 1);
    world.spawn_block(1, 1);
    settled(&mut world, &mut map);
    assert!(map.is_cornered(1, 1));
    assert!(!map.is_impossible(&world));
}

#[test]
fn block_in_the_open_or_along_a_wall_is_no_dead_end() {
    let mut map = TileMap::new(1, 7, 7);
    let mut world = World::new();
    world.spawn_block(3, 3);
    world.spawn_block(3, 1);
    world.spawn_laser_reflector(1, 1, Cardinal::NE);
    settled(&mut world, &mut map);
    assert!(!map.is_cornered(3, 3));
    assert!(!map.is_cornered(3, 1));
    assert!(map.is_cornered(1, 1));
    // The reflector in the corner is no block.
    assert!(!map.is_impossible(&world));
}

#[test]
fn each_of_the_four_corners_counts() {
    for (x, y) in [(1, 1), (4, 1), (1, 4), (4, 4)] {
        let mut map = TileMap::new(1, 6, 6);
        map.reset_blocked();
        assert!(map.is_cornered(x, y));
    }
    let mut map = TileMap::new(1, 6, 6);
    map.reset_blocked();
    assert!(!map.is_cornered(2, 2));
    // Two blocked neighbours at a right angle are not enough: the tile
    // between them counts too.
    map.set_blocked(3, 2);
    map.set_blocked(2, 1);
    assert!(!map.is_cornered(2, 2));
    map.set_blocked(3, 1);
    assert!(map.is_cornered(2, 2));
}
