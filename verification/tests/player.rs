use griphus::components::{Cardinal, Entity};
use griphus::gui::{Key, MainMenuSelection, RunState};
use griphus::map::TileMap;
use griphus::player::{game_turn_input, try_actuate, try_move_player};
use griphus::systems::settle;
use griphus::turn_history::{Action, TurnsHistory};
use griphus::world::World;

fn setup() -> (World, TileMap, TurnsHistory, Entity, Entity) {
    let mut map = TileMap::new(1, 7, 5);
    let mut world = World::new();
    let player = world.spawn_player(2, 2);
    let block = world.spawn_block(3, 2);
    let mut log = TurnsHistory::new();
    settle(&mut world, &mut map, &mut log);
    (world, map, log, player, block)
}

#[test]
fn a_step_onto_a_free_tile_moves_the_player() {
    let (world, map, _, player, _) = setup();
    assert_eq!(
        try_move_player(Cardinal::N, &world, &map),
        vec![Action::Moves(player, (2, 2), (2, 1))]
    );
    assert_eq!(
        try_move_player(Cardinal::W, &world, &map),
        vec![Action::Moves(player, (2, 2), (1, 2))]
    );
}

#[test]
fn a_step_against_a_block_pushes_it() {
    let (world, map, _, player, block) = setup();
    assert_eq!(
        try_move_player(Cardinal::E, &world, &map),
        vec![
            Action::Moves(player, (2, 2), (3, 2)),
            Action::Moves(block, (3, 2), (4, 2)),
            Action::UseEnergy(1),
        ]
    );
}

#[test]
fn a_step_against_a_wall_does_nothing() {
    let mut map = TileMap::new(1, 7, 5);
    let mut world = World::new();
    world.spawn_player(1, 1);
    let mut log = TurnsHistory::new();
    settle(&mut world, &mut map, &mut log);
    assert_eq!(try_move_player(Cardinal::N, &world, &map), vec![]);
    assert_eq!(try_move_player(Cardinal::W, &world, &map), vec![]);
}

#[test]
fn a_block_against_a_wall_or_another_block_does_not_move() {
    let mut map = TileMap::new(1, 7, 5);
    let mut world = World::new();
    world.spawn_player(3, 2);
    world.spawn_block(4, 2);
    world.spawn_block(5, 2);
    world.spawn_block(3, 1);
    let mut log = TurnsHistory::new();
    settle(&mut world, &mut map, &mut log);
    assert_eq!(try_move_player(Cardinal::E, &world, &map), vec![]);
    assert_eq!(try_move_player(Cardinal::N, &world, &map), vec![]);
}

#[test]
fn a_plate_does_not_stop_the_player() {
    let mut map = TileMap::new(1, 7, 5);
    let mut world = World::new();
    let player = world.spawn_player(2, 2);
    world.spawn_weight_plate(3, 2);
    let mut log = TurnsHistory::new();
    settle(&mut world, &mut map, &mut log);
    assert_eq!(
        try_move_player(Cardinal::E, &world, &map),
        vec![Action::Moves(player, (2, 2), (3, 2))]
    );
}

#[test]
fn a_receptor_stops_the_player() {
    let mut map = TileMap::new(1, 7, 5);
    let mut world = World::new();
    world.spawn_player(2, 2);
    world.spawn_laser_receptor(3, 2);
    let mut log = TurnsHistory::new();
    settle(&mut world, &mut map, &mut log);
    assert_eq!(try_move_player(Cardinal::E, &world, &map), vec![]);
}

#[test]
fn actuation_reaches_the_four_neighbours() {
    let mut map = TileMap::new(1, 7, 7);
    let mut world = World::new();
    world.spawn_player(3, 3);
    let north = world.spawn_laser_reflector(3, 2, Cardinal::NE);
    let west = world.spawn_laser_reflector(2, 3, Cardinal::NE);
    let south = world.spawn_laser_reflector(3, 4, Cardinal::NW);
    world.spawn_laser_reflector(4, 4, Cardinal::NW);
    world.spawn_block(4, 3);
    let mut log = TurnsHistory::new();
    settle(&mut world, &mut map, &mut log);
    assert_eq!(
        try_actuate(&world, &map),
        vec![
            Action::Actuates(south),
            Action::UseEnergy(1),
            Action::Actuates(north),
            Action::UseEnergy(1),
            Action::Actuates(west),
            Action::UseEnergy(1),
        ]
    );
}

#[test]
fn actuation_without_an_actuator_does_nothing() {
    let (world, map, _, _, _) = setup();
    assert_eq!(try_actuate(&world, &map), vec![]);
}

#[test]
fn without_a_player_nothing_happens() {
    let mut map = TileMap::new(1, 7, 5);
    let mut world = World::new();
    world.spawn_block(3, 2);
    world.spawn_laser_reflector(4, 2, Cardinal::NE);
    let mut log = TurnsHistory::new();
    settle(&mut world, &mut map, &mut log);
    assert_eq!(try_move_player(Cardinal::E, &world, &map), vec![]);
    assert_eq!(try_actuate(&world, &map), vec![]);
}

#[test]
fn keys_play_turns() {
    let (mut world, map, mut log, player, block) = setup();
    assert_eq!(game_turn_input(&mut world, &map, &mut log, None), RunState::GameAwaitingInput);
    assert_eq!(game_turn_input(&mut world, &map, &mut log, Some(Key::Other)), RunState::GameAwaitingInput);
    assert_eq!(game_turn_input(&mut world, &map, &mut log, Some(Key::R)), RunState::GameAwaitingInput);
    assert_eq!(log.steps, 0);
    assert_eq!(game_turn_input(&mut world, &map, &mut log, Some(Key::Right)), RunState::GameTurn);
    assert_eq!(log.steps, 1);
    assert_eq!(log.energy_used, 1);
    assert_eq!((world.get(player).position.x, world.get(player).position.y), (3, 2));
    assert_eq!((world.get(block).position.x, world.get(block).position.y), (4, 2));
    assert_eq!(game_turn_input(&mut world, &map, &mut log, Some(Key::Back)), RunState::GameTurn);
    assert_eq!(log.steps, 0);
    assert_eq!(log.energy_used, 0);
    assert_eq!((world.get(player).position.x, world.get(player).position.y), (2, 2));
    assert_eq!((world.get(block).position.x, world.get(block).position.y), (3, 2));
    assert_eq!(game_turn_input(&mut world, &map, &mut log, Some(Key::Up)), RunState::GameTurn);
    assert_eq!((world.get(player).position.x, world.get(player).position.y), (2, 1));
    // Against the wall: the turn is over, and nothing was played.
    assert_eq!(game_turn_input(&mut world, &map, &mut log, Some(Key::Up)), RunState::GameTurn);
    assert_eq!(log.steps, 1);
    assert_eq!(game_turn_input(&mut world, &map, &mut log, Some(Key::Space)), RunState::GameTurn);
    assert_eq!(log.steps, 1);
    assert_eq!(
        game_turn_input(&mut world, &map, &mut log, Some(Key::Escape)),
        RunState::MainMenu { menu_selection: MainMenuSelection::Continue }
    );
    assert_eq!(game_turn_input(&mut world, &map, &mut log, Some(Key::Down)), RunState::GameTurn);
    assert_eq!(game_turn_input(&mut world, &map, &mut log, Some(Key::Left)), RunState::GameTurn);
    assert_eq!((world.get(player).position.x, world.get(player).position.y), (1, 2));
    assert_eq!(log.steps, 3);
}
