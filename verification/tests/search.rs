use griphus::ai::{ControlSignal, SearchStatus, AI};
use griphus::map::{TileMap, TileType};
use griphus::systems::settle;
use griphus::turn_history::{TurnState, TurnsHistory};
use griphus::world::World;

fn room(width: i32, height: i32) -> TileMap {
    TileMap::new(1, width, height)
}

fn run(ai: &mut AI, world: &mut World, map: &mut TileMap, log: &mut TurnsHistory, max: usize) -> (SearchStatus, usize) {
    let mut status = ai.play_next_turn(world, map, log, ControlSignal::TogglePause);
    let mut ticks = 1;
    while ticks < max {
        if status == SearchStatus::Solved || status == SearchStatus::Exhausted {
            break;
        }
        status = ai.play_next_turn(world, map, log, ControlSignal::Nothing);
        ticks += 1;
    }
    (status, ticks)
}

#[test]
fn solvable_room_is_solved() {
    let mut map = room(5, 5);
    map.set_tiletype(2, 0, TileType::Exit);
    let mut world = World::new();
    world.spawn_player(2, 2);
    world.spawn_block(3, 2);
    let plate = world.spawn_weight_plate(4, 2);
    world.spawn_door(2, 0, vec![plate]);
    let mut log = TurnsHistory::new();
    settle(&mut world, &mut map, &mut log);
    let mut ai = AI::new(7);
    let (status, ticks) = run(&mut ai, &mut world, &mut map, &mut log, 100_000);
    println!("ticks {} dead {} dup {} sol {}", ticks, ai.dead_ends, ai.duplicates, ai.solutions);
    assert_eq!(status, SearchStatus::Solved);
    assert!(ai.solutions >= 1);
    assert!(ai.finished);
    assert_eq!(log.steps, 0);
    assert_eq!(log.energy_used, 0);
    assert_eq!(log.state, TurnState::Running);
}

#[test]
fn plate_in_the_room_needs_a_push() {
    let mut map = room(7, 5);
    map.set_tiletype(2, 0, TileType::Exit);
    let mut world = World::new();
    let player = world.spawn_player(2, 2);
    let block = world.spawn_block(3, 2);
    let plate = world.spawn_weight_plate(4, 2);
    world.spawn_door(2, 0, vec![plate]);
    let mut log = TurnsHistory::new();
    settle(&mut world, &mut map, &mut log);
    assert!(map.is_blocked(2, 0));
    let mut ai = AI::new(11);
    let (status, ticks) = run(&mut ai, &mut world, &mut map, &mut log, 1_000_000);
    println!("ticks {} dead {} dup {} sol {}", ticks, ai.dead_ends, ai.duplicates, ai.solutions);
    assert_eq!(status, SearchStatus::Solved);
    assert!(ai.solutions >= 1);
    assert_eq!(log.steps, 0);
    assert_eq!(world.get(player).position.x, 2);
    assert_eq!(world.get(player).position.y, 2);
    assert_eq!(world.get(block).position.x, 3);
    assert_eq!(world.get(block).position.y, 2);
}

#[test]
fn unreachable_plate_exhausts_the_search() {
    let mut map = room(7, 5);
    map.set_tiletype(2, 0, TileType::Exit);
    // The plate lies in a pocket closed by walls.
    map.set_tiletype(4, 1, TileType::Wall);
    map.set_tiletype(4, 3, TileType::Wall);
    map.set_tiletype(3, 1, TileType::Wall);
    map.set_tiletype(3, 2, TileType::Wall);
    map.set_tiletype(3, 3, TileType::Wall);
    let mut world = World::new();
    world.spawn_player(1, 2);
    world.spawn_block(2, 2);
    let plate = world.spawn_weight_plate(4, 2);
    world.spawn_door(2, 0, vec![plate]);
    let mut log = TurnsHistory::new();
    settle(&mut world, &mut map, &mut log);
    let mut ai = AI::new(3);
    let (status, ticks) = run(&mut ai, &mut world, &mut map, &mut log, 1_000_000);
    println!("ticks {} dead {} dup {} sol {}", ticks, ai.dead_ends, ai.duplicates, ai.solutions);
    assert_eq!(status, SearchStatus::Exhausted);
    assert_eq!(ai.solutions, 0);
    assert_eq!(log.steps, 0);
}

fn push_puzzle() -> (World, TileMap, TurnsHistory) {
    let mut map = room(7, 5);
    map.set_tiletype(2, 0, TileType::Exit);
    let mut world = World::new();
    world.spawn_player(2, 2);
    world.spawn_block(3, 2);
    let plate = world.spawn_weight_plate(4, 2);
    world.spawn_door(2, 0, vec![plate]);
    let mut log = TurnsHistory::new();
    settle(&mut world, &mut map, &mut log);
    (world, map, log)
}

#[test]
fn a_new_controller_waits() {
    let (mut world, mut map, mut log) = push_puzzle();
    let mut ai = AI::new(1);
    assert!(ai.paused && ai.show && !ai.finished);
    assert_eq!(ai.get_status(), SearchStatus::Paused);
    for _ in 0..5 {
        let status = ai.play_next_turn(&mut world, &mut map, &mut log, ControlSignal::Nothing);
        assert_eq!(status, SearchStatus::Paused);
    }
    assert_eq!(ai.searches, 0);
    assert_eq!(ai.seen.get_size(), 0);
    assert_eq!(log.steps, 0);
    assert!(ai.history.possibilities.is_empty());
    let status = ai.play_next_turn(&mut world, &mut map, &mut log, ControlSignal::Abort);
    assert_eq!(status, SearchStatus::Paused);
    let status = ai.play_next_turn(&mut world, &mut map, &mut log, ControlSignal::ToggleDisplay);
    assert_eq!(status, SearchStatus::Paused);
    assert!(!ai.show);
    let status = ai.play_next_turn(&mut world, &mut map, &mut log, ControlSignal::ToggleDisplay);
    assert_eq!(status, SearchStatus::Paused);
    assert!(ai.show);
}

#[test]
fn a_tick_does_one_unit_of_work() {
    let (mut world, mut map, mut log) = push_puzzle();
    let mut ai = AI::new(1);
    // Resume: the signal is taken after the work, and a paused controller
    // does none.
    let status = ai.play_next_turn(&mut world, &mut map, &mut log, ControlSignal::TogglePause);
    assert_eq!(status, SearchStatus::Searching);
    assert_eq!(ai.searches, 0);
    // A search step: the state is recorded, a frame is pushed and a
    // candidate is taken off it.
    let status = ai.play_next_turn(&mut world, &mut map, &mut log, ControlSignal::Nothing);
    assert_eq!(status, SearchStatus::Searching);
    assert_eq!(ai.searches, 1);
    assert_eq!(ai.seen.get_size(), 1);
    assert_eq!(ai.history.possibilities.len(), 1);
    assert_eq!(ai.history.possibilities[0].step, 0);
    assert_eq!(log.steps, 0);
    let pending = ai.sub_actions.len();
    assert!(pending >= 1);
    // The exit is closed, so the four pushes of the block are all there
    // is.
    assert_eq!(ai.history.possibilities[0].candidates.len(), 3);
    // One turn of the candidate.
    let status = ai.play_next_turn(&mut world, &mut map, &mut log, ControlSignal::Nothing);
    assert_eq!(status, SearchStatus::Searching);
    assert_eq!(ai.searches, 1);
    assert_eq!(log.steps, 1);
    assert_eq!(ai.sub_actions.len(), pending - 1);
}

#[test]
fn a_pause_keeps_the_pending_turns() {
    let (mut world, mut map, mut log) = push_puzzle();
    let mut ai = AI::new(5);
    ai.play_next_turn(&mut world, &mut map, &mut log, ControlSignal::TogglePause);
    let status = ai.play_next_turn(&mut world, &mut map, &mut log, ControlSignal::TogglePause);
    assert_eq!(status, SearchStatus::Paused);
    let pending = ai.sub_actions.clone();
    let tested = ai.tested_action;
    let steps = log.steps;
    for _ in 0..4 {
        ai.play_next_turn(&mut world, &mut map, &mut log, ControlSignal::Nothing);
    }
    assert_eq!(ai.sub_actions, pending);
    assert_eq!(ai.tested_action, tested);
    assert_eq!(log.steps, steps);
    assert_eq!(ai.searches, 1);
    let status = ai.play_next_turn(&mut world, &mut map, &mut log, ControlSignal::TogglePause);
    assert_eq!(status, SearchStatus::Searching);
    assert_eq!(ai.searches, 0);
    assert_eq!(ai.sub_actions, pending);
}

fn trace(seed: u64, ticks: usize) -> Vec<(u64, i32, usize)> {
    let (mut world, mut map, mut log) = push_puzzle();
    let mut ai = AI::new(seed);
    ai.play_next_turn(&mut world, &mut map, &mut log, ControlSignal::TogglePause);
    let mut out = vec![];
    for _ in 0..ticks {
        ai.play_next_turn(&mut world, &mut map, &mut log, ControlSignal::Nothing);
        out.push((ai.dead_ends, log.steps, ai.seen.get_size()));
    }
    out
}

#[test]
fn the_seed_fixes_the_search() {
    assert_eq!(trace(42, 300), trace(42, 300));
    assert_eq!(trace(7, 300), trace(7, 300));
}

#[test]
fn candidates_are_tried_in_shuffled_order() {
    // Unshuffled, every search would run alike.
    let first = trace(0, 120);
    let mut differs = false;
    for seed in 1..20 {
        if trace(seed, 120) != first {
            differs = true;
        }
    }
    assert!(differs);
}

#[test]
fn every_seed_solves_the_puzzle_and_restores_the_world() {
    for seed in 0..25 {
        let (mut world, mut map, mut log) = push_puzzle();
        let mut ai = AI::new(seed);
        let (status, _) = run(&mut ai, &mut world, &mut map, &mut log, 1_000_000);
        assert_eq!(status, SearchStatus::Solved);
        assert!(ai.solutions >= 1);
        assert!(ai.paused && ai.finished);
        assert!(ai.history.possibilities.is_empty());
        assert_eq!(log.steps, 0);
        assert_eq!(log.energy_used, 0);
        assert_eq!(world.get(griphus::components::Entity(0)).position.x, 2);
        assert_eq!(world.get(griphus::components::Entity(0)).position.y, 2);
        assert_eq!(world.get(griphus::components::Entity(1)).position.x, 3);
        assert_eq!(world.get(griphus::components::Entity(1)).position.y, 2);
        assert!(map.is_blocked(2, 0));
    }
}

#[test]
fn a_door_without_activations_exhausts_the_search() {
    let mut map = room(6, 5);
    map.set_tiletype(2, 0, TileType::Exit);
    let mut world = World::new();
    world.spawn_player(2, 2);
    world.spawn_block(3, 2);
    world.spawn_door(2, 0, vec![]);
    let mut log = TurnsHistory::new();
    settle(&mut world, &mut map, &mut log);
    let mut ai = AI::new(9);
    let (status, _) = run(&mut ai, &mut world, &mut map, &mut log, 1_000_000);
    assert_eq!(status, SearchStatus::Exhausted);
    assert_eq!(ai.solutions, 0);
    assert!(ai.dead_ends + ai.duplicates > 0);
    assert_eq!(log.steps, 0);
}

#[test]
fn a_world_without_a_player_is_exhausted_at_once() {
    let mut map = room(5, 5);
    let mut world = World::new();
    world.spawn_block(2, 2);
    let mut log = TurnsHistory::new();
    settle(&mut world, &mut map, &mut log);
    let mut ai = AI::new(9);
    let (status, ticks) = run(&mut ai, &mut world, &mut map, &mut log, 100);
    assert_eq!(status, SearchStatus::Exhausted);
    assert_eq!(ticks, 2);
    assert_eq!(ai.dead_ends, 1);
    assert_eq!(ai.seen.get_size(), 1);
}

#[test]
fn a_search_with_a_reflector_and_a_receptor() {
    let text = b"
###E###
#@....#
#..\\.o#
#.....#
#..n..#
#######
";
    let (mut world, mut map) = griphus::level::load_level_from_text(1, text).unwrap();
    let mut log = TurnsHistory::new();
    settle(&mut world, &mut map, &mut log);
    assert!(map.is_blocked(3, 0));
    let mut ai = AI::new(4);
    let (status, _) = run(&mut ai, &mut world, &mut map, &mut log, 5_000_000);
    assert_eq!(status, SearchStatus::Solved);
    assert!(ai.solutions >= 1);
    assert_eq!(log.steps, 0);
    assert_eq!(log.energy_used, 0);
    assert!(map.is_blocked(3, 0));
    assert!(map.is_lasered(1, 2));
    assert!(!map.is_lasered(4, 2));
}
