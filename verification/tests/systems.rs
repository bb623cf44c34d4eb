use griphus::components::{
    Activable, ActivationKind, Actuator, BlocksTile, Cardinal, Entity, Laser, Movable, Position,
    ReflectsLaser,
};
use griphus::map::{TileMap, TileType};
use griphus::systems::activable::activable_system;
use griphus::systems::door::door_system;
use griphus::systems::laser::{laser_system, reflector_actuation_system};
use griphus::systems::level_end::level_end_system;
use griphus::systems::map_indexing::map_indexing_system;
use griphus::systems::{run_systems, settle};
use griphus::turn_history::{Action, TurnState, TurnsHistory};
use griphus::world::{EntityData, World};

fn bare(x: i32, y: i32) -> EntityData {
    EntityData::new(Position { x, y })
}

fn lasered(map: &TileMap) -> Vec<(i32, i32, bool, bool)> {
    let mut out = vec![];
    for y in 0..map.height() {
        for x in 0..map.width() {
            if map.is_lasered(x, y) {
                out.push((x, y, map.is_lasered_vertical(x, y), map.is_lasered_horizontal(x, y)));
            }
        }
    }
    out
}

#[test]
fn indexing_lists_entities_and_blocks_tiles() {
    let mut map = TileMap::new(1, 6, 5);
    map.set_blocked(2, 2);
    map.add_content(2, 2, Entity(9));
    let mut world = World::new();
    let player = world.spawn_player(1, 1);
    let plate = world.spawn_weight_plate(3, 2);
    let block = world.spawn_block(3, 2);
    let door = world.spawn_door(4, 3, vec![plate]);
    let outside = world.spawn_block(7, 7);
    map_indexing_system(&world, &mut map);
    assert_eq!(map.iter_content(1, 1), &vec![player]);
    assert_eq!(map.iter_content(3, 2), &vec![plate, block]);
    assert_eq!(map.iter_content(4, 3), &vec![door]);
    assert!(map.iter_content(2, 2).is_empty());
    assert!(outside.0 == 4);
    for y in 0..5 {
        for x in 0..6 {
            let wall = x == 0 || y == 0 || x == 5 || y == 4;
            let expected = wall || (x, y) == (3, 2) || (x, y) == (4, 3);
            assert_eq!(map.is_blocked(x, y), expected, "tile {} {}", x, y);
        }
    }
}

#[test]
fn an_open_door_does_not_block() {
    let mut map = TileMap::new(1, 6, 5);
    let mut world = World::new();
    let plate = world.spawn_weight_plate(3, 2);
    let door = world.spawn_door(4, 3, vec![plate]);
    world.set_opened(door, true);
    map_indexing_system(&world, &mut map);
    assert!(!map.is_blocked(4, 3));
    world.set_opened(door, false);
    map_indexing_system(&world, &mut map);
    assert!(map.is_blocked(4, 3));
}

#[test]
fn beam_runs_straight_to_the_wall() {
    let mut map = TileMap::new(1, 7, 5);
    let mut world = World::new();
    world.spawn_laser(2, 2, Cardinal::E);
    map_indexing_system(&world, &mut map);
    laser_system(&world, &mut map);
    assert_eq!(
        lasered(&map),
        vec![(3, 2, false, true), (4, 2, false, true), (5, 2, false, true), (6, 2, false, true)]
    );
}

#[test]
fn beam_stops_at_what_blocks_lasers() {
    let mut map = TileMap::new(1, 7, 5);
    let mut world = World::new();
    world.spawn_laser(1, 1, Cardinal::S);
    world.spawn_block(1, 3);
    world.spawn_laser(5, 3, Cardinal::N);
    world.spawn_player(5, 2);
    map_indexing_system(&world, &mut map);
    laser_system(&world, &mut map);
    assert_eq!(
        lasered(&map),
        vec![(5, 0, true, false), (5, 1, true, false), (1, 2, true, false), (5, 2, true, false), (1, 3, true, false)]
    );
}

#[test]
fn beam_turns_at_reflectors() {
    let mut map = TileMap::new(1, 7, 7);
    let mut world = World::new();
    world.spawn_laser(1, 5, Cardinal::E);
    world.spawn_laser_reflector(3, 5, Cardinal::NE);
    world.spawn_laser_reflector(3, 2, Cardinal::NW);
    map_indexing_system(&world, &mut map);
    laser_system(&world, &mut map);
    // East to the first reflector, north to the second, west to the wall.
    assert_eq!(
        lasered(&map),
        vec![
            (0, 2, false, true),
            (1, 2, false, true),
            (2, 2, false, true),
            (3, 2, true, false),
            (3, 3, true, false),
            (3, 4, true, false),
            (2, 5, false, true),
            (3, 5, false, true),
        ]
    );
}

#[test]
fn beam_in_a_ring_of_reflectors_ends() {
    let mut map = TileMap::new(1, 6, 5);
    let mut world = World::new();
    // An emitter that lets beams through, on the ring itself.
    world.spawn(EntityData { laser: Some(Laser { direction: Cardinal::E }), ..bare(2, 1) });
    world.spawn_laser_reflector(4, 1, Cardinal::NW);
    world.spawn_laser_reflector(4, 3, Cardinal::NE);
    world.spawn_laser_reflector(1, 3, Cardinal::NW);
    world.spawn_laser_reflector(1, 1, Cardinal::NE);
    map_indexing_system(&world, &mut map);
    laser_system(&world, &mut map);
    assert_eq!(
        lasered(&map),
        vec![
            (1, 1, true, false),
            (2, 1, false, true),
            (3, 1, false, true),
            (4, 1, false, true),
            (1, 2, true, false),
            (4, 2, true, false),
            (1, 3, false, true),
            (2, 3, false, true),
            (3, 3, false, true),
            (4, 3, true, false),
        ]
    );
}

#[test]
fn two_beams_may_cross() {
    let mut map = TileMap::new(1, 5, 5);
    let mut world = World::new();
    world.spawn_laser(0, 2, Cardinal::E);
    world.spawn_laser(2, 0, Cardinal::S);
    map_indexing_system(&world, &mut map);
    laser_system(&world, &mut map);
    assert!(map.is_lasered_vertical(2, 2) && map.is_lasered_horizontal(2, 2));
    assert!(map.is_lasered_horizontal(1, 2) && !map.is_lasered_vertical(1, 2));
    assert!(map.is_lasered_vertical(2, 1) && !map.is_lasered_horizontal(2, 1));
    assert_eq!(lasered(&map).len(), 7);
}

#[test]
fn beam_from_outside_the_grid() {
    let mut map = TileMap::new(1, 4, 4);
    let mut world = World::new();
    world.spawn_laser(-1, 1, Cardinal::E);
    world.spawn_laser(-3, 2, Cardinal::E);
    world.spawn_laser(i32::MAX, 1, Cardinal::E);
    map_indexing_system(&world, &mut map);
    laser_system(&world, &mut map);
    assert_eq!(lasered(&map), vec![(0, 1, false, true)]);
}

#[test]
fn laser_system_forgets_the_old_beams() {
    let mut map = TileMap::new(1, 5, 5);
    map.set_lasered(2, 2, Cardinal::N);
    let world = World::new();
    laser_system(&world, &mut map);
    assert!(lasered(&map).is_empty());
}

#[test]
fn pulses_flip_reflectors_once() {
    let mut world = World::new();
    let a = world.spawn_laser_reflector(1, 1, Cardinal::NE);
    let b = world.spawn_laser_reflector(2, 1, Cardinal::NW);
    let c = world.spawn_laser_reflector(3, 1, Cardinal::NE);
    let block = world.spawn_block(4, 1);
    let mut log = TurnsHistory::new();
    log.play_turn(&mut world, vec![Action::Actuates(a), Action::Actuates(b), Action::Actuates(block)]);
    reflector_actuation_system(&mut world);
    assert_eq!(world.get(a).reflector.unwrap().orientation, Cardinal::NW);
    assert_eq!(world.get(b).reflector.unwrap().orientation, Cardinal::NE);
    assert_eq!(world.get(c).reflector.unwrap().orientation, Cardinal::NE);
    for e in [a, b, c, block] {
        assert!(world.get(e).actuated.is_none());
    }
    reflector_actuation_system(&mut world);
    assert_eq!(world.get(a).reflector.unwrap().orientation, Cardinal::NW);
}

#[test]
fn undoing_an_actuation_flips_the_reflector_back() {
    let mut map = TileMap::new(1, 5, 5);
    let mut world = World::new();
    let a = world.spawn_laser_reflector(1, 1, Cardinal::NE);
    let mut log = TurnsHistory::new();
    log.play_turn(&mut world, vec![Action::Actuates(a)]);
    settle(&mut world, &mut map, &mut log);
    assert_eq!(world.get(a).reflector.unwrap().orientation, Cardinal::NW);
    log.play_turn(&mut world, vec![Action::Moves(a, (1, 1), (2, 1))]);
    settle(&mut world, &mut map, &mut log);
    log.play_turn(&mut world, vec![Action::Actuates(a)]);
    settle(&mut world, &mut map, &mut log);
    assert_eq!(world.get(a).reflector.unwrap().orientation, Cardinal::NE);
    // Three turns taken back at once, two of them actuations.
    log.undo(3, &mut world);
    settle(&mut world, &mut map, &mut log);
    assert_eq!(world.get(a).reflector.unwrap().orientation, Cardinal::NE);
    assert_eq!(world.get(a).position, Position { x: 1, y: 1 });
    assert_eq!(log.steps, 0);
}

#[test]
fn plates_and_receptors_follow_the_layers() {
    let mut map = TileMap::new(1, 6, 5);
    let mut world = World::new();
    let pressed = world.spawn_weight_plate(2, 2);
    let free = world.spawn_weight_plate(3, 2);
    let lit = world.spawn_laser_receptor(4, 1);
    let dark = world.spawn_laser_receptor(4, 3);
    map.set_blocked(2, 2);
    map.set_lasered(4, 1, Cardinal::E);
    activable_system(&mut world, &map);
    assert_eq!(world.get(pressed).activable, Some(Activable { active: true, kind: ActivationKind::Weight }));
    assert_eq!(world.get(free).activable, Some(Activable { active: false, kind: ActivationKind::Weight }));
    assert_eq!(world.get(lit).activable, Some(Activable { active: true, kind: ActivationKind::Laser }));
    assert_eq!(world.get(dark).activable, Some(Activable { active: false, kind: ActivationKind::Laser }));
    map.reset_blocked();
    map.reset_lasered();
    activable_system(&mut world, &map);
    assert!(!world.get(pressed).activable.unwrap().active);
    assert!(!world.get(lit).activable.unwrap().active);
}

#[test]
fn door_opens_when_all_its_activations_are_active() {
    let mut world = World::new();
    let a = world.spawn_weight_plate(1, 1);
    let b = world.spawn_laser_receptor(2, 1);
    let both = world.spawn_door(3, 1, vec![a, b]);
    let one = world.spawn_door(4, 1, vec![a]);
    door_system(&mut world);
    assert!(!world.get(both).door.as_ref().unwrap().opened);
    assert!(!world.get(one).door.as_ref().unwrap().opened);
    world.set_active(a, true);
    door_system(&mut world);
    assert!(!world.get(both).door.as_ref().unwrap().opened);
    assert!(world.get(one).door.as_ref().unwrap().opened);
    world.set_active(b, true);
    door_system(&mut world);
    assert!(world.get(both).door.as_ref().unwrap().opened);
    world.set_active(a, false);
    door_system(&mut world);
    assert!(!world.get(both).door.as_ref().unwrap().opened);
    assert!(!world.get(one).door.as_ref().unwrap().opened);
    assert_eq!(world.get(both).door.as_ref().unwrap().activations, vec![a, b]);
}

#[test]
fn door_without_activations_never_opens() {
    let mut world = World::new();
    let door = world.spawn_door(3, 1, vec![]);
    door_system(&mut world);
    assert!(!world.get(door).door.as_ref().unwrap().opened);
    world.set_opened(door, true);
    door_system(&mut world);
    assert!(!world.get(door).door.as_ref().unwrap().opened);
}

#[test]
fn level_end_tells_dead_from_out() {
    let mut map = TileMap::new(1, 6, 5);
    map.set_tiletype(3, 0, TileType::Exit);
    map.set_tiletype(4, 0, TileType::Exit);
    map.set_lasered(2, 2, Cardinal::N);
    map.set_lasered(4, 0, Cardinal::N);
    let mut world = World::new();
    let player = world.spawn_player(1, 1);
    let mut log = TurnsHistory::new();
    level_end_system(&world, &map, &mut log);
    assert_eq!(log.state, TurnState::Running);
    world.set_position(player, Position { x: 3, y: 0 });
    level_end_system(&world, &map, &mut log);
    assert_eq!(log.state, TurnState::PlayerAtExit);
    // The state stays until a turn is taken back.
    world.set_position(player, Position { x: 1, y: 1 });
    level_end_system(&world, &map, &mut log);
    assert_eq!(log.state, TurnState::PlayerAtExit);
    world.set_position(player, Position { x: 2, y: 2 });
    level_end_system(&world, &map, &mut log);
    assert_eq!(log.state, TurnState::PlayerDead);
    // A lasered exit kills.
    log.state = TurnState::Running;
    world.set_position(player, Position { x: 4, y: 0 });
    level_end_system(&world, &map, &mut log);
    assert_eq!(log.state, TurnState::PlayerDead);
    assert_eq!(log.steps, 0);
}

#[test]
fn a_pushed_block_opens_the_door_after_the_systems_have_run() {
    let mut map = TileMap::new(1, 7, 5);
    map.set_tiletype(2, 0, TileType::Exit);
    let mut world = World::new();
    world.spawn_player(2, 2);
    let block = world.spawn_block(3, 2);
    let plate = world.spawn_weight_plate(4, 2);
    let door = world.spawn_door(2, 0, vec![plate]);
    let mut log = TurnsHistory::new();
    run_systems(&mut world, &mut map, &mut log);
    assert!(map.is_blocked(2, 0));
    assert!(!world.get(plate).activable.unwrap().active);
    world.set_position(block, Position { x: 4, y: 2 });
    run_systems(&mut world, &mut map, &mut log);
    assert!(world.get(plate).activable.unwrap().active);
    assert!(world.get(door).door.as_ref().unwrap().opened);
    // The tile of the door is freed by the next run.
    assert!(map.is_blocked(2, 0));
    run_systems(&mut world, &mut map, &mut log);
    assert!(!map.is_blocked(2, 0));
    world.set_position(block, Position { x: 3, y: 2 });
    settle(&mut world, &mut map, &mut log);
    assert!(!world.get(door).door.as_ref().unwrap().opened);
    assert!(map.is_blocked(2, 0));
}

#[test]
fn a_reflector_lights_a_receptor() {
    let mut map = TileMap::new(1, 7, 7);
    let mut world = World::new();
    world.spawn_laser(1, 5, Cardinal::E);
    let reflector = world.spawn_laser_reflector(3, 5, Cardinal::NW);
    let receptor = world.spawn_laser_receptor(3, 1);
    let mut log = TurnsHistory::new();
    settle(&mut world, &mut map, &mut log);
    // Turned south-east, the beam misses the receptor.
    assert!(!world.get(receptor).activable.unwrap().active);
    assert!(map.is_lasered(3, 6));
    log.play_turn(&mut world, vec![Action::Actuates(reflector)]);
    settle(&mut world, &mut map, &mut log);
    assert_eq!(world.get(reflector).reflector.unwrap().orientation, Cardinal::NE);
    assert!(world.get(receptor).activable.unwrap().active);
    assert!(!map.is_lasered(3, 6));
    assert!(map.is_lasered_vertical(3, 1));
    assert!(!map.is_lasered(3, 0));
}

#[test]
fn components_can_be_put_together_freely() {
    let mut world = World::new();
    let e = world.spawn(EntityData {
        blocks_tile: Some(BlocksTile {}),
        movable: Some(Movable {}),
        actuator: Some(Actuator {}),
        reflector: Some(ReflectsLaser { orientation: Cardinal::NW }),
        ..bare(1, 2)
    });
    assert_eq!(e, Entity(0));
    assert_eq!(world.len(), 1);
    assert_eq!(world.get(e).position, Position { x: 1, y: 2 });
}
