use griphus::ai_cache::{same_snapshot, AiStatesCache, Snapshot};
use griphus::components::{Cardinal, Position};
use griphus::turn_history::{Action, TurnsHistory};
use griphus::world::World;

#[test]
fn new_cache_is_empty() {
    let cache = AiStatesCache::new();
    assert_eq!(cache.get_size(), 0);
}

#[test]
fn first_presentation_is_new_and_every_later_one_is_seen() {
    let mut world = World::new();
    world.spawn_player(1, 1);
    world.spawn_block(2, 1);
    let mut cache = AiStatesCache::new();
    assert!(!cache.has_seen(&world));
    assert_eq!(cache.get_size(), 1);
    for _ in 0..3 {
        assert!(cache.has_seen(&world));
        assert_eq!(cache.get_size(), 1);
    }
}

#[test]
fn a_moved_movable_is_another_state() {
    let mut world = World::new();
    let player = world.spawn_player(1, 1);
    let block = world.spawn_block(2, 1);
    let mut cache = AiStatesCache::new();
    assert!(!cache.has_seen(&world));
    world.set_position(block, Position { x: 3, y: 1 });
    assert!(!cache.has_seen(&world));
    world.set_position(player, Position { x: 1, y: 2 });
    assert!(!cache.has_seen(&world));
    assert_eq!(cache.get_size(), 3);
    world.set_position(player, Position { x: 1, y: 1 });
    assert!(cache.has_seen(&world));
    world.set_position(block, Position { x: 2, y: 1 });
    assert!(cache.has_seen(&world));
    assert_eq!(cache.get_size(), 3);
}

#[test]
fn a_turned_reflector_is_another_state() {
    let mut world = World::new();
    world.spawn_player(1, 1);
    let reflector = world.spawn_laser_reflector(3, 3, Cardinal::NE);
    let mut cache = AiStatesCache::new();
    assert!(!cache.has_seen(&world));
    world.set_orientation(reflector, Cardinal::NW);
    assert!(!cache.has_seen(&world));
    world.set_orientation(reflector, Cardinal::NE);
    assert!(cache.has_seen(&world));
    assert_eq!(cache.get_size(), 2);
}

#[test]
fn a_pending_pulse_counts_as_the_turn_it_will_make() {
    let mut world = World::new();
    world.spawn_player(1, 1);
    let reflector = world.spawn_laser_reflector(3, 3, Cardinal::NE);
    let mut log = TurnsHistory::new();
    let mut cache = AiStatesCache::new();
    assert!(!cache.has_seen(&world));
    log.play_turn(&mut world, vec![Action::Actuates(reflector)]);
    assert!(!cache.has_seen(&world));
    world.set_actuated(reflector, None);
    world.set_orientation(reflector, Cardinal::NW);
    assert!(cache.has_seen(&world));
}

#[test]
fn entities_that_are_not_tracked_do_not_count() {
    let mut world = World::new();
    world.spawn_player(1, 1);
    let plate = world.spawn_weight_plate(2, 2);
    let mut cache = AiStatesCache::new();
    assert!(!cache.has_seen(&world));
    world.set_active(plate, true);
    world.set_position(plate, Position { x: 4, y: 4 });
    assert!(cache.has_seen(&world));
}

#[test]
fn snapshots_are_compared_exactly() {
    let p = |x, y| Position { x, y };
    let a = Snapshot { movables: vec![p(1, 1), p(2, 2)], actuators: vec![(p(3, 3), Some(Cardinal::NE))] };
    let same = Snapshot { movables: vec![p(1, 1), p(2, 2)], actuators: vec![(p(3, 3), Some(Cardinal::NE))] };
    let moved = Snapshot { movables: vec![p(1, 1), p(2, 3)], actuators: vec![(p(3, 3), Some(Cardinal::NE))] };
    let swapped = Snapshot { movables: vec![p(2, 2), p(1, 1)], actuators: vec![(p(3, 3), Some(Cardinal::NE))] };
    let turned = Snapshot { movables: vec![p(1, 1), p(2, 2)], actuators: vec![(p(3, 3), Some(Cardinal::NW))] };
    let bare = Snapshot { movables: vec![p(1, 1), p(2, 2)], actuators: vec![(p(3, 3), None)] };
    let shorter = Snapshot { movables: vec![p(1, 1)], actuators: vec![(p(3, 3), Some(Cardinal::NE))] };
    assert!(same_snapshot(&a, &same));
    assert!(same_snapshot(&a, &a));
    assert!(!same_snapshot(&a, &moved));
    assert!(!same_snapshot(&a, &swapped));
    assert!(!same_snapshot(&a, &turned));
    assert!(!same_snapshot(&a, &bare));
    assert!(!same_snapshot(&a, &shorter));
}
