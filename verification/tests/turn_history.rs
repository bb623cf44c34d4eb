use griphus::components::{Cardinal, Entity};
use griphus::turn_history::{Action, TurnState, TurnsHistory};
use griphus::world::World;

fn world() -> (World, Entity, Entity, Entity) {
    let mut world = World::new();
    let player = world.spawn_player(2, 2);
    let block = world.spawn_block(3, 2);
    let reflector = world.spawn_laser_reflector(5, 5, Cardinal::NE);
    (world, player, block, reflector)
}

fn place(world: &World, e: Entity) -> (i32, i32) {
    (world.get(e).position.x, world.get(e).position.y)
}

#[test]
fn new_history_is_empty() {
    let log = TurnsHistory::new();
    assert_eq!(log.steps, 0);
    assert_eq!(log.energy_used, 0);
    assert_eq!(log.state, TurnState::Running);
    assert!(log.history.is_empty());
}

#[test]
fn play_turn_applies_every_action() {
    let (mut world, player, block, reflector) = world();
    let mut log = TurnsHistory::new();
    let turn = vec![
        Action::Moves(player, (2, 2), (3, 2)),
        Action::Moves(block, (3, 2), (4, 2)),
        Action::UseEnergy(1),
        Action::Actuates(reflector),
        Action::UseEnergy(2),
    ];
    assert!(log.accepts(&world, &turn));
    log.play_turn(&mut world, turn.clone());
    assert_eq!(place(&world, player), (3, 2));
    assert_eq!(place(&world, block), (4, 2));
    assert!(world.get(reflector).actuated.is_some());
    assert_eq!(world.get(reflector).reflector.unwrap().orientation, Cardinal::NE);
    assert_eq!(log.steps, 1);
    assert_eq!(log.energy_used, 3);
    assert_eq!(log.history, vec![turn]);
}

#[test]
fn undo_last_turn_inverts_play_turn() {
    let (mut world, player, block, reflector) = world();
    let mut log = TurnsHistory::new();
    log.play_turn(&mut world, vec![Action::UseEnergy(5)]);
    let turn = vec![
        Action::Moves(player, (2, 2), (3, 2)),
        Action::Moves(block, (3, 2), (4, 2)),
        Action::Moves(block, (4, 2), (5, 2)),
        Action::UseEnergy(1),
        Action::Actuates(reflector),
    ];
    log.play_turn(&mut world, turn);
    assert_eq!(place(&world, block), (5, 2));
    log.state = TurnState::PlayerDead;
    log.undo_last_turn(&mut world);
    assert_eq!(place(&world, player), (2, 2));
    assert_eq!(place(&world, block), (3, 2));
    assert!(world.get(reflector).actuated.is_none());
    assert_eq!(world.get(reflector).reflector.unwrap().orientation, Cardinal::NE);
    assert_eq!(log.steps, 1);
    assert_eq!(log.energy_used, 5);
    assert_eq!(log.state, TurnState::Running);
    assert_eq!(log.history, vec![vec![Action::UseEnergy(5)]]);
}

#[test]
fn undo_on_an_empty_history_does_nothing() {
    let (mut world, player, _, _) = world();
    let mut log = TurnsHistory::new();
    log.state = TurnState::PlayerAtExit;
    log.undo_last_turn(&mut world);
    assert_eq!(log.steps, 0);
    assert_eq!(log.energy_used, 0);
    assert_eq!(log.state, TurnState::PlayerAtExit);
    assert_eq!(place(&world, player), (2, 2));
}

#[test]
fn steps_and_energy_are_accounted_for() {
    let (mut world, player, _, _) = world();
    let mut log = TurnsHistory::new();
    let n = 7;
    let e = 3;
    for i in 0..n {
        let turn = vec![Action::Moves(player, (2 + i, 2), (3 + i, 2)), Action::UseEnergy(e)];
        log.play_turn(&mut world, turn);
    }
    assert_eq!(log.steps, n);
    assert_eq!(log.energy_used, n * e);
    assert_eq!(place(&world, player), (2 + n, 2));
    log.undo(n, &mut world);
    assert_eq!(log.steps, 0);
    assert_eq!(log.energy_used, 0);
    assert_eq!(place(&world, player), (2, 2));
    assert!(log.history.is_empty());
}

#[test]
fn undo_takes_back_the_most_recent_turns() {
    let (mut world, player, _, _) = world();
    let mut log = TurnsHistory::new();
    for i in 0..5 {
        log.play_turn(&mut world, vec![Action::Moves(player, (2 + i, 2), (3 + i, 2)), Action::UseEnergy(1)]);
    }
    log.undo(2, &mut world);
    assert_eq!(log.steps, 3);
    assert_eq!(log.energy_used, 3);
    assert_eq!(place(&world, player), (5, 2));
    log.undo(0, &mut world);
    assert_eq!(log.steps, 3);
    log.undo(-4, &mut world);
    assert_eq!(log.steps, 3);
    assert_eq!(place(&world, player), (5, 2));
}

#[test]
fn undo_stops_when_the_history_is_exhausted() {
    let (mut world, player, _, _) = world();
    let mut log = TurnsHistory::new();
    for i in 0..3 {
        log.play_turn(&mut world, vec![Action::Moves(player, (2 + i, 2), (3 + i, 2))]);
    }
    log.undo(10, &mut world);
    assert_eq!(log.steps, 0);
    assert_eq!(log.energy_used, 0);
    assert_eq!(place(&world, player), (2, 2));
}

#[test]
fn two_pulses_cancel() {
    let (mut world, _, _, reflector) = world();
    let mut log = TurnsHistory::new();
    log.play_turn(&mut world, vec![Action::Actuates(reflector)]);
    assert!(world.get(reflector).actuated.is_some());
    log.play_turn(&mut world, vec![Action::Actuates(reflector)]);
    assert!(world.get(reflector).actuated.is_none());
    log.undo(2, &mut world);
    assert!(world.get(reflector).actuated.is_none());
}

#[test]
fn negative_energy_is_given_back() {
    let (mut world, _, _, _) = world();
    let mut log = TurnsHistory::new();
    log.play_turn(&mut world, vec![Action::UseEnergy(-4), Action::UseEnergy(1)]);
    assert_eq!(log.energy_used, -3);
    log.undo_last_turn(&mut world);
    assert_eq!(log.energy_used, 0);
}

#[test]
fn accepts_refuses_what_play_turn_cannot_take() {
    let (world, player, _, _) = world();
    let mut log = TurnsHistory::new();
    assert!(log.accepts(&world, &vec![]));
    assert!(log.accepts(&world, &vec![Action::Moves(player, (0, 0), (9, 9))]));
    assert!(!log.accepts(&world, &vec![Action::Moves(Entity(3), (0, 0), (1, 1))]));
    assert!(!log.accepts(&world, &vec![Action::Actuates(Entity(99))]));
    log.energy_used = i32::MAX - 1;
    assert!(log.accepts(&world, &vec![Action::UseEnergy(1)]));
    assert!(!log.accepts(&world, &vec![Action::UseEnergy(2)]));
    assert!(!log.accepts(&world, &vec![Action::UseEnergy(2), Action::UseEnergy(-2)]));
    assert!(log.accepts(&world, &vec![Action::UseEnergy(-2), Action::UseEnergy(2)]));
    log.energy_used = i32::MIN;
    assert!(!log.accepts(&world, &vec![Action::UseEnergy(-1)]));
    log.energy_used = 0;
    log.steps = i32::MAX;
    assert!(!log.accepts(&world, &vec![]));
}
