use griphus::ai::candidates::{list_goals, plan, Goal};
use griphus::ai::{AiAction, AiSubAction, ControlSignal, AI};
use griphus::components::Cardinal;
use griphus::map::{TileMap, TileType};
use griphus::systems::settle;
use griphus::turn_history::{TurnState, TurnsHistory};
use griphus::world::World;

use AiSubAction::{Actuate, Move};
use Cardinal::{E, N, S, W};

fn level(text: &[u8]) -> (World, TileMap, TurnsHistory) {
    let (mut world, mut map) = griphus::level::load_level_from_text(1, text).unwrap();
    let mut log = TurnsHistory::new();
    settle(&mut world, &mut map, &mut log);
    (world, map, log)
}

fn actions(goals: &[Goal]) -> Vec<(AiAction, (i32, i32), Option<AiSubAction>)> {
    goals.iter().map(|g| (g.action, g.to, g.last)).collect()
}

#[test]
fn goals_are_exits_then_pushes_then_actuations() {
    let (world, map, _) = level(b"###E###\n#.....#\n#@.b./#\n#.....#\n#######");
    assert_eq!(
        actions(&list_goals(&world, &map)),
        vec![
            (AiAction::ExitTo(3, 0), (3, 0), None),
            (AiAction::PushAt(3, 2, N), (3, 3), Some(Move(N))),
            (AiAction::PushAt(3, 2, S), (3, 1), Some(Move(S))),
            (AiAction::PushAt(3, 2, W), (4, 2), Some(Move(W))),
            (AiAction::PushAt(3, 2, E), (2, 2), Some(Move(E))),
            (AiAction::PushAt(5, 2, N), (5, 3), Some(Move(N))),
            (AiAction::PushAt(5, 2, S), (5, 1), Some(Move(S))),
            (AiAction::PushAt(5, 2, W), (6, 2), Some(Move(W))),
            (AiAction::ActivateAt(5, 2), (5, 1), Some(Actuate)),
            (AiAction::ActivateAt(5, 2), (5, 3), Some(Actuate)),
            (AiAction::ActivateAt(5, 2), (4, 2), Some(Actuate)),
            (AiAction::ActivateAt(5, 2), (6, 2), Some(Actuate)),
        ]
    );
}

#[test]
fn a_world_without_movables_has_only_exits_for_goals() {
    let (world, map, _) = level(b"#E#E#\n#@.x#\n#####");
    assert_eq!(
        actions(&list_goals(&world, &map)),
        vec![(AiAction::ExitTo(1, 0), (1, 0), None), (AiAction::ExitTo(3, 0), (3, 0), None)]
    );
}

#[test]
fn a_plan_is_a_shortest_walk_and_the_last_turn() {
    let (_, map, _) = level(b"#######\n#.....#\n#@.b..#\n#.....#\n#######");
    let push_west = Goal { action: AiAction::PushAt(3, 2, W), to: (4, 2), last: Some(Move(W)) };
    let (action, turns) = plan(&map, (1, 2), &push_west).unwrap();
    assert_eq!(action, AiAction::PushAt(3, 2, W));
    assert_eq!(turns.len(), 6);
    assert_eq!(turns[5], Move(W));
    let mut at = (1, 2);
    for turn in &turns[..5] {
        match turn {
            Move(d) => {
                let (dx, dy) = d.get_delta_xy();
                at = (at.0 + dx, at.1 + dy);
                assert!(map.is_exit_valid(at.0, at.1));
            }
            Actuate => panic!("a walk has no actuation"),
        }
    }
    assert_eq!(at, (4, 2));
    let push_east = Goal { action: AiAction::PushAt(3, 2, E), to: (2, 2), last: Some(Move(E)) };
    assert_eq!(plan(&map, (1, 2), &push_east), Some((AiAction::PushAt(3, 2, E), vec![Move(E), Move(E)])));
    let here = Goal { action: AiAction::ExitTo(1, 2), to: (1, 2), last: None };
    assert_eq!(plan(&map, (1, 2), &here), Some((AiAction::ExitTo(1, 2), vec![])));
    let blocked = Goal { action: AiAction::ExitTo(3, 2), to: (3, 2), last: None };
    assert_eq!(plan(&map, (1, 2), &blocked), None);
    let outside = Goal { action: AiAction::ActivateAt(0, 2), to: (-1, 2), last: Some(Actuate) };
    assert_eq!(plan(&map, (1, 2), &outside), None);
}

#[test]
fn candidates_are_the_goals_that_can_be_reached() {
    // The block stands in a corridor: the player can get behind it from
    // the west only.
    let (world, map, _) = level(b"#######\n#@.b..#\n#######");
    let ai = AI::new(1);
    assert_eq!(
        ai.find_possible_actions(&world, &map),
        vec![(AiAction::PushAt(3, 1, E), vec![Move(E), Move(E)])]
    );
}

#[test]
fn an_open_exit_is_a_candidate() {
    let (world, map, _) = level(b"###E###\n#.....#\n#@....#\n#######");
    let ai = AI::new(1);
    // A door without activations never opens.
    assert_eq!(ai.find_possible_actions(&world, &map), vec![]);
    let (mut world, mut map) = (world, map);
    map.set_tiletype(5, 0, TileType::Exit);
    let mut log = TurnsHistory::new();
    settle(&mut world, &mut map, &mut log);
    let found = ai.find_possible_actions(&world, &map);
    assert_eq!(found.len(), 1);
    assert_eq!(found[0].0, AiAction::ExitTo(5, 0));
    assert_eq!(found[0].1.len(), 6);
    assert_eq!(found[0].1[5], Move(N));
}

#[test]
fn actuations_are_candidates_from_every_free_side() {
    let (world, map, _) = level(b"#####\n#@..#\n#./.#\n#...#\n#####");
    let ai = AI::new(1);
    let found = ai.find_possible_actions(&world, &map);
    let names: Vec<AiAction> = found.iter().map(|c| c.0).collect();
    assert_eq!(
        names,
        vec![
            AiAction::PushAt(2, 2, N),
            AiAction::PushAt(2, 2, S),
            AiAction::PushAt(2, 2, W),
            AiAction::PushAt(2, 2, E),
            AiAction::ActivateAt(2, 2),
            AiAction::ActivateAt(2, 2),
            AiAction::ActivateAt(2, 2),
            AiAction::ActivateAt(2, 2),
        ]
    );
    let lengths: Vec<usize> = found.iter().map(|c| c.1.len()).collect();
    // Behind the reflector for a push north is the tile south of it, three
    // steps away; and so on.
    assert_eq!(lengths, vec![4, 2, 4, 2, 2, 4, 2, 4]);
    for (action, turns) in found.iter() {
        let last = turns[turns.len() - 1];
        match action {
            AiAction::PushAt(_, _, d) => assert_eq!(last, Move(*d)),
            AiAction::ActivateAt(_, _) => assert_eq!(last, Actuate),
            AiAction::ExitTo(_, _) => panic!("the level has no exit"),
        }
    }
}

#[test]
fn survey_counts_and_lists() {
    let (world, map, log) = level(b"#######\n#@.b..#\n#######");
    let mut ai = AI::new(1);
    let found = ai.survey(&world, &map, &log);
    assert_eq!(found, Some(vec![(AiAction::PushAt(3, 1, E), vec![Move(E), Move(E)])]));
    assert_eq!(ai.searches, 1);
    assert_eq!(ai.start_step, Some(0));
    assert_eq!(ai.seen.get_size(), 1);
    assert_eq!((ai.duplicates, ai.dead_ends), (0, 0));
    assert!(ai.sub_actions_success);
    // The same world again is a duplicate.
    let found = ai.survey(&world, &map, &log);
    assert_eq!(found, None);
    assert_eq!(ai.searches, 2);
    assert_eq!(ai.seen.get_size(), 1);
    assert_eq!((ai.duplicates, ai.dead_ends), (1, 0));
    assert!(!ai.sub_actions_success);
}

#[test]
fn survey_gives_up_on_a_stuck_block() {
    let (world, map, log) = level(b"#######\n#b.@..#\n#.....#\n#######");
    let mut ai = AI::new(1);
    assert_eq!(ai.survey(&world, &map, &log), None);
    assert_eq!((ai.duplicates, ai.dead_ends), (0, 1));
    assert!(!ai.sub_actions_success);
    assert_eq!(ai.seen.get_size(), 1);
}

#[test]
fn pick_next_tries_the_last_candidate_first() {
    let (mut world, mut map, mut log) = level(b"#######\n#.....#\n#@.b..#\n#.....#\n#######");
    let mut ai = AI::new(1);
    let found = ai.survey(&world, &map, &log).unwrap();
    assert_eq!(found.len(), 4);
    let last = found[3].clone();
    let third = found[2].clone();
    ai.pick_next(&mut world, &mut map, &mut log, Some(found));
    assert_eq!(ai.tested_action, last.0);
    assert_eq!(ai.sub_actions, last.1);
    assert_eq!(ai.history.possibilities.len(), 1);
    assert_eq!(ai.history.possibilities[0].step, 0);
    assert_eq!(ai.history.possibilities[0].candidates.len(), 3);
    assert_eq!(log.steps, 0);
    // A failed branch goes on with the candidate before.
    ai.pick_next(&mut world, &mut map, &mut log, None);
    assert_eq!(ai.tested_action, third.0);
    assert_eq!(ai.sub_actions, third.1);
    assert_eq!(ai.history.possibilities[0].candidates.len(), 2);
    assert!(!ai.sub_actions_success);
    assert_eq!(ai.dead_ends, 0);
    // No candidate at all is a dead end.
    ai.pick_next(&mut world, &mut map, &mut log, Some(vec![]));
    assert_eq!(ai.dead_ends, 1);
    assert_eq!(ai.history.possibilities[0].candidates.len(), 1);
    ai.pick_next(&mut world, &mut map, &mut log, None);
    assert_eq!(ai.history.possibilities[0].candidates.len(), 0);
    assert!(!ai.finished);
    ai.pick_next(&mut world, &mut map, &mut log, None);
    assert!(ai.finished && ai.paused);
    assert!(ai.history.possibilities.is_empty());
}

#[test]
fn a_failed_branch_is_taken_back() {
    let (mut world, mut map, mut log) = level(b"#######\n#.....#\n#@.b..#\n#.....#\n#######");
    let mut ai = AI::new(1);
    ai.paused = false;
    let push_east = (AiAction::PushAt(3, 2, E), vec![Move(E), Move(E)]);
    let push_north = (AiAction::PushAt(3, 2, N), vec![Move(S), Move(E), Move(E), Move(N)]);
    ai.start_step = Some(0);
    ai.pick_next(&mut world, &mut map, &mut log, Some(vec![push_north, push_east]));
    ai.play_pending(&mut world, &mut map, &mut log);
    ai.play_pending(&mut world, &mut map, &mut log);
    assert_eq!(log.steps, 2);
    assert_eq!(log.energy_used, 1);
    assert!(ai.sub_actions.is_empty());
    let player = world.get(griphus::components::Entity(0)).position;
    let block = world.get(griphus::components::Entity(1)).position;
    assert_eq!((player.x, player.y, block.x, block.y), (3, 2, 4, 2));
    assert!(map.is_blocked(4, 2) && !map.is_blocked(3, 2));
    ai.pick_next(&mut world, &mut map, &mut log, None);
    assert_eq!(log.steps, 0);
    assert_eq!(log.energy_used, 0);
    let player = world.get(griphus::components::Entity(0)).position;
    let block = world.get(griphus::components::Entity(1)).position;
    assert_eq!((player.x, player.y, block.x, block.y), (1, 2, 3, 2));
    assert!(map.is_blocked(3, 2) && !map.is_blocked(4, 2));
    assert_eq!(ai.tested_action, AiAction::PushAt(3, 2, N));
    assert_eq!(ai.sub_actions.len(), 4);
}

#[test]
fn a_turn_that_changes_nothing_is_a_dead_end() {
    let (mut world, mut map, mut log) = level(b"#####\n#@..#\n#####");
    let mut ai = AI::new(1);
    ai.paused = false;
    ai.sub_actions = vec![Move(N), Move(E)];
    ai.play_pending(&mut world, &mut map, &mut log);
    assert_eq!(log.steps, 0);
    assert_eq!(ai.dead_ends, 1);
    assert!(!ai.sub_actions_success);
    assert!(ai.sub_actions.is_empty());
    ai.sub_actions = vec![Actuate];
    ai.play_pending(&mut world, &mut map, &mut log);
    assert_eq!(ai.dead_ends, 2);
    assert_eq!(log.steps, 0);
}

#[test]
fn dying_counts_as_a_death_and_a_dead_end() {
    // The block shields the player from the beam; pushed away, it does
    // not.
    let (mut world, mut map, mut log) = level(b"#######\n#@b..w#\n#.....#\n#######");
    let mut ai = AI::new(1);
    ai.paused = false;
    assert!(!map.is_lasered(1, 1));
    assert!(map.is_lasered(3, 1));
    // The block cannot be pushed along the beam from the side of the
    // player, but the player can walk into the beam.
    ai.sub_actions = vec![Move(S), Move(E), Move(E), Move(N), Move(W)];
    for _ in 0..3 {
        ai.play_pending(&mut world, &mut map, &mut log);
        assert_eq!(log.state, TurnState::Running);
    }
    ai.play_pending(&mut world, &mut map, &mut log);
    assert_eq!(log.state, TurnState::PlayerDead);
    assert_eq!((ai.deaths, ai.dead_ends, ai.solutions), (1, 1, 0));
    assert!(!ai.sub_actions_success);
    assert!(ai.sub_actions.is_empty());
    assert_eq!(log.steps, 4);
}

#[test]
fn the_search_can_stop_at_the_first_solution() {
    let (mut world, mut map, mut log) =
        level(b"###E###\n#.....#\n#@.b.x#\n#.....#\n#######");
    let mut ai = AI::new(2);
    ai.stop_on_solution = true;
    let mut status = ai.play_next_turn(&mut world, &mut map, &mut log, ControlSignal::TogglePause);
    let mut ticks = 0;
    while status == griphus::ai::SearchStatus::Searching && ticks < 100_000 {
        status = ai.play_next_turn(&mut world, &mut map, &mut log, ControlSignal::Nothing);
        ticks += 1;
    }
    assert_eq!(status, griphus::ai::SearchStatus::Solved);
    assert_eq!(ai.solutions, 1);
    assert!(ai.finished && ai.paused);
    assert_eq!(log.state, TurnState::PlayerAtExit);
    assert!(log.steps > 0);
    let player = world.get(griphus::components::Entity(0)).position;
    assert_eq!((player.x, player.y), (3, 0));
    assert_eq!(ai.deaths, 0);
}
