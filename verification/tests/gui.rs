use griphus::gui::{
    game_end_dead_input, game_level_end_input, get_entries, main_menu, menu_choice, Key,
    MainMenuResult, MainMenuSelection, RunState,
};
use griphus::turn_history::{Action, TurnsHistory};
use griphus::world::World;

use MainMenuSelection::{Continue, NewAiGame, NewPlayerGame, Quit};

#[test]
fn continue_is_offered_only_with_a_level() {
    assert_eq!(get_entries(true), vec![NewPlayerGame, NewAiGame, Continue, Quit]);
    assert_eq!(get_entries(false), vec![NewPlayerGame, NewAiGame, Quit]);
}

#[test]
fn down_moves_to_the_next_entry_and_wraps() {
    let down = |s, c| main_menu(s, c, Some(Key::Down));
    assert_eq!(down(NewPlayerGame, true), MainMenuResult::NoSelection { selected: NewAiGame });
    assert_eq!(down(NewAiGame, true), MainMenuResult::NoSelection { selected: Continue });
    assert_eq!(down(Continue, true), MainMenuResult::NoSelection { selected: Quit });
    assert_eq!(down(Quit, true), MainMenuResult::NoSelection { selected: NewPlayerGame });
    assert_eq!(down(NewAiGame, false), MainMenuResult::NoSelection { selected: Quit });
    assert_eq!(down(Quit, false), MainMenuResult::NoSelection { selected: NewPlayerGame });
}

#[test]
fn up_moves_to_the_entry_before_and_wraps() {
    let up = |s, c| main_menu(s, c, Some(Key::Up));
    assert_eq!(up(NewPlayerGame, true), MainMenuResult::NoSelection { selected: Quit });
    assert_eq!(up(Quit, true), MainMenuResult::NoSelection { selected: Continue });
    assert_eq!(up(Continue, true), MainMenuResult::NoSelection { selected: NewAiGame });
    assert_eq!(up(NewPlayerGame, false), MainMenuResult::NoSelection { selected: Quit });
    assert_eq!(up(Quit, false), MainMenuResult::NoSelection { selected: NewAiGame });
}

#[test]
fn the_other_keys_of_the_menu() {
    assert_eq!(main_menu(NewAiGame, true, None), MainMenuResult::NoSelection { selected: NewAiGame });
    assert_eq!(main_menu(NewAiGame, true, Some(Key::Other)), MainMenuResult::NoSelection { selected: NewAiGame });
    assert_eq!(main_menu(NewAiGame, true, Some(Key::Space)), MainMenuResult::NoSelection { selected: NewAiGame });
    assert_eq!(main_menu(NewAiGame, true, Some(Key::Escape)), MainMenuResult::NoSelection { selected: Quit });
    assert_eq!(main_menu(NewAiGame, false, Some(Key::Return)), MainMenuResult::Selected { selected: NewAiGame });
    assert_eq!(main_menu(Continue, true, Some(Key::Return)), MainMenuResult::Selected { selected: Continue });
}

#[test]
fn a_chosen_entry_starts_a_game_or_ends_the_program() {
    assert_eq!(menu_choice(NewPlayerGame), Some(RunState::LoadLevel(1)));
    assert_eq!(menu_choice(NewAiGame), Some(RunState::LoadLevel(10001)));
    assert_eq!(menu_choice(Continue), Some(RunState::GameDraw));
    assert_eq!(menu_choice(Quit), None);
}

#[test]
fn keys_after_the_player_died() {
    let mut world = World::new();
    let player = world.spawn_player(1, 1);
    let mut log = TurnsHistory::new();
    log.play_turn(&mut world, vec![Action::Moves(player, (1, 1), (2, 1))]);
    assert_eq!(game_end_dead_input(&mut world, &mut log, 3, None), RunState::GameDraw);
    assert_eq!(game_end_dead_input(&mut world, &mut log, 3, Some(Key::Space)), RunState::GameDraw);
    assert_eq!(
        game_end_dead_input(&mut world, &mut log, 3, Some(Key::Return)),
        RunState::MainMenu { menu_selection: NewPlayerGame }
    );
    assert_eq!(game_end_dead_input(&mut world, &mut log, 3, Some(Key::R)), RunState::LoadLevel(3));
    assert_eq!(log.steps, 1);
    assert_eq!(game_end_dead_input(&mut world, &mut log, 3, Some(Key::Back)), RunState::GameDraw);
    assert_eq!(log.steps, 0);
    assert_eq!((world.get(player).position.x, world.get(player).position.y), (1, 1));
}

#[test]
fn keys_after_the_level_is_solved() {
    assert_eq!(game_level_end_input(3, Some(Key::Return)), RunState::LoadLevel(4));
    assert_eq!(game_level_end_input(3, Some(Key::Space)), RunState::GameDraw);
    assert_eq!(game_level_end_input(3, None), RunState::GameDraw);
}
