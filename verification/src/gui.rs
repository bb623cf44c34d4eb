//! What the keys do outside a turn: in the menu, and once the player has
//! died or left the level.

use vstd::prelude::*;
use crate::turn_history::TurnsHistory;
use crate::world::World;

verus! {

/// A key that the driver saw pressed.
#[derive(Clone, Copy, Debug, PartialEq, Eq, Structural)]
pub enum Key {
    Up,
    Down,
    Left,
    Right,
    Return,
    Escape,
    Space,
    Back,
    R,
    S,
    Other,
}

/// An entry of the menu.
#[derive(PartialEq, Eq, Structural, Copy, Clone, Debug)]
pub enum MainMenuSelection {
    NewPlayerGame,
    NewAiGame,
    Continue,
    Quit,
}

/// What came of a key in the menu: the selection has moved or stayed, or
/// the selected entry was chosen.
#[derive(PartialEq, Eq, Structural, Copy, Clone, Debug)]
pub enum MainMenuResult {
    NoSelection { selected: MainMenuSelection },
    Selected { selected: MainMenuSelection },
}

/// What the driver does next.
#[derive(Clone, Copy, Debug, PartialEq, Eq, Structural)]
pub enum RunState {
    MainMenu { menu_selection: MainMenuSelection },
    LoadLevel(u64),
    GameAwaitingInput,
    GameTurn,
    GameDraw,
}

/// The first level of a game played by hand.
pub const FIRST_LEVEL: u64 = 1;

/// The first level of a game played by the search.
pub const FIRST_AI_LEVEL: u64 = 10001;

/// The entries of the menu, from the top: `Continue` is offered only
/// while a level is loaded.
pub open spec fn menu_entries(can_continue: bool) -> Seq<MainMenuSelection> {
    if can_continue {
        seq![
            MainMenuSelection::NewPlayerGame,
            MainMenuSelection::NewAiGame,
            MainMenuSelection::Continue,
            MainMenuSelection::Quit,
        ]
    } else {
        seq![MainMenuSelection::NewPlayerGame, MainMenuSelection::NewAiGame, MainMenuSelection::Quit]
    }
}

/// The entries of the menu, from the top.
pub fn get_entries(can_continue: bool) -> (entries: Vec<MainMenuSelection>)
    ensures
        entries@ == menu_entries(can_continue),
{
    let mut entries: Vec<MainMenuSelection> = Vec::new();
    entries.push(MainMenuSelection::NewPlayerGame);
    entries.push(MainMenuSelection::NewAiGame);
    if can_continue {
        entries.push(MainMenuSelection::Continue);
    }
    entries.push(MainMenuSelection::Quit);
    assert(entries@ =~= menu_entries(can_continue));
    entries
}

/// The place of an entry in the menu.
pub open spec fn entry_index(selection: MainMenuSelection, can_continue: bool) -> int {
    match selection {
        MainMenuSelection::NewPlayerGame => 0,
        MainMenuSelection::NewAiGame => 1,
        MainMenuSelection::Continue => 2,
        MainMenuSelection::Quit => if can_continue {
            3
        } else {
            2
        },
    }
}

/// What a key does in the menu: `Up` and `Down` move the selection by one
/// entry and wrap around at the ends, `Escape` moves it to `Quit`,
/// `Return` chooses the selected entry, and no other key does anything.
pub fn main_menu(selection: MainMenuSelection, can_continue: bool, key: Option<Key>) -> (result:
    MainMenuResult)
    requires
        selection == MainMenuSelection::Continue ==> can_continue,
    ensures
        result == (match key {
            Some(Key::Escape) => MainMenuResult::NoSelection { selected: MainMenuSelection::Quit },
            Some(Key::Up) => MainMenuResult::NoSelection {
                selected: menu_entries(can_continue)[(entry_index(selection, can_continue)
                    + menu_entries(can_continue).len() - 1) % (menu_entries(
                    can_continue,
                ).len() as int)],
            },
            Some(Key::Down) => MainMenuResult::NoSelection {
                selected: menu_entries(can_continue)[(entry_index(selection, can_continue) + 1) % (
                menu_entries(can_continue).len() as int)],
            },
            Some(Key::Return) => MainMenuResult::Selected { selected: selection },
            _ => MainMenuResult::NoSelection { selected: selection },
        }),
{
    let entries = get_entries(can_continue);
    match key {
        None => MainMenuResult::NoSelection { selected: selection },
        Some(key) => match key {
            Key::Escape => MainMenuResult::NoSelection { selected: MainMenuSelection::Quit },
            Key::Up => {
                let idx = position(&entries, selection, can_continue);
                MainMenuResult::NoSelection {
                    selected: entries[(idx + entries.len() - 1) % entries.len()],
                }
            },
            Key::Down => {
                let idx = position(&entries, selection, can_continue);
                MainMenuResult::NoSelection { selected: entries[(idx + 1) % entries.len()] }
            },
            Key::Return => MainMenuResult::Selected { selected: selection },
            _ => MainMenuResult::NoSelection { selected: selection },
        },
    }
}

/// The place of the selected entry among the entries.
fn position(entries: &Vec<MainMenuSelection>, selection: MainMenuSelection, can_continue: bool) -> (idx:
    usize)
    requires
        entries@ == menu_entries(can_continue),
        selection == MainMenuSelection::Continue ==> can_continue,
    ensures
        idx == entry_index(selection, can_continue),
        idx < entries@.len(),
        entries@[idx as int] == selection,
{
    let mut idx: usize = 0;
    while idx < entries.len() && !(entries[idx] == selection)
        invariant
            0 <= idx <= entries@.len(),
            entries@ == menu_entries(can_continue),
            selection == MainMenuSelection::Continue ==> can_continue,
            idx <= entry_index(selection, can_continue),
        decreases entries@.len() - idx,
    {
        idx = idx + 1;
    }
    idx
}

/// What the driver does once an entry of the menu is chosen: a new game
/// loads its first level, `Continue` goes back to the level, and `Quit`
/// is `None`, which ends the program.
pub fn menu_choice(selected: MainMenuSelection) -> (next: Option<RunState>)
    ensures
        next == (match selected {
            MainMenuSelection::NewPlayerGame => Some(RunState::LoadLevel(FIRST_LEVEL)),
            MainMenuSelection::NewAiGame => Some(RunState::LoadLevel(FIRST_AI_LEVEL)),
            MainMenuSelection::Continue => Some(RunState::GameDraw),
            MainMenuSelection::Quit => None,
        }),
{
    match selected {
        MainMenuSelection::NewPlayerGame => Some(RunState::LoadLevel(FIRST_LEVEL)),
        MainMenuSelection::NewAiGame => Some(RunState::LoadLevel(FIRST_AI_LEVEL)),
        MainMenuSelection::Continue => Some(RunState::GameDraw),
        MainMenuSelection::Quit => None,
    }
}

/// What a key does once the player has died: `Return` goes to the menu,
/// `R` loads the level again, `Back` takes the last turn back, and no
/// other key does anything.
pub fn game_end_dead_input(
    world: &mut World,
    log: &mut TurnsHistory,
    level: u64,
    key: Option<Key>,
) -> (next: RunState)
    requires
        old(log).wf(old(world)),
    ensures
        next == (match key {
            Some(Key::Return) => RunState::MainMenu {
                menu_selection: MainMenuSelection::NewPlayerGame,
            },
            Some(Key::R) => RunState::LoadLevel(level),
            _ => RunState::GameDraw,
        }),
        key == Some(Key::Back) ==> final(log)@ == old(log)@.undone() && final(world)@
            == crate::turn_history::unwind(old(world)@, old(log)@.turns, 1),
        key != Some(Key::Back) ==> *final(log) == *old(log) && final(world)@ == old(world)@,
        final(log).wf(final(world)),
        old(world).same_but_moved(final(world)),
{
    assert(crate::world::moved_only(world@, world@));
    match key {
        None => RunState::GameDraw,
        Some(key) => match key {
            Key::Return => RunState::MainMenu { menu_selection: MainMenuSelection::NewPlayerGame },
            Key::R => RunState::LoadLevel(level),
            Key::Back => {
                log.undo_last_turn(world);
                RunState::GameDraw
            },
            _ => RunState::GameDraw,
        },
    }
}

/// What a key does once the player has left the level: `Return` loads
/// the next level, and no other key does anything.
pub fn game_level_end_input(level: u64, key: Option<Key>) -> (next: RunState)
    requires
        level < u64::MAX,
    ensures
        next == (if key == Some(Key::Return) {
            RunState::LoadLevel((level + 1) as u64)
        } else {
            RunState::GameDraw
        }),
{
    match key {
        None => RunState::GameDraw,
        Some(key) => match key {
            Key::Return => RunState::LoadLevel(level + 1),
            _ => RunState::GameDraw,
        },
    }
}

} // verus!
