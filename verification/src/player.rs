//! What the player can do in one turn.

use vstd::prelude::*;
use crate::components::{Cardinal, Entity};
use crate::gui::{Key, MainMenuSelection, RunState};
use crate::map::TileMap;
use crate::systems::map_indexing::{content_indexed, lemma_content_indexed_in};
use crate::turn_history::{
    action_fits, action_valid, apply_action, apply_turn, lemma_no_moves_fit, turn_fits, turn_valid,
    unwind, Action, TurnsHistory,
};
use crate::world::{EntityData, World};

verus! {

/// The largest `x` that a step can lead to.
pub const MAX_X: i32 = 79;

/// The largest `y` that a step can lead to.
pub const MAX_Y: i32 = 49;

/// `v` brought into the range from 0 to `max`.
pub open spec fn clamped(v: int, max: int) -> int {
    if v < 0 {
        0
    } else if v > max {
        max
    } else {
        v
    }
}

/// What entity `i` does when it steps in direction `dir`. The tile it
/// steps to is the next one in that direction, brought into the range
/// that steps can lead to. If that tile is free, the entity moves there.
/// If it is blocked by something that can be pushed and the tile behind
/// that is free, the entity moves, pushes the thing one tile further and
/// spends one unit of energy. Otherwise nothing happens.
pub open spec fn step_actions(world: &World, map: &TileMap, i: int, dir: Cardinal) -> Seq<Action> {
    let pos = world@[i].position;
    let x = clamped(pos.x + dir.delta().0, MAX_X as int);
    let y = clamped(pos.y + dir.delta().1, MAX_Y as int);
    let player = Entity(i as usize);
    if !map.blocked_at(x, y) {
        seq![Action::Moves(player, (pos.x, pos.y), (x as i32, y as i32))]
    } else {
        match map.pushable_at(world, x, y) {
            Some(pushed) => {
                let bx = x + dir.delta().0;
                let by = y + dir.delta().1;
                if !map.blocked_at(bx, by) {
                    seq![
                        Action::Moves(player, (pos.x, pos.y), (x as i32, y as i32)),
                        Action::Moves(pushed, (x as i32, y as i32), (bx as i32, by as i32)),
                        Action::UseEnergy(1),
                    ]
                } else {
                    Seq::empty()
                }
            },
            None => Seq::empty(),
        }
    }
}

/// What the players among the first `n` entities do when they step in
/// direction `dir`, in the order of their handles.
pub open spec fn steps_upto(world: &World, map: &TileMap, n: int, dir: Cardinal) -> Seq<Action>
    decreases n,
{
    if n <= 0 {
        Seq::empty()
    } else if world@[n - 1].player is Some {
        steps_upto(world, map, n - 1, dir) + step_actions(world, map, n - 1, dir)
    } else {
        steps_upto(world, map, n - 1, dir)
    }
}

/// The actuations of the actuators among `content[..k]`: each is
/// actuated and costs one unit of energy.
pub open spec fn actuations_in(world: &World, content: Seq<Entity>, k: int) -> Seq<Action>
    decreases k,
{
    if k <= 0 {
        Seq::empty()
    } else if world@[content[k - 1].0 as int].actuator is Some {
        actuations_in(world, content, k - 1) + seq![
            Action::Actuates(content[k - 1]),
            Action::UseEnergy(1),
        ]
    } else {
        actuations_in(world, content, k - 1)
    }
}

/// The actuations of the actuators on the tile `(x, y)`.
pub open spec fn actuations_at(world: &World, map: &TileMap, x: int, y: int) -> Seq<Action> {
    actuations_in(world, map.content_at(x, y), map.content_at(x, y).len() as int)
}

/// What entity `i` actuates: the actuators on the tiles south, north,
/// east and west of it, in this order.
pub open spec fn actuate_actions(world: &World, map: &TileMap, i: int) -> Seq<Action> {
    let pos = world@[i].position;
    actuations_at(world, map, pos.x as int, pos.y + 1) + actuations_at(
        world,
        map,
        pos.x as int,
        pos.y - 1,
    ) + actuations_at(world, map, pos.x + 1, pos.y as int) + actuations_at(
        world,
        map,
        pos.x - 1,
        pos.y as int,
    )
}

/// What the players among the first `n` entities actuate, in the order of
/// their handles.
pub open spec fn actuations_upto(world: &World, map: &TileMap, n: int) -> Seq<Action>
    decreases n,
{
    if n <= 0 {
        Seq::empty()
    } else if world@[n - 1].player is Some {
        actuations_upto(world, map, n - 1) + actuate_actions(world, map, n - 1)
    } else {
        actuations_upto(world, map, n - 1)
    }
}

/// Two valid turns put together are a valid turn.
pub proof fn lemma_turn_valid_concat(n: int, a: Seq<Action>, b: Seq<Action>)
    requires
        turn_valid(n, a),
        turn_valid(n, b),
    ensures
        turn_valid(n, a + b),
{
    assert forall|k: int| 0 <= k < (a + b).len() implies crate::turn_history::action_valid(
        n,
        #[trigger] (a + b)[k],
    ) by {
        if k < a.len() {
            assert((a + b)[k] == a[k]);
        } else {
            assert((a + b)[k] == b[k - a.len()]);
        }
    }
}

/// The actions of a step of the player in direction `direction`: a move,
/// a move with a push, or nothing where the way is blocked.
pub fn try_move_player(direction: Cardinal, world: &World, map: &TileMap) -> (actions: Vec<Action>)
    requires
        direction.is_axis(),
        map.wf(),
        map.content_in(world),
    ensures
        actions@ == steps_upto(world, map, world@.len() as int, direction),
        turn_valid(world@.len() as int, actions@),
{
    let (delta_x, delta_y) = direction.get_delta_xy();
    let mut actions: Vec<Action> = Vec::new();
    let n = world.len();
    let mut i: usize = 0;
    while i < n
        invariant
            0 <= i <= n,
            n == world@.len(),
            direction.is_axis(),
            (delta_x as int, delta_y as int) == direction.delta(),
            map.wf(),
            map.content_in(world),
            actions@ == steps_upto(world, map, i as int, direction),
            turn_valid(n as int, actions@),
        decreases n - i,
    {
        let data = world.get(Entity(i));
        if data.player.is_some() {
            let pos = data.position;
            let ghost before = actions@;
            let ghost added = step_actions(world, map, i as int, direction);
            let to_x: i64 = pos.x as i64 + delta_x as i64;
            let to_y: i64 = pos.y as i64 + delta_y as i64;
            let dest_x: i32 = if to_x < 0 {
                0
            } else if to_x > MAX_X as i64 {
                MAX_X
            } else {
                to_x as i32
            };
            let dest_y: i32 = if to_y < 0 {
                0
            } else if to_y > MAX_Y as i64 {
                MAX_Y
            } else {
                to_y as i32
            };
            if !map.is_blocked(dest_x, dest_y) {
                actions.push(Action::Moves(Entity(i), (pos.x, pos.y), (dest_x, dest_y)));
            } else {
                match map.movable(dest_x, dest_y, world) {
                    Some(movable_entity) => {
                        let moved_dest_x = dest_x + delta_x;
                        let moved_dest_y = dest_y + delta_y;
                        if !map.is_blocked(moved_dest_x, moved_dest_y) {
                            actions.push(Action::Moves(Entity(i), (pos.x, pos.y), (dest_x, dest_y)));
                            actions.push(
                                Action::Moves(
                                    movable_entity,
                                    (dest_x, dest_y),
                                    (moved_dest_x, moved_dest_y),
                                ),
                            );
                            actions.push(Action::UseEnergy(1));
                            proof {
                                lemma_first_pushable_in(
                                    world,
                                    map.content_at(dest_x as int, dest_y as int),
                                    0,
                                );
                                assert forall|k: int|
                                    0 <= k < map.content_at(
                                        dest_x as int,
                                        dest_y as int,
                                    ).len() implies world.has(
                                    #[trigger] map.content_at(dest_x as int, dest_y as int)[k],
                                ) by {}
                            }
                        }
                    },
                    None => {},
                }
            }
            proof {
                assert(actions@ =~= before + added);
                lemma_turn_valid_concat(n as int, before, added);
            }
        }
        i = i + 1;
    }
    actions
}

/// The first pushable entity of a tile is one of the entities on it.
pub proof fn lemma_first_pushable_in(world: &World, content: Seq<Entity>, k: int)
    requires
        0 <= k,
    ensures
        crate::map::first_pushable(world, content, k) matches Some(e) ==> exists|j: int|
            k <= j < content.len() && content[j] == e,
    decreases content.len() - k,
{
    if k < content.len() {
        if world@[content[k].0 as int].blocks_tile is Some && world@[content[k].0 as int].movable is Some {
            assert(content[k] == crate::map::first_pushable(world, content, k)->0);
        } else {
            lemma_first_pushable_in(world, content, k + 1);
        }
    }
}

/// Adds the actuations of the actuators on tile `(x, y)`.
fn actuate_at(world: &World, map: &TileMap, x: i64, y: i64, actions: &mut Vec<Action>)
    requires
        map.wf(),
        map.content_in(world),
        turn_valid(world@.len() as int, old(actions)@),
    ensures
        final(actions)@ == old(actions)@ + actuations_at(world, map, x as int, y as int),
        turn_valid(world@.len() as int, final(actions)@),
{
    if x < 0 || y < 0 || x >= map.width() as i64 || y >= map.height() as i64 {
        proof {
            map.lemma_outside();
            assert(actions@ =~= actions@ + actuations_at(world, map, x as int, y as int));
        }
        return ;
    }
    let content = map.iter_content(x as i32, y as i32);
    let mut k: usize = 0;
    assert(actions@ =~= old(actions)@ + actuations_in(world, content@, 0));
    while k < content.len()
        invariant
            0 <= k <= content@.len(),
            content@ == map.content_at(x as int, y as int),
            map.content_in(world),
            actions@ == old(actions)@ + actuations_in(world, content@, k as int),
            turn_valid(world@.len() as int, actions@),
        decreases content@.len() - k,
    {
        let entity = content[k];
        assert(world.has(map.content_at(x as int, y as int)[k as int]));
        if world.get(entity).actuator.is_some() {
            let ghost before = actions@;
            actions.push(Action::Actuates(entity));
            actions.push(Action::UseEnergy(1));
            proof {
                let added = seq![Action::Actuates(entity), Action::UseEnergy(1)];
                assert(actions@ =~= before + added);
                assert(actions@ =~= old(actions)@ + actuations_in(world, content@, k + 1));
                lemma_turn_valid_concat(world@.len() as int, before, added);
            }
        }
        k = k + 1;
    }
}

/// The actions of an actuation by the player: every actuator on the four
/// tiles around the player is actuated, for one unit of energy each.
pub fn try_actuate(world: &World, map: &TileMap) -> (actions: Vec<Action>)
    requires
        map.wf(),
        map.content_in(world),
    ensures
        actions@ == actuations_upto(world, map, world@.len() as int),
        turn_valid(world@.len() as int, actions@),
{
    let mut actions: Vec<Action> = Vec::new();
    let n = world.len();
    let mut i: usize = 0;
    while i < n
        invariant
            0 <= i <= n,
            n == world@.len(),
            map.wf(),
            map.content_in(world),
            actions@ == actuations_upto(world, map, i as int),
            turn_valid(n as int, actions@),
        decreases n - i,
    {
        let data = world.get(Entity(i));
        if data.player.is_some() {
            let pos = data.position;
            let ghost before = actions@;
            let x = pos.x as i64;
            let y = pos.y as i64;
            actuate_at(world, map, x, y + 1, &mut actions);
            actuate_at(world, map, x, y - 1, &mut actions);
            actuate_at(world, map, x + 1, y, &mut actions);
            actuate_at(world, map, x - 1, y, &mut actions);
            assert(actions@ =~= before + actuate_actions(world, map, i as int));
        }
        i = i + 1;
    }
    actions
}

/// The turn that a key asks for while the game waits for the player: an
/// arrow key is a step, `Space` an actuation; no other key asks for a
/// turn.
pub open spec fn key_actions(world: &World, map: &TileMap, key: Option<Key>) -> Option<Seq<Action>> {
    match key {
        Some(Key::Left) => Some(steps_upto(world, map, world@.len() as int, Cardinal::W)),
        Some(Key::Right) => Some(steps_upto(world, map, world@.len() as int, Cardinal::E)),
        Some(Key::Up) => Some(steps_upto(world, map, world@.len() as int, Cardinal::N)),
        Some(Key::Down) => Some(steps_upto(world, map, world@.len() as int, Cardinal::S)),
        Some(Key::Space) => Some(actuations_upto(world, map, world@.len() as int)),
        _ => None,
    }
}

/// What a key does while the game waits for the player. An arrow key or
/// `Space` plays the turn it asks for, if the turn changes anything and
/// the log accepts it, and the turn is then over; `Back` takes the last
/// turn back, and the turn is over; `Escape` goes to the menu; without a
/// key, and with any other key, the game goes on waiting.
pub fn game_turn_input(world: &mut World, map: &TileMap, log: &mut TurnsHistory, key: Option<Key>) -> (next:
    RunState)
    requires
        map.wf(),
        map.content_in(old(world)),
        old(log).wf(old(world)),
    ensures
        next == (match key {
            Some(Key::Left) | Some(Key::Right) | Some(Key::Up) | Some(Key::Down) | Some(Key::Space)
            | Some(Key::Back) => RunState::GameTurn,
            Some(Key::Escape) => RunState::MainMenu { menu_selection: MainMenuSelection::Continue },
            _ => RunState::GameAwaitingInput,
        }),
        key == Some(Key::Back) ==> final(log)@ == old(log)@.undone() && final(world)@ == unwind(
            old(world)@,
            old(log)@.turns,
            1,
        ),
        key_actions(old(world), map, key) matches Some(actions) ==> (if actions.len() > 0 && old(
            log,
        ).can_play(old(world), actions) {
            final(world)@ == apply_turn(old(world)@, actions) && final(log)@ == old(log)@.played(
                actions,
            )
        } else {
            final(world)@ == old(world)@ && *final(log) == *old(log)
        }),
        key != Some(Key::Back) && key_actions(old(world), map, key) is None ==> final(world)@ == old(
            world,
        )@ && *final(log) == *old(log),
        final(log).wf(final(world)),
        old(world).same_but_moved(final(world)),
{
    assert(crate::world::moved_only(world@, world@));
    let actions = match key {
        None => {
            return RunState::GameAwaitingInput;
        },
        Some(key) => match key {
            Key::Left => try_move_player(Cardinal::W, world, map),
            Key::Right => try_move_player(Cardinal::E, world, map),
            Key::Up => try_move_player(Cardinal::N, world, map),
            Key::Down => try_move_player(Cardinal::S, world, map),
            Key::Space => try_actuate(world, map),
            Key::Back => {
                log.undo_last_turn(world);
                return RunState::GameTurn;
            },
            Key::Escape => {
                return RunState::MainMenu { menu_selection: MainMenuSelection::Continue };
            },
            _ => {
                return RunState::GameAwaitingInput;
            },
        },
    };
    if actions.len() > 0 && log.accepts(world, &actions) {
        log.play_turn(world, actions);
    }
    RunState::GameTurn
}

/// True if at most one entity is a player.
pub open spec fn lone_player(world: Seq<EntityData>) -> bool {
    forall|i: int, j: int|
        0 <= i < world.len() && 0 <= j < world.len() && (#[trigger] world[i]).player is Some
            && (#[trigger] world[j]).player is Some ==> i == j
}

/// True if the turn is valid and moves nothing.
pub open spec fn plain(n: int, turn: Seq<Action>) -> bool {
    &&& turn_valid(n, turn)
    &&& forall|k: int| 0 <= k < turn.len() ==> !((#[trigger] turn[k]) is Moves)
}

proof fn lemma_plain_concat(n: int, a: Seq<Action>, b: Seq<Action>)
    requires
        plain(n, a),
        plain(n, b),
    ensures
        plain(n, a + b),
{
    lemma_turn_valid_concat(n, a, b);
    assert forall|k: int| 0 <= k < (a + b).len() implies !((#[trigger] (a + b)[k]) is Moves) by {
        if k < a.len() {
            assert((a + b)[k] == a[k]);
        } else {
            assert((a + b)[k] == b[k - a.len()]);
        }
    }
}

proof fn lemma_actuations_in_plain(world: &World, content: Seq<Entity>, k: int)
    requires
        0 <= k <= content.len(),
        forall|j: int| 0 <= j < content.len() ==> world.has(#[trigger] content[j]),
    ensures
        plain(world@.len() as int, actuations_in(world, content, k)),
    decreases k,
{
    if k > 0 {
        lemma_actuations_in_plain(world, content, k - 1);
        if world@[content[k - 1].0 as int].actuator is Some {
            let added = seq![Action::Actuates(content[k - 1]), Action::UseEnergy(1)];
            assert(world.has(content[k - 1]));
            assert(plain(world@.len() as int, added)) by {
                assert forall|j: int| 0 <= j < added.len() implies action_valid(
                    world@.len() as int,
                    #[trigger] added[j],
                ) && !(added[j] is Moves) by {
                    if j == 0 {
                    } else {
                        assert(added[j] == Action::UseEnergy(1));
                    }
                }
            }
            lemma_plain_concat(world@.len() as int, actuations_in(world, content, k - 1), added);
        }
    }
}

proof fn lemma_actuations_at_plain(world: &World, map: &TileMap, x: int, y: int)
    requires
        map.content_in(world),
    ensures
        plain(world@.len() as int, actuations_at(world, map, x, y)),
{
    let content = map.content_at(x, y);
    assert forall|j: int| 0 <= j < content.len() implies world.has(#[trigger] content[j]) by {
        assert(world.has(map.content_at(x, y)[j]));
    }
    lemma_actuations_in_plain(world, content, content.len() as int);
}

/// An actuation moves nothing, so it fits the world as it is.
pub proof fn lemma_actuations_fit(world: &World, map: &TileMap, n: int)
    requires
        map.content_in(world),
        0 <= n <= world@.len(),
    ensures
        plain(world@.len() as int, actuations_upto(world, map, n)),
        turn_fits(world@, actuations_upto(world, map, n)),
    decreases n,
{
    let len = world@.len() as int;
    if n > 0 {
        lemma_actuations_fit(world, map, n - 1);
        if world@[n - 1].player is Some {
            let pos = world@[n - 1].position;
            lemma_actuations_at_plain(world, map, pos.x as int, pos.y + 1);
            lemma_actuations_at_plain(world, map, pos.x as int, pos.y - 1);
            lemma_actuations_at_plain(world, map, pos.x + 1, pos.y as int);
            lemma_actuations_at_plain(world, map, pos.x - 1, pos.y as int);
            let a = actuations_at(world, map, pos.x as int, pos.y + 1);
            let b = actuations_at(world, map, pos.x as int, pos.y - 1);
            let c = actuations_at(world, map, pos.x + 1, pos.y as int);
            let d = actuations_at(world, map, pos.x - 1, pos.y as int);
            lemma_plain_concat(len, a, b);
            lemma_plain_concat(len, a + b, c);
            lemma_plain_concat(len, a + b + c, d);
            lemma_plain_concat(len, actuations_upto(world, map, n - 1), a + b + c + d);
        }
    }
    lemma_no_moves_fit(world@, actuations_upto(world, map, n));
}

/// The step of an entity fits the world if the content layer of the map
/// is up to date: the entity stands where its move starts, and so does
/// what it pushes.
pub proof fn lemma_step_fits(world: &World, map: &TileMap, i: int, dir: Cardinal)
    requires
        0 <= i < world@.len(),
        content_indexed(map, world@),
    ensures
        turn_fits(world@, step_actions(world, map, i, dir)),
{
    world.lemma_bounded();
    lemma_content_indexed_in(map, world);
    let w = world@;
    let turn = step_actions(world, map, i, dir);
    let pos = w[i].position;
    let x = clamped(pos.x + dir.delta().0, MAX_X as int);
    let y = clamped(pos.y + dir.delta().1, MAX_Y as int);
    let player = Entity(i as usize);
    let first = Action::Moves(player, (pos.x, pos.y), (x as i32, y as i32));
    if turn.len() == 1 {
        assert(turn[0] == first);
        assert(turn.drop_last() =~= Seq::<Action>::empty());
        assert(turn_fits(w, turn.drop_last()));
        assert(apply_turn(w, turn.drop_last()) == w);
        assert(action_fits(w, turn.last()));
    } else if turn.len() == 3 {
        let pushed = map.pushable_at(world, x, y)->0;
        let bx = x + dir.delta().0;
        let by = y + dir.delta().1;
        let second = Action::Moves(pushed, (x as i32, y as i32), (bx as i32, by as i32));
        let third = Action::UseEnergy(1);
        assert(turn[0] == first && turn[1] == second && turn[2] == third);
        let two = turn.drop_last();
        let one = two.drop_last();
        assert(two =~= seq![first, second]);
        assert(one =~= seq![first]);
        assert(one.drop_last() =~= Seq::<Action>::empty());
        assert(apply_turn(w, one.drop_last()) == w);
        assert(action_fits(w, first));
        assert(one.last() == first);
        assert(turn_fits(w, one.drop_last()));
        assert(turn_fits(w, one));
        assert(two.last() == second);
        assert(turn.last() == third);
        let w1 = apply_turn(w, one);
        assert(w1 == apply_action(w, first));
        lemma_first_pushable_in(world, map.content_at(x, y), 0);
        let j = choose|j: int|
            0 <= j < map.content_at(x, y).len() && map.content_at(x, y)[j] == pushed;
        assert(world.has(map.content_at(x, y)[j]));
        assert(w[pushed.0 as int].position.x == x && w[pushed.0 as int].position.y == y);
        assert(action_fits(w1, second));
        assert(turn_fits(w, two));
        assert(action_fits(apply_turn(w, two), third)) by {
            crate::turn_history::lemma_apply_turn_moves(w, two);
        }
    }
}

/// Without a player among the first `n` entities, nobody steps.
proof fn lemma_no_player_no_step(world: &World, map: &TileMap, n: int, dir: Cardinal)
    requires
        0 <= n <= world@.len(),
        forall|i: int| 0 <= i < n ==> (#[trigger] world@[i]).player is None,
    ensures
        steps_upto(world, map, n, dir) == Seq::<Action>::empty(),
    decreases n,
{
    if n > 0 {
        lemma_no_player_no_step(world, map, n - 1, dir);
    }
}

/// The step of a lone player fits the world if the content layer of the
/// map is up to date.
pub proof fn lemma_steps_fit(world: &World, map: &TileMap, n: int, dir: Cardinal)
    requires
        0 <= n <= world@.len(),
        lone_player(world@),
        content_indexed(map, world@),
    ensures
        turn_fits(world@, steps_upto(world, map, n, dir)),
    decreases n,
{
    if n > 0 {
        if world@[n - 1].player is Some {
            assert forall|i: int| 0 <= i < n - 1 implies (#[trigger] world@[i]).player is None by {
                if world@[i].player is Some {
                    assert(world@[n - 1].player is Some);
                }
            }
            lemma_no_player_no_step(world, map, n - 1, dir);
            lemma_step_fits(world, map, n - 1, dir);
            assert(steps_upto(world, map, n, dir) =~= step_actions(world, map, n - 1, dir));
        } else {
            lemma_steps_fit(world, map, n - 1, dir);
        }
    }
}

} // verus!
