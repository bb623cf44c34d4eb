//! Derives whether the player died or reached an exit.

use vstd::prelude::*;
use crate::components::Entity;
use crate::map::{TileMap, TileType};
use crate::turn_history::{TurnState, TurnsHistory};
use crate::world::{EntityData, World};

verus! {

/// The turn state after the first `n` entities are looked at, starting
/// from `prior`: a player on a lasered tile is dead, a player on an exit
/// tile that is not lasered has left the level, and the last player
/// decides.
pub open spec fn verdict(world: Seq<EntityData>, map: &TileMap, n: int, prior: TurnState) -> TurnState
    decreases n,
{
    if n <= 0 {
        prior
    } else {
        let sooner = verdict(world, map, n - 1, prior);
        let data = world[n - 1];
        if data.player is None {
            sooner
        } else if map.lasered_at(data.position.x as int, data.position.y as int) {
            TurnState::PlayerDead
        } else if map.tile_at(data.position.x as int, data.position.y as int) == TileType::Exit {
            TurnState::PlayerAtExit
        } else {
            sooner
        }
    }
}

/// Sets the turn state from where the player stands: dead on a lasered
/// tile, at the exit on an exit tile, and otherwise what it was.
pub fn level_end_system(world: &World, map: &TileMap, history: &mut TurnsHistory)
    requires
        map.wf(),
    ensures
        final(history).state == verdict(world@, map, world@.len() as int, old(history).state),
        final(history).steps == old(history).steps,
        final(history).energy_used == old(history).energy_used,
        final(history).history == old(history).history,
        old(history).wf(world) ==> final(history).wf(world),
{
    let n = world.len();
    let mut i: usize = 0;
    while i < n
        invariant
            0 <= i <= n,
            n == world@.len(),
            map.wf(),
            history.state == verdict(world@, map, i as int, old(history).state),
            history.steps == old(history).steps,
            history.energy_used == old(history).energy_used,
            history.history == old(history).history,
        decreases n - i,
    {
        let data = world.get(Entity(i));
        if data.player.is_some() {
            let position = data.position;
            if map.is_lasered(position.x, position.y) {
                history.state = TurnState::PlayerDead;
            } else if map.is_exit(position.x, position.y) {
                history.state = TurnState::PlayerAtExit;
            }
        }
        i = i + 1;
    }
}

} // verus!
