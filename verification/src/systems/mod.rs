//! The systems that recompute derived state after the world has changed.

use vstd::prelude::*;
use crate::map::TileMap;
use crate::turn_history::{TurnState, TurnsHistory};
use crate::world::{same_core, EntityData, World};

pub mod activable;
pub mod door;
pub mod laser;
pub mod level_end;
pub mod map_indexing;

verus! {

/// The entities once every pending actuation pulse is consumed.
pub open spec fn pulses_consumed(world: Seq<EntityData>) -> Seq<EntityData> {
    Seq::new(world.len(), |i: int| laser::pulse_consumed(world[i]))
}

/// The entities with every plate and receptor brought up to date with the
/// layers of `map`.
pub open spec fn all_activated(world: Seq<EntityData>, map: &TileMap) -> Seq<EntityData> {
    Seq::new(world.len(), |i: int| activable::activated(world[i], map))
}

/// The entities with every door opened or closed as its activations say.
pub open spec fn all_gated(world: Seq<EntityData>) -> Seq<EntityData> {
    Seq::new(world.len(), |i: int| door::gated(world[i], world))
}

/// True if `after`, `map` and `after_state` are what one run of the
/// systems makes of the entities `before` and the turn state
/// `before_state`: pulses are consumed, plates and receptors follow the
/// layers of the map, and doors follow their activations; the content
/// layer lists the entities where they stand, the blocked layer holds the
/// walls, the blocking entities and the doors that were closed before the
/// run, and the lasered layer holds the beams; the turn state tells
/// whether the player is dead or out.
pub open spec fn systems_ran(
    before: Seq<EntityData>,
    before_state: TurnState,
    after: &World,
    map: &TileMap,
    after_state: TurnState,
) -> bool {
    &&& after@ == all_gated(all_activated(pulses_consumed(before), map))
    &&& map_indexing::content_indexed(map, after@)
    &&& map_indexing::blocked_indexed(map, pulses_consumed(before))
    &&& laser::lasered(map, after)
    &&& after_state == level_end::verdict(after@, map, after@.len() as int, before_state)
}

/// True if `after`, `map` and `after_state` are what two runs of the
/// systems make of the entities `before` and the turn state
/// `before_state`.
pub open spec fn settled(
    before: Seq<EntityData>,
    before_state: TurnState,
    after: &World,
    map: &TileMap,
    after_state: TurnState,
) -> bool {
    exists|mid: World, mid_map: TileMap, mid_state: TurnState|
        #[trigger] systems_ran(before, before_state, &mid, &mid_map, mid_state) && mid.wf()
            && mid_map.wf() && mid_map.same_grid(map) && systems_ran(
            mid@,
            mid_state,
            after,
            map,
            after_state,
        )
}

/// Runs the systems once, in this order: pending actuation pulses flip
/// their reflectors; the content and blocked layers are rebuilt from where
/// the entities stand and from which doors are closed; the beams are
/// traced; plates and receptors are activated from the two layers; doors
/// open or close from their activations; and the turn state is set from
/// where the player stands.
///
/// A door that opens or closes in one run blocks or frees its tile in the
/// next.
pub fn run_systems(world: &mut World, map: &mut TileMap, history: &mut TurnsHistory)
    requires
        old(world).wf(),
        old(map).wf(),
    ensures
        systems_ran(
            old(world)@,
            old(history).state,
            final(world),
            final(map),
            final(history).state,
        ),
        final(world).wf(),
        old(world).same_entities(final(world)),
        same_core(old(world)@, final(world)@),
        forall|i: int| 0 <= i < final(world)@.len() ==> (#[trigger] final(world)@[i]).actuated is None,
        final(map).wf(),
        final(map).same_grid(old(map)),
        final(map).content_in(final(world)),
        final(history).steps == old(history).steps,
        final(history).energy_used == old(history).energy_used,
        final(history).history == old(history).history,
        old(history).wf(old(world)) ==> final(history).wf(final(world)),
{
    laser::reflector_actuation_system(world);
    let ghost flipped = *world;
    proof {
        assert(flipped@ =~= pulses_consumed(old(world)@));
        assert forall|i: int| 0 <= i < flipped@.len() implies (#[trigger] old(world)@[i]).same_kind(
            flipped@[i],
        ) by {}
        assert forall|i: int|
            0 <= i < flipped@.len() && (#[trigger] flipped@[i]).reflector is Some implies flipped@[i].reflector->0.orientation.is_diagonal() by {
            assert(crate::world::data_wf(old(world)@[i], old(world)@.len() as int));
        }
        old(world).lemma_wf_kept(&flipped);
    }
    map_indexing::map_indexing_system(world, map);
    laser::laser_system(world, map);
    proof {
        assert forall|x: int, y: int| #[trigger]
            map.blocked_at(x, y) == (map.tile_at(x, y) == crate::map::TileType::Wall
                || map_indexing::blocked_upto(flipped@, flipped@.len() as int, x, y)) by {}
    }
    activable::activable_system(world, map);
    let ghost active = *world;
    proof {
        assert(active@ =~= all_activated(flipped@, map));
        assert forall|i: int| 0 <= i < flipped@.len() implies (#[trigger] flipped@[i]).same_kind(
            active@[i],
        ) by {}
        flipped.lemma_wf_kept(&active);
    }
    door::door_system(world);
    proof {
        assert(world@ =~= all_gated(active@));
        assert forall|i: int| 0 <= i < active@.len() implies (#[trigger] active@[i]).same_kind(
            world@[i],
        ) by {}
        active.lemma_wf_kept(world);
        assert forall|i: int| 0 <= i < flipped@.len() implies (#[trigger] old(world)@[i]).same_kind(
            world@[i],
        ) by {
            assert(old(world)@[i].same_kind(flipped@[i]));
            assert(flipped@[i].same_kind(active@[i]));
            assert(active@[i].same_kind(world@[i]));
        }
        assert(laser::same_optics(&flipped, world)) by {
            assert forall|i: int| 0 <= i < flipped@.len() implies (#[trigger] flipped@[i]).position
                == world@[i].position && flipped@[i].laser == world@[i].laser
                && flipped@[i].reflector == world@[i].reflector && flipped@[i].blocks_laser
                == world@[i].blocks_laser by {
                assert(active@[i] == activable::activated(flipped@[i], map));
                assert(world@[i] == door::gated(active@[i], active@));
            }
        }
        laser::lemma_lasered_same_world(map, &flipped, world);
        map_indexing::lemma_content_indexed_same(map, flipped@, world@);
        assert(map.content_in(world)) by {
            assert forall|a: int, b: int, k: int| 0 <= k < map.content_at(a, b).len() implies world.has(
                #[trigger] map.content_at(a, b)[k],
            ) by {
                assert(flipped.has(map.content_at(a, b)[k]));
            }
        }
    }
    level_end::level_end_system(world, map, history);
}

/// Brings the derived state up to date after the world has changed: runs
/// the systems twice, so that a door that the first run opens or closes
/// blocks or frees its tile for what the second run derives.
pub fn settle(world: &mut World, map: &mut TileMap, history: &mut TurnsHistory)
    requires
        old(world).wf(),
        old(map).wf(),
    ensures
        settled(old(world)@, old(history).state, final(world), final(map), final(history).state),
        final(world).wf(),
        old(world).same_entities(final(world)),
        same_core(old(world)@, final(world)@),
        forall|i: int| 0 <= i < final(world)@.len() ==> (#[trigger] final(world)@[i]).actuated is None,
        final(map).wf(),
        final(map).same_grid(old(map)),
        final(map).content_in(final(world)),
        map_indexing::content_indexed(final(map), final(world)@),
        laser::lasered(final(map), final(world)),
        final(history).steps == old(history).steps,
        final(history).energy_used == old(history).energy_used,
        final(history).history == old(history).history,
        old(history).wf(old(world)) ==> final(history).wf(final(world)),
{
    run_systems(world, map, history);
    let ghost once = *world;
    let ghost once_map = *map;
    let ghost once_state = history.state;
    run_systems(world, map, history);
    proof {
        assert(systems_ran(old(world)@, old(history).state, &once, &once_map, once_state));
        assert(once_map.same_grid(map)) by {
            assert forall|x: int, y: int| #[trigger] once_map.tile_at(x, y) == map.tile_at(x, y) by {}
        }
        assert forall|i: int| 0 <= i < world@.len() implies (#[trigger] old(world)@[i]).same_kind(
            world@[i],
        ) by {
            assert(old(world)@[i].same_kind(once@[i]));
            assert(once@[i].same_kind(world@[i]));
        }
        assert forall|i: int| 0 <= i < world@.len() implies (#[trigger] old(world)@[i]).position
            == world@[i].position && old(world)@[i].effective_orientation()
            == world@[i].effective_orientation() by {
            assert(old(world)@[i].position == once@[i].position);
            assert(once@[i].position == world@[i].position);
        }
    }
}

} // verus!
