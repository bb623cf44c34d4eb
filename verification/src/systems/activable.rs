//! Derives which plates and receptors are active.

use vstd::prelude::*;
use crate::components::{Activable, ActivationKind, Entity};
use crate::map::TileMap;
use crate::world::{EntityData, World};

verus! {

/// The entity with its `Activable`, if it has one, brought up to date: a
/// pressure plate is active while its tile is blocked, a laser receptor
/// while a beam sweeps its tile.
pub open spec fn activated(data: EntityData, map: &TileMap) -> EntityData {
    match data.activable {
        Some(activable) => EntityData {
            activable: Some(
                Activable {
                    active: match activable.kind {
                        ActivationKind::Weight => map.blocked_at(
                            data.position.x as int,
                            data.position.y as int,
                        ),
                        ActivationKind::Laser => map.lasered_at(
                            data.position.x as int,
                            data.position.y as int,
                        ),
                    },
                    kind: activable.kind,
                },
            ),
            ..data
        },
        None => data,
    }
}

/// Brings the `active` flag of every plate and receptor up to date with
/// the blocked and lasered layers of the map.
pub fn activable_system(world: &mut World, map: &TileMap)
    requires
        map.wf(),
    ensures
        final(world)@.len() == old(world)@.len(),
        forall|i: int|
            0 <= i < old(world)@.len() ==> #[trigger] final(world)@[i] == activated(
                old(world)@[i],
                map,
            ),
{
    let n = world.len();
    let mut i: usize = 0;
    while i < n
        invariant
            0 <= i <= n,
            n == world@.len(),
            n == old(world)@.len(),
            map.wf(),
            forall|j: int| 0 <= j < i ==> #[trigger] world@[j] == activated(old(world)@[j], map),
            forall|j: int| i <= j < n ==> #[trigger] world@[j] == old(world)@[j],
        decreases n - i,
    {
        let data = world.get(Entity(i));
        let position = data.position;
        match data.activable {
            Some(activable) => {
                let active = match activable.kind {
                    ActivationKind::Weight => map.is_blocked(position.x, position.y),
                    ActivationKind::Laser => map.is_lasered(position.x, position.y),
                };
                world.set_active(Entity(i), active);
            },
            None => {},
        }
        i = i + 1;
    }
}

} // verus!
