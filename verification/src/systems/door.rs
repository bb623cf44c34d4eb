//! Opens and closes the doors.

use vstd::prelude::*;
use crate::components::{Door, Entity};
use crate::world::{EntityData, World};

verus! {

/// True if a door gated by `links` is open: it lists at least one entity,
/// and every entity it lists is active.
pub open spec fn door_open(world: Seq<EntityData>, links: Seq<Entity>) -> bool {
    &&& links.len() > 0
    &&& forall|k: int|
        0 <= k < links.len() ==> (#[trigger] world[links[k].0 as int]).activable is Some
            && world[links[k].0 as int].activable->0.active
}

/// The entity with its door, if it has one, opened or closed as its
/// activations in `world` say.
pub open spec fn gated(data: EntityData, world: Seq<EntityData>) -> EntityData {
    match data.door {
        Some(door) => EntityData {
            door: Some(
                Door { opened: door_open(world, door.activations@), activations: door.activations },
            ),
            ..data
        },
        None => data,
    }
}

/// Opens every door whose activations are all active and closes the
/// others. A door that lists no activation never opens.
pub fn door_system(world: &mut World)
    requires
        old(world).wf(),
    ensures
        final(world)@.len() == old(world)@.len(),
        forall|i: int|
            0 <= i < old(world)@.len() ==> #[trigger] final(world)@[i] == gated(
                old(world)@[i],
                old(world)@,
            ),
{
    let n = world.len();
    let mut i: usize = 0;
    while i < n
        invariant
            0 <= i <= n,
            n == world@.len(),
            n == old(world)@.len(),
            old(world).wf(),
            forall|j: int| 0 <= j < i ==> #[trigger] world@[j] == gated(old(world)@[j], old(world)@),
            forall|j: int| i <= j < n ==> #[trigger] world@[j] == old(world)@[j],
            forall|j: int| 0 <= j < n ==> (#[trigger] world@[j]).activable == old(world)@[j].activable,
        decreases n - i,
    {
        let data = world.get(Entity(i));
        match &data.door {
            Some(door) => {
                let links = &door.activations;
                let mut open = links.len() > 0;
                let mut k: usize = 0;
                assert(crate::world::data_wf(old(world)@[i as int], n as int));
                while k < links.len()
                    invariant
                        0 <= k <= links@.len(),
                        n == world@.len(),
                        n == old(world)@.len(),
                        forall|j: int| 0 <= j < links@.len() ==> (#[trigger] links@[j]).0 < n,
                        forall|j: int|
                            0 <= j < n ==> (#[trigger] world@[j]).activable == old(
                                world,
                            )@[j].activable,
                        open == (links@.len() > 0 && forall|j: int|
                            0 <= j < k ==> (#[trigger] old(world)@[links@[j].0 as int]).activable is Some
                                && old(world)@[links@[j].0 as int].activable->0.active),
                    decreases links@.len() - k,
                {
                    let target = world.get(links[k]);
                    let active = match target.activable {
                        Some(activable) => activable.active,
                        None => false,
                    };
                    proof {
                        assert(world@[links@[k as int].0 as int].activable == old(
                            world,
                        )@[links@[k as int].0 as int].activable);
                    }
                    open = open && active;
                    k = k + 1;
                }
                world.set_opened(Entity(i), open);
            },
            None => {},
        }
        i = i + 1;
    }
}

} // verus!
