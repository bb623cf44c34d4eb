//! The arena of entities.

use vstd::prelude::*;
use crate::components::{
    Activable, ActivationKind, Actuated, Actuator, Block, BlocksLaser, BlocksTile, Cardinal, Door,
    Entity, Laser, Movable, Player, Position, ReflectsLaser,
};

verus! {

/// Everything the world knows about one entity. A component that the
/// entity does not have is `None`.
#[derive(Debug)]
pub struct EntityData {
    pub position: Position,
    pub player: Option<Player>,
    pub block: Option<Block>,
    pub blocks_tile: Option<BlocksTile>,
    pub blocks_laser: Option<BlocksLaser>,
    pub movable: Option<Movable>,
    pub actuator: Option<Actuator>,
    pub actuated: Option<Actuated>,
    pub laser: Option<Laser>,
    pub reflector: Option<ReflectsLaser>,
    pub activable: Option<Activable>,
    pub door: Option<Door>,
}

impl EntityData {
    /// An entity at `position` without any component.
    pub open spec fn bare(position: Position) -> EntityData {
        EntityData {
            position,
            player: None,
            block: None,
            blocks_tile: None,
            blocks_laser: None,
            movable: None,
            actuator: None,
            actuated: None,
            laser: None,
            reflector: None,
            activable: None,
            door: None,
        }
    }

    /// An entity at `position` without any component.
    pub fn new(position: Position) -> (data: EntityData)
        ensures
            data == EntityData::bare(position),
    {
        EntityData {
            position,
            player: None,
            block: None,
            blocks_tile: None,
            blocks_laser: None,
            movable: None,
            actuator: None,
            actuated: None,
            laser: None,
            reflector: None,
            activable: None,
            door: None,
        }
    }

    /// The orientation that the entity's reflector has once a pending
    /// actuation pulse is taken into account; `None` without a reflector.
    pub open spec fn effective_orientation(self) -> Option<Cardinal> {
        match self.reflector {
            Some(r) => Some(
                if self.actuated is Some {
                    r.orientation.flipped()
                } else {
                    r.orientation
                },
            ),
            None => None,
        }
    }

    /// True if `other` is the same entity at a later time: it may differ in
    /// position, reflector orientation, pending pulse, activation and door
    /// state, and in nothing else.
    pub open spec fn same_kind(self, other: EntityData) -> bool {
        &&& self.player == other.player
        &&& self.block == other.block
        &&& self.blocks_tile == other.blocks_tile
        &&& self.blocks_laser == other.blocks_laser
        &&& self.movable == other.movable
        &&& self.actuator == other.actuator
        &&& self.laser == other.laser
        &&& (self.reflector is Some <==> other.reflector is Some)
        &&& (self.activable is Some <==> other.activable is Some)
        &&& (self.activable is Some ==> self.activable->0.kind == other.activable->0.kind)
        &&& (self.door is Some <==> other.door is Some)
        &&& (self.door is Some ==> self.door->0.activations == other.door->0.activations)
    }
}

/// The entities of a level. An entity's handle is its index; entities are
/// never removed, so a handle stays valid for the life of the world.
pub struct World {
    entities: Vec<EntityData>,
}

impl View for World {
    type V = Seq<EntityData>;

    closed spec fn view(&self) -> Seq<EntityData> {
        self.entities@
    }
}

/// The entity record is well formed at arena size `n`: a laser fires
/// along an axis, a reflector is diagonal, and a door lists only earlier
/// entities.
pub open spec fn data_wf(data: EntityData, n: int) -> bool {
    &&& data.laser is Some ==> data.laser->0.direction.is_axis()
    &&& data.reflector is Some ==> data.reflector->0.orientation.is_diagonal()
    &&& data.door is Some ==> forall|k: int|
        0 <= k < data.door->0.activations@.len() ==> 0 <= (#[trigger] data.door->0.activations@[k]).0
            < n
}

/// The record of a player on tile `(x, y)`.
pub open spec fn player_data(x: i32, y: i32) -> EntityData {
    EntityData { player: Some(Player {  }), ..EntityData::bare(Position { x, y }) }
}

/// The record of a laser emitter: it blocks its tile, stops beams and can
/// be pushed.
pub open spec fn laser_data(x: i32, y: i32, direction: Cardinal) -> EntityData {
    EntityData {
        laser: Some(Laser { direction }),
        blocks_tile: Some(BlocksTile {  }),
        blocks_laser: Some(BlocksLaser {  }),
        movable: Some(Movable {  }),
        ..EntityData::bare(Position { x, y })
    }
}

/// The record of a pushable block: it blocks its tile and stops beams.
pub open spec fn block_data(x: i32, y: i32) -> EntityData {
    EntityData {
        block: Some(Block {  }),
        blocks_tile: Some(BlocksTile {  }),
        blocks_laser: Some(BlocksLaser {  }),
        movable: Some(Movable {  }),
        ..EntityData::bare(Position { x, y })
    }
}

/// The record of an inactive pressure plate.
pub open spec fn weight_plate_data(x: i32, y: i32) -> EntityData {
    EntityData {
        activable: Some(Activable { active: false, kind: ActivationKind::Weight }),
        ..EntityData::bare(Position { x, y })
    }
}

/// The record of an inactive laser receptor: it blocks its tile and stops
/// beams.
pub open spec fn laser_receptor_data(x: i32, y: i32) -> EntityData {
    EntityData {
        blocks_tile: Some(BlocksTile {  }),
        blocks_laser: Some(BlocksLaser {  }),
        activable: Some(Activable { active: false, kind: ActivationKind::Laser }),
        ..EntityData::bare(Position { x, y })
    }
}

/// The record of a closed door that stops beams and is gated by
/// `activations`.
pub open spec fn door_data(x: i32, y: i32, activations: Vec<Entity>) -> EntityData {
    EntityData {
        blocks_laser: Some(BlocksLaser {  }),
        door: Some(Door { opened: false, activations }),
        ..EntityData::bare(Position { x, y })
    }
}

/// The record of a reflector: it blocks its tile, can be pushed and can be
/// actuated.
pub open spec fn laser_reflector_data(x: i32, y: i32, orientation: Cardinal) -> EntityData {
    EntityData {
        blocks_tile: Some(BlocksTile {  }),
        movable: Some(Movable {  }),
        reflector: Some(ReflectsLaser { orientation }),
        actuator: Some(Actuator {  }),
        ..EntityData::bare(Position { x, y })
    }
}

/// True if `later` is `earlier` except for its position and pulse mark.
pub open spec fn moved_only_at(earlier: EntityData, later: EntityData) -> bool {
    later == (EntityData { position: later.position, actuated: later.actuated, ..earlier })
}

/// True if the entities of `later` are those of `earlier` except for their
/// positions and pulse marks.
pub open spec fn moved_only(earlier: Seq<EntityData>, later: Seq<EntityData>) -> bool {
    &&& earlier.len() == later.len()
    &&& forall|i: int| 0 <= i < earlier.len() ==> moved_only_at(earlier[i], #[trigger] later[i])
}

/// True if the entities stand on the same tiles in `a` and in `b`, and
/// their reflectors are oriented alike once pending pulses are consumed.
pub open spec fn same_core(a: Seq<EntityData>, b: Seq<EntityData>) -> bool {
    &&& a.len() == b.len()
    &&& forall|i: int|
        0 <= i < a.len() ==> (#[trigger] a[i]).position == b[i].position
            && a[i].effective_orientation() == b[i].effective_orientation()
}

/// True if the two records stand on the same tile with reflectors, if
/// any, that are diagonal and oriented alike once pending pulses are
/// consumed.
pub open spec fn alike_at(a: EntityData, b: EntityData) -> bool {
    &&& a.position == b.position
    &&& a.effective_orientation() == b.effective_orientation()
    &&& a.reflector is Some ==> a.reflector->0.orientation.is_diagonal()
    &&& b.reflector is Some ==> b.reflector->0.orientation.is_diagonal()
}

/// True if the two worlds are the same to the search: their entities
/// stand on the same tiles, and their reflectors are diagonal and oriented
/// alike once pending pulses are consumed.
pub open spec fn alike(a: Seq<EntityData>, b: Seq<EntityData>) -> bool {
    &&& a.len() == b.len()
    &&& forall|i: int| 0 <= i < a.len() ==> alike_at(#[trigger] a[i], b[i])
}

/// Worlds that are alike to a third are alike.
pub proof fn lemma_alike_transitive(a: Seq<EntityData>, b: Seq<EntityData>, c: Seq<EntityData>)
    requires
        alike(a, b),
        alike(b, c),
    ensures
        alike(a, c),
{
    assert forall|i: int| 0 <= i < a.len() implies alike_at(#[trigger] a[i], c[i]) by {
        assert(alike_at(a[i], b[i]));
        assert(alike_at(b[i], c[i]));
    }
}

/// Worlds that are alike stand on the same tiles, oriented alike.
pub proof fn lemma_alike_core(a: Seq<EntityData>, b: Seq<EntityData>)
    requires
        alike(a, b),
    ensures
        same_core(a, b),
        alike(b, a),
{
    assert forall|i: int| 0 <= i < a.len() implies (#[trigger] a[i]).position == b[i].position
        && a[i].effective_orientation() == b[i].effective_orientation() by {
        assert(alike_at(a[i], b[i]));
    }
    assert forall|i: int| 0 <= i < b.len() implies alike_at(#[trigger] b[i], a[i]) by {
        assert(alike_at(a[i], b[i]));
    }
}

/// Moving and pulsing entities twice still only moves and pulses them.
pub proof fn lemma_moved_only_transitive(
    a: Seq<EntityData>,
    b: Seq<EntityData>,
    c: Seq<EntityData>,
)
    requires
        moved_only(a, b),
        moved_only(b, c),
    ensures
        moved_only(a, c),
{
    assert forall|i: int| 0 <= i < a.len() implies moved_only_at(a[i], #[trigger] c[i]) by {
        assert(moved_only_at(a[i], b[i]));
        assert(moved_only_at(b[i], c[i]));
    }
}

impl World {
    /// Every record is well formed, and every entity that a door lists has
    /// an `Activable`.
    pub open spec fn wf(&self) -> bool {
        &&& forall|i: int| 0 <= i < self@.len() ==> data_wf(#[trigger] self@[i], self@.len() as int)
        &&& forall|i: int, k: int|
            0 <= i < self@.len() && self@[i].door is Some && 0 <= k
                < self@[i].door->0.activations@.len() ==> (#[trigger] self@[self@[i].door->0.activations@[k].0 as int]).activable is Some
    }

    /// The number of entities fits a `usize`.
    pub proof fn lemma_bounded(&self)
        ensures
            self@.len() <= usize::MAX,
    {
        assert(self.entities@.len() == self.entities.len());
    }

    /// True if `e` is a handle of this world.
    pub open spec fn has(&self, e: Entity) -> bool {
        e.0 < self@.len()
    }

    /// Two well-formed worlds with the same core are alike.
    pub proof fn lemma_alike(&self, other: &World)
        requires
            self.wf(),
            other.wf(),
            same_core(self@, other@),
        ensures
            alike(self@, other@),
    {
        assert forall|i: int| 0 <= i < self@.len() implies alike_at(#[trigger] self@[i], other@[i]) by {
            assert(data_wf(self@[i], self@.len() as int));
            assert(data_wf(other@[i], other@.len() as int));
        }
    }

    /// True if `other` holds the same entities, possibly at a later time.
    pub open spec fn same_entities(&self, other: &World) -> bool {
        &&& self@.len() == other@.len()
        &&& forall|i: int| 0 <= i < self@.len() ==> (#[trigger] self@[i]).same_kind(other@[i])
    }

    /// A world without entities.
    pub fn new() -> (w: World)
        ensures
            w@ == Seq::<EntityData>::empty(),
            w.wf(),
    {
        World { entities: Vec::new() }
    }

    /// Number of entities.
    pub fn len(&self) -> (n: usize)
        ensures
            n == self@.len(),
    {
        self.entities.len()
    }

    /// The record of an entity.
    pub fn get(&self, e: Entity) -> (data: &EntityData)
        requires
            self.has(e),
        ensures
            *data == self@[e.0 as int],
    {
        &self.entities[e.0]
    }

    /// Adds an entity and returns its handle.
    pub fn spawn(&mut self, data: EntityData) -> (e: Entity)
        requires
            old(self).wf(),
            data_wf(data, old(self)@.len() as int),
            data.door is Some ==> forall|k: int|
                0 <= k < data.door->0.activations@.len() ==> (#[trigger] old(self)@[data.door->0.activations@[k].0 as int]).activable is Some,
        ensures
            final(self)@ == old(self)@.push(data),
            e.0 == old(self)@.len(),
            final(self).wf(),
    {
        let e = Entity(self.entities.len());
        self.entities.push(data);
        assert forall|i: int, k: int|
            0 <= i < self@.len() && self@[i].door is Some && 0 <= k
                < self@[i].door->0.activations@.len() implies (#[trigger] self@[self@[i].door->0.activations@[k].0 as int]).activable is Some by {
            if i < old(self)@.len() {
                assert(data_wf(old(self)@[i], old(self)@.len() as int));
            }
        }
        e
    }

    /// True if `later` differs from this world at most in where entities
    /// stand and in which of them have a pulse pending.
    pub open spec fn same_but_moved(&self, later: &World) -> bool {
        moved_only(self@, later@)
    }

    /// Entities that were only moved or pulsed are the same entities, and
    /// leave the world well formed.
    pub proof fn lemma_moved_wf(&self, later: &World)
        requires
            self.same_but_moved(later),
        ensures
            self.same_entities(later),
            self.wf() ==> later.wf(),
    {
        assert forall|i: int| 0 <= i < self@.len() implies (#[trigger] self@[i]).same_kind(
            later@[i],
        ) by {
            assert(moved_only_at(self@[i], later@[i]));
        }
        if self.wf() {
            assert forall|i: int|
                0 <= i < later@.len() && (#[trigger] later@[i]).reflector is Some implies later@[i].reflector->0.orientation.is_diagonal() by {
                assert(moved_only_at(self@[i], later@[i]));
                assert(data_wf(self@[i], self@.len() as int));
            }
            self.lemma_wf_kept(later);
        }
    }

    /// A world that holds the same entities as a well-formed one, with
    /// diagonal reflectors, is well formed.
    pub proof fn lemma_wf_kept(&self, later: &World)
        requires
            self.wf(),
            self.same_entities(later),
            forall|i: int|
                0 <= i < later@.len() && (#[trigger] later@[i]).reflector is Some
                    ==> later@[i].reflector->0.orientation.is_diagonal(),
        ensures
            later.wf(),
    {
        assert forall|i: int| 0 <= i < later@.len() implies data_wf(
            #[trigger] later@[i],
            later@.len() as int,
        ) by {
            assert(self@[i].same_kind(later@[i]));
            assert(data_wf(self@[i], self@.len() as int));
        }
        assert forall|i: int, k: int|
            0 <= i < later@.len() && later@[i].door is Some && 0 <= k
                < later@[i].door->0.activations@.len() implies (#[trigger] later@[later@[i].door->0.activations@[k].0 as int]).activable is Some by {
            assert(self@[i].same_kind(later@[i]));
            assert(data_wf(self@[i], self@.len() as int));
            let target = self@[i].door->0.activations@[k].0 as int;
            assert(self@[target].activable is Some);
            assert(self@[target].same_kind(later@[target]));
        }
    }

    /// Moves an entity.
    pub fn set_position(&mut self, e: Entity, position: Position)
        requires
            old(self).has(e),
        ensures
            final(self)@ == old(self)@.update(
                e.0 as int,
                EntityData { position, ..old(self)@[e.0 as int] },
            ),
    {
        self.entities[e.0].position = position;
    }

    /// Sets or removes the mark of a pending actuation pulse.
    pub fn set_actuated(&mut self, e: Entity, actuated: Option<Actuated>)
        requires
            old(self).has(e),
        ensures
            final(self)@ == old(self)@.update(
                e.0 as int,
                EntityData { actuated, ..old(self)@[e.0 as int] },
            ),
    {
        self.entities[e.0].actuated = actuated;
    }

    /// Turns the reflector of an entity.
    pub fn set_orientation(&mut self, e: Entity, orientation: Cardinal)
        requires
            old(self).has(e),
            old(self)@[e.0 as int].reflector is Some,
        ensures
            final(self)@ == old(self)@.update(
                e.0 as int,
                EntityData {
                    reflector: Some(ReflectsLaser { orientation }),
                    ..old(self)@[e.0 as int]
                },
            ),
    {
        self.entities[e.0].reflector = Some(ReflectsLaser { orientation });
    }

    /// Records whether a plate or receptor is active.
    pub fn set_active(&mut self, e: Entity, active: bool)
        requires
            old(self).has(e),
            old(self)@[e.0 as int].activable is Some,
        ensures
            final(self)@ == old(self)@.update(
                e.0 as int,
                EntityData {
                    activable: Some(
                        Activable { active, kind: old(self)@[e.0 as int].activable->0.kind },
                    ),
                    ..old(self)@[e.0 as int]
                },
            ),
    {
        match &mut self.entities[e.0].activable {
            Some(activable) => {
                activable.active = active;
            },
            None => {},
        }
    }

    /// Opens or closes a door.
    pub fn set_opened(&mut self, e: Entity, opened: bool)
        requires
            old(self).has(e),
            old(self)@[e.0 as int].door is Some,
        ensures
            final(self)@ == old(self)@.update(
                e.0 as int,
                EntityData {
                    door: Some(
                        Door { opened, activations: old(self)@[e.0 as int].door->0.activations },
                    ),
                    ..old(self)@[e.0 as int]
                },
            ),
    {
        match &mut self.entities[e.0].door {
            Some(door) => {
                door.opened = opened;
            },
            None => {},
        }
    }

    /// Adds the player.
    pub fn spawn_player(&mut self, x: i32, y: i32) -> (e: Entity)
        requires
            old(self).wf(),
        ensures
            final(self)@ == old(self)@.push(player_data(x, y)),
            e.0 == old(self)@.len(),
            final(self).wf(),
    {
        self.spawn(
            EntityData {
                position: Position { x, y },
                player: Some(Player {  }),
                block: None,
                blocks_tile: None,
                blocks_laser: None,
                movable: None,
                actuator: None,
                actuated: None,
                laser: None,
                reflector: None,
                activable: None,
                door: None,
            },
        )
    }

    /// Adds a laser emitter: it blocks its tile, stops beams and can be
    /// pushed.
    pub fn spawn_laser(&mut self, x: i32, y: i32, direction: Cardinal) -> (e: Entity)
        requires
            old(self).wf(),
            direction.is_axis(),
        ensures
            final(self)@ == old(self)@.push(laser_data(x, y, direction)),
            e.0 == old(self)@.len(),
            final(self).wf(),
    {
        self.spawn(
            EntityData {
                position: Position { x, y },
                player: None,
                block: None,
                blocks_tile: Some(BlocksTile {  }),
                blocks_laser: Some(BlocksLaser {  }),
                movable: Some(Movable {  }),
                actuator: None,
                actuated: None,
                laser: Some(Laser { direction }),
                reflector: None,
                activable: None,
                door: None,
            },
        )
    }

    /// Adds a pushable block: it blocks its tile and stops beams.
    pub fn spawn_block(&mut self, x: i32, y: i32) -> (e: Entity)
        requires
            old(self).wf(),
        ensures
            final(self)@ == old(self)@.push(block_data(x, y)),
            e.0 == old(self)@.len(),
            final(self).wf(),
    {
        self.spawn(
            EntityData {
                position: Position { x, y },
                player: None,
                block: Some(Block {  }),
                blocks_tile: Some(BlocksTile {  }),
                blocks_laser: Some(BlocksLaser {  }),
                movable: Some(Movable {  }),
                actuator: None,
                actuated: None,
                laser: None,
                reflector: None,
                activable: None,
                door: None,
            },
        )
    }

    /// Adds a pressure plate, inactive.
    pub fn spawn_weight_plate(&mut self, x: i32, y: i32) -> (e: Entity)
        requires
            old(self).wf(),
        ensures
            final(self)@ == old(self)@.push(weight_plate_data(x, y)),
            e.0 == old(self)@.len(),
            final(self).wf(),
    {
        self.spawn(
            EntityData {
                position: Position { x, y },
                player: None,
                block: None,
                blocks_tile: None,
                blocks_laser: None,
                movable: None,
                actuator: None,
                actuated: None,
                laser: None,
                reflector: None,
                activable: Some(Activable { active: false, kind: ActivationKind::Weight }),
                door: None,
            },
        )
    }

    /// Adds a laser receptor, inactive: it blocks its tile and stops beams.
    pub fn spawn_laser_receptor(&mut self, x: i32, y: i32) -> (e: Entity)
        requires
            old(self).wf(),
        ensures
            final(self)@ == old(self)@.push(laser_receptor_data(x, y)),
            e.0 == old(self)@.len(),
            final(self).wf(),
    {
        self.spawn(
            EntityData {
                position: Position { x, y },
                player: None,
                block: None,
                blocks_tile: Some(BlocksTile {  }),
                blocks_laser: Some(BlocksLaser {  }),
                movable: None,
                actuator: None,
                actuated: None,
                laser: None,
                reflector: None,
                activable: Some(Activable { active: false, kind: ActivationKind::Laser }),
                door: None,
            },
        )
    }

    /// True if every handle in `activations` is a plate or receptor of
    /// this world.
    pub open spec fn all_activable(&self, activations: Seq<Entity>) -> bool {
        forall|k: int|
            0 <= k < activations.len() ==> self.has(#[trigger] activations[k])
                && self@[activations[k].0 as int].activable is Some
    }

    /// Checks that every handle in `activations` is a plate or receptor of
    /// this world.
    pub fn can_gate(&self, activations: &Vec<Entity>) -> (b: bool)
        ensures
            b == self.all_activable(activations@),
    {
        let mut k: usize = 0;
        while k < activations.len()
            invariant
                0 <= k <= activations@.len(),
                forall|j: int|
                    0 <= j < k ==> self.has(#[trigger] activations@[j])
                        && self@[activations@[j].0 as int].activable is Some,
            decreases activations@.len() - k,
        {
            let e = activations[k];
            if e.0 >= self.entities.len() {
                return false;
            }
            if self.entities[e.0].activable.is_none() {
                return false;
            }
            k = k + 1;
        }
        true
    }

    /// Adds a closed door that stops beams and is gated by `activations`.
    pub fn spawn_door(&mut self, x: i32, y: i32, activations: Vec<Entity>) -> (e: Entity)
        requires
            old(self).wf(),
            old(self).all_activable(activations@),
        ensures
            final(self)@ == old(self)@.push(door_data(x, y, activations)),
            e.0 == old(self)@.len(),
            final(self).wf(),
    {
        self.spawn(
            EntityData {
                position: Position { x, y },
                player: None,
                block: None,
                blocks_tile: None,
                blocks_laser: Some(BlocksLaser {  }),
                movable: None,
                actuator: None,
                actuated: None,
                laser: None,
                reflector: None,
                activable: None,
                door: Some(Door { opened: false, activations }),
            },
        )
    }

    /// Adds a reflector: it blocks its tile, can be pushed and can be
    /// actuated.
    pub fn spawn_laser_reflector(&mut self, x: i32, y: i32, orientation: Cardinal) -> (e: Entity)
        requires
            old(self).wf(),
            orientation.is_diagonal(),
        ensures
            final(self)@ == old(self)@.push(laser_reflector_data(x, y, orientation)),
            e.0 == old(self)@.len(),
            final(self).wf(),
    {
        self.spawn(
            EntityData {
                position: Position { x, y },
                player: None,
                block: None,
                blocks_tile: Some(BlocksTile {  }),
                blocks_laser: None,
                movable: Some(Movable {  }),
                actuator: Some(Actuator {  }),
                actuated: None,
                laser: None,
                reflector: Some(ReflectsLaser { orientation }),
                activable: None,
                door: None,
            },
        )
    }
}

} // verus!
