//! The cache of world states that the search has already visited.

use vstd::prelude::*;
use crate::components::{Cardinal, Entity, Position};
use crate::world::{EntityData, World};

verus! {

/// What the search distinguishes of a world: where each tracked movable
/// stands, and where each tracked actuator stands and how it is oriented.
pub struct Snapshot {
    pub movables: Vec<Position>,
    pub actuators: Vec<(Position, Option<Cardinal>)>,
}

/// The mathematical content of a [`Snapshot`].
pub struct SnapshotView {
    pub movables: Seq<Position>,
    pub actuators: Seq<(Position, Option<Cardinal>)>,
}

impl View for Snapshot {
    type V = SnapshotView;

    open spec fn view(&self) -> SnapshotView {
        SnapshotView { movables: self.movables@, actuators: self.actuators@ }
    }
}

/// The snapshot of `world` over the given movables and actuators, in the
/// order in which they are listed. The orientation of an actuator is the
/// one its reflector has once a pending pulse is consumed.
pub open spec fn snapshot_of(
    world: Seq<EntityData>,
    movables: Seq<Entity>,
    actuators: Seq<Entity>,
) -> SnapshotView {
    SnapshotView {
        movables: Seq::new(movables.len(), |k: int| world[movables[k].0 as int].position),
        actuators: Seq::new(
            actuators.len(),
            |k: int|
                (
                    world[actuators[k].0 as int].position,
                    world[actuators[k].0 as int].effective_orientation(),
                ),
        ),
    }
}

/// The handles, in increasing order, of the first `n` entities that are
/// movable.
pub open spec fn movables_upto(world: Seq<EntityData>, n: int) -> Seq<Entity>
    decreases n,
{
    if n <= 0 {
        Seq::empty()
    } else if world[n - 1].movable is Some {
        movables_upto(world, n - 1).push(Entity((n - 1) as usize))
    } else {
        movables_upto(world, n - 1)
    }
}

/// The handles, in increasing order, of the first `n` entities that are
/// players.
pub open spec fn players_upto(world: Seq<EntityData>, n: int) -> Seq<Entity>
    decreases n,
{
    if n <= 0 {
        Seq::empty()
    } else if world[n - 1].player is Some {
        players_upto(world, n - 1).push(Entity((n - 1) as usize))
    } else {
        players_upto(world, n - 1)
    }
}

/// The handles, in increasing order, of the first `n` entities that are
/// actuators.
pub open spec fn actuators_upto(world: Seq<EntityData>, n: int) -> Seq<Entity>
    decreases n,
{
    if n <= 0 {
        Seq::empty()
    } else if world[n - 1].actuator is Some {
        actuators_upto(world, n - 1).push(Entity((n - 1) as usize))
    } else {
        actuators_upto(world, n - 1)
    }
}

/// The entities whose positions a snapshot records: every movable, then
/// every player.
pub open spec fn tracked_movables(world: Seq<EntityData>) -> Seq<Entity> {
    movables_upto(world, world.len() as int) + players_upto(world, world.len() as int)
}

/// The entities whose positions and orientations a snapshot records.
pub open spec fn tracked_actuators(world: Seq<EntityData>) -> Seq<Entity> {
    actuators_upto(world, world.len() as int)
}

/// What presenting `key` to a cache that has recorded `recorded` answers,
/// and what the cache has recorded afterwards.
pub open spec fn presented(recorded: Seq<SnapshotView>, key: SnapshotView) -> (
    bool,
    Seq<SnapshotView>,
) {
    if recorded.contains(key) {
        (true, recorded)
    } else {
        (false, recorded.push(key))
    }
}

/// What the cache has recorded after the keys are presented in order.
pub open spec fn presented_all(recorded: Seq<SnapshotView>, keys: Seq<SnapshotView>) -> Seq<
    SnapshotView,
>
    decreases keys.len(),
{
    if keys.len() == 0 {
        recorded
    } else {
        presented(presented_all(recorded, keys.drop_last()), keys.last()).1
    }
}

/// Cache soundness: a snapshot is new exactly when it is presented for the
/// first time. Presenting it records it; once it is recorded, it is
/// answered as seen however many other snapshots are presented in between;
/// and a snapshot that was never presented is answered as new, whatever
/// else the cache holds.
pub proof fn lemma_cache_sound(
    recorded: Seq<SnapshotView>,
    key: SnapshotView,
    between: Seq<SnapshotView>,
)
    ensures
        presented(recorded, key).0 == recorded.contains(key),
        presented(presented_all(presented(recorded, key).1, between), key).0,
        presented(presented_all(presented(recorded, key).1, between), key).1 == presented_all(
            presented(recorded, key).1,
            between,
        ),
        !recorded.contains(key) && !between.contains(key) ==> !presented(
            presented_all(recorded, between),
            key,
        ).0,
{
    let first = presented(recorded, key).1;
    if recorded.contains(key) {
    } else {
        assert(first[first.len() - 1] == key);
    }
    assert(first.contains(key));
    lemma_presented_all_keeps(first, between, key);
    if !recorded.contains(key) && !between.contains(key) {
        lemma_presented_all_adds(recorded, between, key);
    }
}

/// What is recorded stays recorded.
pub proof fn lemma_presented_all_keeps(
    recorded: Seq<SnapshotView>,
    keys: Seq<SnapshotView>,
    key: SnapshotView,
)
    requires
        recorded.contains(key),
    ensures
        presented_all(recorded, keys).contains(key),
    decreases keys.len(),
{
    if keys.len() > 0 {
        lemma_presented_all_keeps(recorded, keys.drop_last(), key);
        let mid = presented_all(recorded, keys.drop_last());
        let i = choose|i: int| 0 <= i < mid.len() && mid[i] == key;
        if !mid.contains(keys.last()) {
            assert(mid.push(keys.last())[i] == key);
        }
    }
}

/// Nothing is recorded but what was presented.
pub proof fn lemma_presented_all_adds(
    recorded: Seq<SnapshotView>,
    keys: Seq<SnapshotView>,
    key: SnapshotView,
)
    requires
        !recorded.contains(key),
        !keys.contains(key),
    ensures
        !presented_all(recorded, keys).contains(key),
    decreases keys.len(),
{
    if keys.len() > 0 {
        let init = keys.drop_last();
        if init.contains(key) {
            let i = choose|i: int| 0 <= i < init.len() && init[i] == key;
            assert(keys[i] == key);
        }
        lemma_presented_all_adds(recorded, init, key);
        let mid = presented_all(recorded, init);
        let end = presented_all(recorded, keys);
        if end.contains(key) {
            let i = choose|i: int| 0 <= i < end.len() && end[i] == key;
            if i < mid.len() {
                assert(mid[i] == key);
            } else {
                assert(keys[keys.len() - 1] == key);
            }
        }
    }
}

/// Two worlds have the same snapshot exactly when every tracked movable
/// stands on the same tile in both and every tracked actuator stands on
/// the same tile with the same orientation in both.
pub proof fn lemma_snapshot_distinguishes(
    a: Seq<EntityData>,
    b: Seq<EntityData>,
    movables: Seq<Entity>,
    actuators: Seq<Entity>,
)
    ensures
        snapshot_of(a, movables, actuators) == snapshot_of(b, movables, actuators) <==> {
            &&& forall|k: int|
                0 <= k < movables.len() ==> a[(#[trigger] movables[k]).0 as int].position
                    == b[movables[k].0 as int].position
            &&& forall|k: int|
                0 <= k < actuators.len() ==> a[(#[trigger] actuators[k]).0 as int].position
                    == b[actuators[k].0 as int].position && a[actuators[k].0 as int].effective_orientation()
                    == b[actuators[k].0 as int].effective_orientation()
        },
{
    let sa = snapshot_of(a, movables, actuators);
    let sb = snapshot_of(b, movables, actuators);
    if sa == sb {
        assert forall|k: int| 0 <= k < movables.len() implies a[(#[trigger] movables[k]).0 as int].position
            == b[movables[k].0 as int].position by {
            assert(sa.movables[k] == sb.movables[k]);
        }
        assert forall|k: int| 0 <= k < actuators.len() implies a[(#[trigger] actuators[k]).0 as int].position
            == b[actuators[k].0 as int].position && a[actuators[k].0 as int].effective_orientation()
            == b[actuators[k].0 as int].effective_orientation() by {
            assert(sa.actuators[k] == sb.actuators[k]);
        }
    }
    if {
        &&& forall|k: int|
            0 <= k < movables.len() ==> a[(#[trigger] movables[k]).0 as int].position
                == b[movables[k].0 as int].position
        &&& forall|k: int|
            0 <= k < actuators.len() ==> a[(#[trigger] actuators[k]).0 as int].position
                == b[actuators[k].0 as int].position && a[actuators[k].0 as int].effective_orientation()
                == b[actuators[k].0 as int].effective_orientation()
    } {
        assert(sa.movables =~= sb.movables);
        assert(sa.actuators =~= sb.actuators);
    }
}

/// The tracked handles are handles of the world.
proof fn lemma_tracked_in(world: Seq<EntityData>, n: int)
    requires
        0 <= n <= world.len(),
        world.len() <= usize::MAX,
    ensures
        forall|k: int| 0 <= k < movables_upto(world, n).len() ==> (#[trigger] movables_upto(world, n)[k]).0 < n,
        forall|k: int| 0 <= k < players_upto(world, n).len() ==> (#[trigger] players_upto(world, n)[k]).0 < n,
        forall|k: int| 0 <= k < actuators_upto(world, n).len() ==> (#[trigger] actuators_upto(world, n)[k]).0 < n,
    decreases n,
{
    if n > 0 {
        lemma_tracked_in(world, n - 1);
        let last = Entity((n - 1) as usize);
        assert(last.0 == n - 1);
        assert forall|k: int| 0 <= k < movables_upto(world, n).len() implies (#[trigger] movables_upto(
            world,
            n,
        )[k]).0 < n by {
            if k < movables_upto(world, n - 1).len() {
                assert(movables_upto(world, n)[k] == movables_upto(world, n - 1)[k]);
            }
        }
        assert forall|k: int| 0 <= k < players_upto(world, n).len() implies (#[trigger] players_upto(
            world,
            n,
        )[k]).0 < n by {
            if k < players_upto(world, n - 1).len() {
                assert(players_upto(world, n)[k] == players_upto(world, n - 1)[k]);
            }
        }
        assert forall|k: int| 0 <= k < actuators_upto(world, n).len() implies (#[trigger] actuators_upto(
            world,
            n,
        )[k]).0 < n by {
            if k < actuators_upto(world, n - 1).len() {
                assert(actuators_upto(world, n)[k] == actuators_upto(world, n - 1)[k]);
            }
        }
    }
}

/// The visited-state cache: the entities it tracks, fixed on first use,
/// and the distinct snapshots recorded so far, in the order in which they
/// were first presented.
pub struct AiStatesCache {
    movables: Vec<Entity>,
    actuators: Vec<Entity>,
    seen: Vec<Snapshot>,
}

impl AiStatesCache {
    /// The entities whose positions the cache records.
    pub closed spec fn movables(&self) -> Seq<Entity> {
        self.movables@
    }

    /// The entities whose positions and orientations the cache records.
    pub closed spec fn actuators(&self) -> Seq<Entity> {
        self.actuators@
    }

    /// The snapshots recorded so far.
    pub closed spec fn recorded(&self) -> Seq<SnapshotView> {
        Seq::new(self.seen@.len(), |i: int| self.seen@[i]@)
    }

    /// Every tracked entity is a handle of `world`.
    pub open spec fn fits(&self, world: &World) -> bool {
        &&& forall|k: int| 0 <= k < self.movables().len() ==> world.has(#[trigger] self.movables()[k])
        &&& forall|k: int|
            0 <= k < self.actuators().len() ==> world.has(#[trigger] self.actuators()[k])
    }

    /// The snapshot of `world` over the entities that the cache tracks.
    pub open spec fn key_of(&self, world: &World) -> SnapshotView {
        snapshot_of(world@, self.movables(), self.actuators())
    }

    /// A cache that tracks nothing yet and has recorded nothing.
    pub fn new() -> (cache: AiStatesCache)
        ensures
            cache.movables() == Seq::<Entity>::empty(),
            cache.actuators() == Seq::<Entity>::empty(),
            cache.recorded() == Seq::<SnapshotView>::empty(),
    {
        let cache = AiStatesCache { movables: Vec::new(), actuators: Vec::new(), seen: Vec::new() };
        assert(cache.recorded() =~= Seq::<SnapshotView>::empty());
        cache
    }

    /// Fixes the entities that snapshots are taken of: every movable of
    /// `world`, then every player, and every actuator.
    pub fn init(&mut self, world: &World)
        ensures
            final(self).movables() == tracked_movables(world@),
            final(self).actuators() == tracked_actuators(world@),
            final(self).recorded() == old(self).recorded(),
            final(self).fits(world),
    {
        self.movables.clear();
        self.actuators.clear();
        let n = world.len();
        let mut i: usize = 0;
        while i < n
            invariant
                0 <= i <= n,
                n == world@.len(),
                self.seen == old(self).seen,
                self.movables@ == movables_upto(world@, i as int),
                self.actuators@ == actuators_upto(world@, i as int),
            decreases n - i,
        {
            let data = world.get(Entity(i));
            if data.movable.is_some() {
                self.movables.push(Entity(i));
            }
            if data.actuator.is_some() {
                self.actuators.push(Entity(i));
            }
            i = i + 1;
        }
        let ghost pushed = self.movables@;
        let mut i: usize = 0;
        while i < n
            invariant
                0 <= i <= n,
                n == world@.len(),
                self.seen == old(self).seen,
                pushed == movables_upto(world@, n as int),
                self.movables@ == pushed + players_upto(world@, i as int),
                self.actuators@ == actuators_upto(world@, n as int),
            decreases n - i,
        {
            if world.get(Entity(i)).player.is_some() {
                self.movables.push(Entity(i));
                assert(self.movables@ =~= pushed + players_upto(world@, i + 1));
            }
            i = i + 1;
        }
        proof {
            lemma_tracked_in(world@, n as int);
        }
    }

    /// Presents the state of `world` to the cache: answers whether the
    /// same snapshot was presented before and, if it was not, records
    /// it. The first presentation also fixes the tracked entities.
    pub fn has_seen(&mut self, world: &World) -> (b: bool)
        requires
            old(self).fits(world),
        ensures
            final(self).movables() == (if old(self).recorded().len() == 0 {
                tracked_movables(world@)
            } else {
                old(self).movables()
            }),
            final(self).actuators() == (if old(self).recorded().len() == 0 {
                tracked_actuators(world@)
            } else {
                old(self).actuators()
            }),
            final(self).fits(world),
            (b, final(self).recorded()) == presented(old(self).recorded(), final(self).key_of(world)),
    {
        if self.seen.len() == 0 {
            self.init(world);
        }
        let mut m: Vec<Position> = Vec::new();
        let mut k: usize = 0;
        while k < self.movables.len()
            invariant
                0 <= k <= self.movables@.len(),
                self.fits(world),
                m@.len() == k,
                forall|j: int| 0 <= j < k ==> m@[j] == world@[self.movables@[j].0 as int].position,
            decreases self.movables@.len() - k,
        {
            assert(world.has(self.movables()[k as int]));
            m.push(world.get(self.movables[k]).position);
            k = k + 1;
        }
        let mut a: Vec<(Position, Option<Cardinal>)> = Vec::new();
        let mut k: usize = 0;
        while k < self.actuators.len()
            invariant
                0 <= k <= self.actuators@.len(),
                self.fits(world),
                a@.len() == k,
                forall|j: int|
                    0 <= j < k ==> a@[j] == (
                        world@[self.actuators@[j].0 as int].position,
                        world@[self.actuators@[j].0 as int].effective_orientation(),
                    ),
            decreases self.actuators@.len() - k,
        {
            assert(world.has(self.actuators()[k as int]));
            let data = world.get(self.actuators[k]);
            let orientation = match data.reflector {
                Some(reflector) => Some(
                    if data.actuated.is_some() {
                        reflector.orientation.flip()
                    } else {
                        reflector.orientation
                    },
                ),
                None => None,
            };
            a.push((data.position, orientation));
            k = k + 1;
        }
        let entry = Snapshot { movables: m, actuators: a };
        let ghost key = self.key_of(world);
        proof {
            assert(entry@.movables =~= key.movables);
            assert(entry@.actuators =~= key.actuators);
        }
        let ghost fixed = *self;
        let mut i: usize = 0;
        while i < self.seen.len()
            invariant
                0 <= i <= self.seen@.len(),
                entry@ == key,
                *self == fixed,
                key == self.key_of(world),
                self.fits(world),
                self.recorded() == old(self).recorded(),
                self.movables() == (if old(self).recorded().len() == 0 {
                    tracked_movables(world@)
                } else {
                    old(self).movables()
                }),
                self.actuators() == (if old(self).recorded().len() == 0 {
                    tracked_actuators(world@)
                } else {
                    old(self).actuators()
                }),
                forall|j: int| 0 <= j < i ==> self.recorded()[j] != key,
            decreases self.seen@.len() - i,
        {
            if same_snapshot(&self.seen[i], &entry) {
                assert(self.recorded()[i as int] == key);
                return true;
            }
            i = i + 1;
        }
        let ghost before = self.recorded();
        self.seen.push(entry);
        assert(self.recorded() =~= before.push(key));
        false
    }

    /// Number of distinct snapshots recorded.
    pub fn get_size(&self) -> (n: usize)
        ensures
            n == self.recorded().len(),
    {
        self.seen.len()
    }
}

/// True if the two optional orientations are the same.
fn same_orientation(a: Option<Cardinal>, b: Option<Cardinal>) -> (same: bool)
    ensures
        same == (a == b),
{
    match (a, b) {
        (Some(x), Some(y)) => x == y,
        (None, None) => true,
        _ => false,
    }
}

/// True if the two snapshots hold the same positions and orientations in
/// the same order.
pub fn same_snapshot(a: &Snapshot, b: &Snapshot) -> (same: bool)
    ensures
        same == (a@ == b@),
{
    if a.movables.len() != b.movables.len() || a.actuators.len() != b.actuators.len() {
        return false;
    }
    let mut k: usize = 0;
    while k < a.movables.len()
        invariant
            0 <= k <= a.movables@.len(),
            a.movables@.len() == b.movables@.len(),
            forall|j: int| 0 <= j < k ==> a.movables@[j] == b.movables@[j],
        decreases a.movables@.len() - k,
    {
        if !(a.movables[k] == b.movables[k]) {
            return false;
        }
        k = k + 1;
    }
    let mut k: usize = 0;
    while k < a.actuators.len()
        invariant
            0 <= k <= a.actuators@.len(),
            a.actuators@.len() == b.actuators@.len(),
            a.movables@ =~= b.movables@,
            forall|j: int| 0 <= j < k ==> a.actuators@[j] == b.actuators@[j],
        decreases a.actuators@.len() - k,
    {
        let x = a.actuators[k];
        let y = b.actuators[k];
        if !(x.0 == y.0) || !same_orientation(x.1, y.1) {
            return false;
        }
        k = k + 1;
    }
    assert(a.actuators@ =~= b.actuators@);
    true
}

} // verus!
