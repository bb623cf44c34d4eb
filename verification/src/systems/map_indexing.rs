//! Rebuilds the content and blocked layers of the map.

use vstd::prelude::*;
use crate::components::Entity;
use crate::map::{TileMap, TileType};
use crate::world::{EntityData, World};

verus! {

/// The handles, in increasing order, of the first `n` entities that stand
/// on tile `(x, y)`.
pub open spec fn standing_upto(world: Seq<EntityData>, n: int, x: int, y: int) -> Seq<Entity>
    decreases n,
{
    if n <= 0 {
        Seq::empty()
    } else if world[n - 1].position.x == x && world[n - 1].position.y == y {
        standing_upto(world, n - 1, x, y).push(Entity((n - 1) as usize))
    } else {
        standing_upto(world, n - 1, x, y)
    }
}

/// True if the entity blocks the tile it stands on: it is tagged
/// `BlocksTile`, or it is a door that is closed.
pub open spec fn blocks(data: EntityData) -> bool {
    data.blocks_tile is Some || (data.door is Some && !data.door->0.opened)
}

/// True if one of the first `n` entities blocks tile `(x, y)`.
pub open spec fn blocked_upto(world: Seq<EntityData>, n: int, x: int, y: int) -> bool {
    exists|i: int|
        0 <= i < n && (#[trigger] world[i]).position.x == x && world[i].position.y == y && blocks(
            world[i],
        )
}

/// True if the content layer of `map` is that of `world`: each tile of the
/// grid lists the entities that stand on it, in increasing order of their
/// handles.
pub open spec fn content_indexed(map: &TileMap, world: Seq<EntityData>) -> bool {
    forall|x: int, y: int|
        map.in_bounds(x, y) ==> #[trigger] map.content_at(x, y) == standing_upto(
            world,
            world.len() as int,
            x,
            y,
        )
}

/// True if the blocked layer of `map` is that of `world`: a tile is
/// blocked if it is a wall or an entity on it blocks it.
pub open spec fn blocked_indexed(map: &TileMap, world: Seq<EntityData>) -> bool {
    forall|x: int, y: int|
        #[trigger] map.blocked_at(x, y) == (map.tile_at(x, y) == TileType::Wall || blocked_upto(
            world,
            world.len() as int,
            x,
            y,
        ))
}

/// True if the content and blocked layers of `map` are those of `world`.
pub open spec fn indexed(map: &TileMap, world: Seq<EntityData>) -> bool {
    content_indexed(map, world) && blocked_indexed(map, world)
}

/// Which entities stand on a tile depends on where the entities stand
/// only.
pub proof fn lemma_standing_same(a: Seq<EntityData>, b: Seq<EntityData>, n: int, x: int, y: int)
    requires
        0 <= n <= a.len(),
        a.len() == b.len(),
        forall|i: int| 0 <= i < a.len() ==> (#[trigger] a[i]).position == b[i].position,
    ensures
        standing_upto(a, n, x, y) == standing_upto(b, n, x, y),
    decreases n,
{
    if n > 0 {
        lemma_standing_same(a, b, n - 1, x, y);
        assert(a[n - 1].position == b[n - 1].position);
    }
}

/// A content layer that is right for one world is right for every world
/// in which the entities stand on the same tiles.
pub proof fn lemma_content_indexed_same(map: &TileMap, a: Seq<EntityData>, b: Seq<EntityData>)
    requires
        content_indexed(map, a),
        a.len() == b.len(),
        forall|i: int| 0 <= i < a.len() ==> (#[trigger] a[i]).position == b[i].position,
    ensures
        content_indexed(map, b),
{
    assert forall|x: int, y: int| map.in_bounds(x, y) implies #[trigger] map.content_at(x, y)
        == standing_upto(b, b.len() as int, x, y) by {
        lemma_standing_same(a, b, a.len() as int, x, y);
    }
}

/// Every entity that an up-to-date content layer lists is a handle of the
/// world, and stands on the tile that it is listed on.
pub proof fn lemma_content_indexed_in(map: &TileMap, world: &World)
    requires
        content_indexed(map, world@),
    ensures
        map.content_in(world),
        forall|x: int, y: int, k: int|
            0 <= k < map.content_at(x, y).len() ==> world@[(#[trigger] map.content_at(
                x,
                y,
            )[k]).0 as int].position.x == x && world@[map.content_at(x, y)[k].0 as int].position.y
                == y,
{
    map.lemma_outside();
    world.lemma_bounded();
    assert forall|x: int, y: int, k: int| 0 <= k < map.content_at(x, y).len() implies world.has(
        #[trigger] map.content_at(x, y)[k],
    ) && world@[map.content_at(x, y)[k].0 as int].position.x == x && world@[map.content_at(
        x,
        y,
    )[k].0 as int].position.y == y by {
        if map.in_bounds(x, y) {
            lemma_standing_in(world@, world@.len() as int, x, y);
            lemma_standing_there(world@, world@.len() as int, x, y);
        }
    }
}

/// The entities that stand on a tile stand on that tile.
pub proof fn lemma_standing_there(world: Seq<EntityData>, n: int, x: int, y: int)
    requires
        0 <= n <= world.len(),
        world.len() <= usize::MAX,
    ensures
        forall|k: int|
            0 <= k < standing_upto(world, n, x, y).len() ==> world[(#[trigger] standing_upto(
                world,
                n,
                x,
                y,
            )[k]).0 as int].position.x == x && world[standing_upto(world, n, x, y)[k].0 as int].position.y
                == y,
    decreases n,
{
    if n > 0 {
        lemma_standing_there(world, n - 1, x, y);
        let last = Entity((n - 1) as usize);
        assert(last.0 == n - 1);
        assert forall|k: int| 0 <= k < standing_upto(world, n, x, y).len() implies world[(#[trigger] standing_upto(
            world,
            n,
            x,
            y,
        )[k]).0 as int].position.x == x && world[standing_upto(world, n, x, y)[k].0 as int].position.y
            == y by {
            if k < standing_upto(world, n - 1, x, y).len() {
                assert(standing_upto(world, n, x, y)[k] == standing_upto(world, n - 1, x, y)[k]);
            }
        }
    }
}

/// The handles that stand on a tile are handles of the world.
pub proof fn lemma_standing_in(world: Seq<EntityData>, n: int, x: int, y: int)
    requires
        0 <= n <= world.len(),
        world.len() <= usize::MAX,
    ensures
        forall|k: int|
            0 <= k < standing_upto(world, n, x, y).len() ==> (#[trigger] standing_upto(
                world,
                n,
                x,
                y,
            )[k]).0 < n,
    decreases n,
{
    if n > 0 {
        lemma_standing_in(world, n - 1, x, y);
        let last = Entity((n - 1) as usize);
        assert(last.0 == n - 1);
        assert forall|k: int| 0 <= k < standing_upto(world, n, x, y).len() implies (#[trigger] standing_upto(
            world,
            n,
            x,
            y,
        )[k]).0 < n by {
            if k < standing_upto(world, n - 1, x, y).len() {
                assert(standing_upto(world, n, x, y)[k] == standing_upto(world, n - 1, x, y)[k]);
            }
        }
    }
}

/// Rebuilds the content and blocked layers from where the entities stand.
/// Entities outside the grid are left out.
pub fn map_indexing_system(world: &World, map: &mut TileMap)
    requires
        old(map).wf(),
    ensures
        final(map).wf(),
        final(map).same_grid(old(map)),
        final(map).same_lasered(old(map)),
        indexed(final(map), world@),
        final(map).content_in(world),
{
    map.reset_blocked();
    map.reset_content();
    let n = world.len();
    let mut i: usize = 0;
    assert forall|x: int, y: int| !blocked_upto(world@, 0, x, y) by {}
    while i < n
        invariant
            0 <= i <= n,
            n == world@.len(),
            map.wf(),
            map.same_grid(old(map)),
            map.same_lasered(old(map)),
            forall|x: int, y: int|
                map.in_bounds(x, y) ==> #[trigger] map.content_at(x, y) == standing_upto(
                    world@,
                    i as int,
                    x,
                    y,
                ),
            forall|x: int, y: int|
                #[trigger] map.blocked_at(x, y) == (map.tile_at(x, y) == TileType::Wall
                    || blocked_upto(world@, i as int, x, y)),
        decreases n - i,
    {
        let ghost before = *map;
        let data = world.get(Entity(i));
        let position = data.position;
        let blocking = data.blocks_tile.is_some() || match &data.door {
            Some(door) => !door.opened,
            None => false,
        };
        if map.is_inside(position.x, position.y) {
            map.add_content(position.x, position.y, Entity(i));
            if blocking {
                map.set_blocked(position.x, position.y);
            }
        }
        proof {
            assert forall|x: int, y: int| #[trigger]
                map.blocked_at(x, y) == (map.tile_at(x, y) == TileType::Wall || blocked_upto(
                    world@,
                    i + 1,
                    x,
                    y,
                )) by {
                assert(map.tile_at(x, y) == before.tile_at(x, y));
                if blocked_upto(world@, i as int, x, y) {
                    let j = choose|j: int|
                        0 <= j < i && (#[trigger] world@[j]).position.x == x && world@[j].position.y
                            == y && blocks(world@[j]);
                    assert(world@[j].position.x == x && blocks(world@[j]));
                }
                if blocked_upto(world@, i + 1, x, y) {
                    let j = choose|j: int|
                        0 <= j < i + 1 && (#[trigger] world@[j]).position.x == x
                            && world@[j].position.y == y && blocks(world@[j]);
                    if j < i {
                        assert(blocked_upto(world@, i as int, x, y));
                    }
                }
                if position.x == x && position.y == y && blocking {
                    assert(world@[i as int].position.x == x && blocks(world@[i as int]));
                }
                before.lemma_outside();
            }
        }
        i = i + 1;
    }

    proof {
        assert forall|x: int, y: int, k: int| 0 <= k < map.content_at(x, y).len() implies world.has(
            #[trigger] map.content_at(x, y)[k],
        ) by {
            if map.in_bounds(x, y) {
                lemma_standing_in(world@, n as int, x, y);
            } else {
                map.lemma_outside();
            }
        }
    }
}

} // verus!
