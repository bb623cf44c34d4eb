//! Flips actuated reflectors and traces the laser beams.

use vstd::prelude::*;
use crate::components::{Cardinal, Entity, Position};
use crate::map::{lemma_index_in_range, lemma_index_injective, TileMap};
use crate::world::{EntityData, World};

verus! {

/// The entity once a pending actuation pulse is consumed: its reflector,
/// if it has one, is flipped, and the mark is gone.
pub open spec fn pulse_consumed(data: EntityData) -> EntityData {
    EntityData {
        reflector: match data.reflector {
            Some(reflector) => Some(
                crate::components::ReflectsLaser {
                    orientation: if data.actuated is Some {
                        reflector.orientation.flipped()
                    } else {
                        reflector.orientation
                    },
                },
            ),
            None => None,
        },
        actuated: None,
        ..data
    }
}

/// Consumes the pending actuation pulses: flips the reflector of every
/// marked entity between `NE` and `NW` and removes the mark.
pub fn reflector_actuation_system(world: &mut World)
    ensures
        final(world)@.len() == old(world)@.len(),
        forall|i: int|
            0 <= i < old(world)@.len() ==> #[trigger] final(world)@[i] == pulse_consumed(
                old(world)@[i],
            ),
{
    let n = world.len();
    let mut i: usize = 0;
    while i < n
        invariant
            0 <= i <= n,
            n == world@.len(),
            n == old(world)@.len(),
            forall|j: int| 0 <= j < i ==> #[trigger] world@[j] == pulse_consumed(old(world)@[j]),
            forall|j: int| i <= j < n ==> #[trigger] world@[j] == old(world)@[j],
        decreases n - i,
    {
        let data = world.get(Entity(i));
        if data.actuated.is_some() {
            match data.reflector {
                Some(reflector) => {
                    let flipped = reflector.orientation.flip();
                    world.set_orientation(Entity(i), flipped);
                },
                None => {},
            }
            world.set_actuated(Entity(i), None);
        }
        i = i + 1;
    }
}

/// The head of a beam: the tile that the beam has just entered and the
/// direction in which it travels.
pub struct Sweep {
    pub x: int,
    pub y: int,
    pub dir: Cardinal,
}

/// True of the two vertical directions of travel.
pub open spec fn is_vertical(dir: Cardinal) -> bool {
    dir is N || dir is S
}

/// The first tile that a beam fired from `pos` in direction `dir` enters,
/// if that tile is in the grid.
pub open spec fn beam_start(map: &TileMap, pos: Position, dir: Cardinal) -> Option<Sweep> {
    let x = pos.x + dir.delta().0;
    let y = pos.y + dir.delta().1;
    if map.in_bounds(x, y) {
        Some(Sweep { x, y, dir })
    } else {
        None
    }
}

/// Where a beam goes from the tile it has just entered: nowhere if the
/// tile stops beams; otherwise one tile further, in the direction that a
/// reflector on the tile gives it or else straight on, unless that leaves
/// the grid.
pub open spec fn beam_next(map: &TileMap, world: &World, s: Sweep) -> Option<Sweep> {
    if map.blocks_laser_at(world, s.x, s.y) {
        None
    } else {
        let dir = match map.reflector_at(world, s.x, s.y) {
            Some(orientation) => s.dir.reflected(orientation),
            None => s.dir,
        };
        let x = s.x + dir.delta().0;
        let y = s.y + dir.delta().1;
        if map.in_bounds(x, y) {
            Some(Sweep { x, y, dir })
        } else {
            None
        }
    }
}

/// The head of the beam fired from `pos` in direction `dir` after `k`
/// further tiles, or `None` once the beam has ended.
pub open spec fn beam(map: &TileMap, world: &World, pos: Position, dir: Cardinal, k: nat) -> Option<
    Sweep,
>
    decreases k,
{
    if k == 0 {
        beam_start(map, pos, dir)
    } else {
        match beam(map, world, pos, dir, (k - 1) as nat) {
            Some(s) => beam_next(map, world, s),
            None => None,
        }
    }
}

/// True if the beam fired from `pos` in direction `dir` enters tile
/// `(x, y)` after finitely many tiles and bounces, travelling vertically
/// or horizontally as `vertical` says.
pub open spec fn beam_sweeps(
    map: &TileMap,
    world: &World,
    pos: Position,
    dir: Cardinal,
    x: int,
    y: int,
    vertical: bool,
) -> bool {
    exists|k: nat|
        (#[trigger] beam(map, world, pos, dir, k)) == Some(
            Sweep { x, y, dir: beam(map, world, pos, dir, k)->0.dir },
        ) && is_vertical(beam(map, world, pos, dir, k)->0.dir) == vertical
}

/// True if the beam of one of the first `n` entities sweeps the tile.
pub open spec fn swept(map: &TileMap, world: &World, n: int, x: int, y: int, vertical: bool) -> bool {
    exists|e: int|
        0 <= e < n && (#[trigger] world@[e]).laser is Some && beam_sweeps(
            map,
            world,
            world@[e].position,
            world@[e].laser->0.direction,
            x,
            y,
            vertical,
        )
}

/// True if the lasered layer of `map` is the one that the emitters of
/// `world` produce: a tile is lasered vertically (horizontally) exactly
/// when the beam of some emitter sweeps it vertically (horizontally).
pub open spec fn lasered(map: &TileMap, world: &World) -> bool {
    &&& forall|x: int, y: int|
        #[trigger] map.lasered_vertical_at(x, y) == swept(map, world, world@.len() as int, x, y, true)
    &&& forall|x: int, y: int|
        #[trigger] map.lasered_horizontal_at(x, y) == swept(
            map,
            world,
            world@.len() as int,
            x,
            y,
            false,
        )
}

/// A beam that has ended stays ended.
pub proof fn lemma_beam_ended(
    map: &TileMap,
    world: &World,
    pos: Position,
    dir: Cardinal,
    k: nat,
    j: nat,
)
    requires
        beam(map, world, pos, dir, k) is None,
        j >= k,
    ensures
        beam(map, world, pos, dir, j) is None,
    decreases j,
{
    if j > k {
        lemma_beam_ended(map, world, pos, dir, k, (j - 1) as nat);
    }
}

/// A beam whose head comes back to where it was goes round for ever: all
/// it sweeps from then on, it has swept before.
pub proof fn lemma_beam_cycle(
    map: &TileMap,
    world: &World,
    pos: Position,
    dir: Cardinal,
    m: nat,
    k: nat,
    j: nat,
) -> (i: nat)
    requires
        m < k,
        beam(map, world, pos, dir, m) == beam(map, world, pos, dir, k),
        j >= k,
    ensures
        i < k,
        beam(map, world, pos, dir, j) == beam(map, world, pos, dir, i),
    decreases j,
{
    if j == k {
        m
    } else {
        let before = lemma_beam_cycle(map, world, pos, dir, m, k, (j - 1) as nat);
        assert(beam(map, world, pos, dir, j) == beam(map, world, pos, dir, before + 1));
        if before + 1 < k {
            before + 1
        } else {
            m
        }
    }
}

/// The beams depend on the tiles and the content layer of the map only.
pub proof fn lemma_beam_same_map(
    a: &TileMap,
    b: &TileMap,
    world: &World,
    pos: Position,
    dir: Cardinal,
    k: nat,
)
    requires
        a.same_grid(b),
        a.same_content(b),
    ensures
        beam(a, world, pos, dir, k) == beam(b, world, pos, dir, k),
    decreases k,
{
    if k > 0 {
        lemma_beam_same_map(a, b, world, pos, dir, (k - 1) as nat);
        match beam(a, world, pos, dir, (k - 1) as nat) {
            Some(s) => {
                assert(a.tile_at(s.x, s.y) == b.tile_at(s.x, s.y));
                assert(a.content_at(s.x, s.y) == b.content_at(s.x, s.y));
            },
            None => {},
        }
    }
}

/// What a beam sweeps depends on the tiles and the content layer of the
/// map only.
pub proof fn lemma_beam_sweeps_same_map(
    a: &TileMap,
    b: &TileMap,
    world: &World,
    pos: Position,
    dir: Cardinal,
    x: int,
    y: int,
    vertical: bool,
)
    requires
        a.same_grid(b),
        a.same_content(b),
    ensures
        beam_sweeps(a, world, pos, dir, x, y, vertical) == beam_sweeps(
            b,
            world,
            pos,
            dir,
            x,
            y,
            vertical,
        ),
{
    if beam_sweeps(a, world, pos, dir, x, y, vertical) {
        let k = choose|k: nat|
            (#[trigger] beam(a, world, pos, dir, k)) == Some(
                Sweep { x, y, dir: beam(a, world, pos, dir, k)->0.dir },
            ) && is_vertical(beam(a, world, pos, dir, k)->0.dir) == vertical;
        lemma_beam_same_map(a, b, world, pos, dir, k);
        assert(beam(b, world, pos, dir, k) == beam(a, world, pos, dir, k));
    }
    if beam_sweeps(b, world, pos, dir, x, y, vertical) {
        let k = choose|k: nat|
            (#[trigger] beam(b, world, pos, dir, k)) == Some(
                Sweep { x, y, dir: beam(b, world, pos, dir, k)->0.dir },
            ) && is_vertical(beam(b, world, pos, dir, k)->0.dir) == vertical;
        lemma_beam_same_map(a, b, world, pos, dir, k);
        assert(beam(a, world, pos, dir, k) == beam(b, world, pos, dir, k));
    }
}

/// Which tiles the beams sweep depends on the tiles and the content layer
/// of the map only.
pub proof fn lemma_swept_same_map(
    a: &TileMap,
    b: &TileMap,
    world: &World,
    n: int,
    x: int,
    y: int,
    vertical: bool,
)
    requires
        a.same_grid(b),
        a.same_content(b),
    ensures
        swept(a, world, n, x, y, vertical) == swept(b, world, n, x, y, vertical),
{
    if swept(a, world, n, x, y, vertical) {
        let e = choose|e: int|
            0 <= e < n && (#[trigger] world@[e]).laser is Some && beam_sweeps(
                a,
                world,
                world@[e].position,
                world@[e].laser->0.direction,
                x,
                y,
                vertical,
            );
        lemma_beam_sweeps_same_map(
            a,
            b,
            world,
            world@[e].position,
            world@[e].laser->0.direction,
            x,
            y,
            vertical,
        );
    }
    if swept(b, world, n, x, y, vertical) {
        let e = choose|e: int|
            0 <= e < n && (#[trigger] world@[e]).laser is Some && beam_sweeps(
                b,
                world,
                world@[e].position,
                world@[e].laser->0.direction,
                x,
                y,
                vertical,
            );
        lemma_beam_sweeps_same_map(
            a,
            b,
            world,
            world@[e].position,
            world@[e].laser->0.direction,
            x,
            y,
            vertical,
        );
    }
}

/// True if the two worlds hold the same entities on the same tiles, with
/// the same emitters and reflectors, stopping beams alike.
pub open spec fn same_optics(a: &World, b: &World) -> bool {
    &&& a@.len() == b@.len()
    &&& forall|i: int|
        0 <= i < a@.len() ==> (#[trigger] a@[i]).position == b@[i].position && a@[i].laser
            == b@[i].laser && a@[i].reflector == b@[i].reflector && a@[i].blocks_laser
            == b@[i].blocks_laser
}

proof fn lemma_first_reflector_same_world(a: &World, b: &World, content: Seq<Entity>, k: int)
    requires
        same_optics(a, b),
        forall|j: int| 0 <= j < content.len() ==> a.has(#[trigger] content[j]),
    ensures
        crate::map::first_reflector(a, content, k) == crate::map::first_reflector(b, content, k),
    decreases content.len() - k,
{
    if 0 <= k < content.len() {
        assert(a.has(content[k]));
        lemma_first_reflector_same_world(a, b, content, k + 1);
    }
}

/// The beams depend on where the entities stand, on the emitters and
/// reflectors and on what stops beams, and on nothing else in the world.
pub proof fn lemma_beam_same_world(
    map: &TileMap,
    a: &World,
    b: &World,
    pos: Position,
    dir: Cardinal,
    k: nat,
)
    requires
        same_optics(a, b),
        map.content_in(a),
    ensures
        beam(map, a, pos, dir, k) == beam(map, b, pos, dir, k),
    decreases k,
{
    if k > 0 {
        lemma_beam_same_world(map, a, b, pos, dir, (k - 1) as nat);
        match beam(map, a, pos, dir, (k - 1) as nat) {
            Some(s) => {
                let content = map.content_at(s.x, s.y);
                assert forall|j: int| 0 <= j < content.len() implies a.has(#[trigger] content[j]) by {
                    assert(a.has(map.content_at(s.x, s.y)[j]));
                }
                lemma_first_reflector_same_world(a, b, content, 0);
                if map.blocks_laser_at(a, s.x, s.y) && map.tile_at(s.x, s.y)
                    != crate::map::TileType::Wall {
                    let j = choose|j: int|
                        0 <= j < content.len() && (#[trigger] a@[content[j].0 as int]).blocks_laser is Some;
                    assert(a.has(map.content_at(s.x, s.y)[j]));
                    assert(b@[content[j].0 as int].blocks_laser is Some);
                }
                if map.blocks_laser_at(b, s.x, s.y) && map.tile_at(s.x, s.y)
                    != crate::map::TileType::Wall {
                    let j = choose|j: int|
                        0 <= j < content.len() && (#[trigger] b@[content[j].0 as int]).blocks_laser is Some;
                    assert(a.has(map.content_at(s.x, s.y)[j]));
                    assert(a@[content[j].0 as int].blocks_laser is Some);
                }
            },
            None => {},
        }
    }
}

/// A lasered layer that is right for one world is right for every world
/// with the same optics.
pub proof fn lemma_lasered_same_world(map: &TileMap, a: &World, b: &World)
    requires
        same_optics(a, b),
        map.content_in(a),
        lasered(map, a),
    ensures
        lasered(map, b),
{
    let n = a@.len() as int;
    assert forall|x: int, y: int, vertical: bool|
        swept(map, a, n, x, y, vertical) == swept(map, b, n, x, y, vertical) by {
        assert forall|e: int, k: nat| 0 <= e < n implies #[trigger] beam(
            map,
            a,
            a@[e].position,
            a@[e].laser->0.direction,
            k,
        ) == beam(map, b, a@[e].position, a@[e].laser->0.direction, k) by {
            lemma_beam_same_world(map, a, b, a@[e].position, a@[e].laser->0.direction, k);
        }
        if swept(map, a, n, x, y, vertical) {
            let e = choose|e: int|
                0 <= e < n && (#[trigger] a@[e]).laser is Some && beam_sweeps(
                    map,
                    a,
                    a@[e].position,
                    a@[e].laser->0.direction,
                    x,
                    y,
                    vertical,
                );
            let pos = a@[e].position;
            let dir = a@[e].laser->0.direction;
            let k = choose|k: nat|
                (#[trigger] beam(map, a, pos, dir, k)) == Some(
                    Sweep { x, y, dir: beam(map, a, pos, dir, k)->0.dir },
                ) && is_vertical(beam(map, a, pos, dir, k)->0.dir) == vertical;
            lemma_beam_same_world(map, a, b, pos, dir, k);
            assert(beam(map, b, pos, dir, k) == beam(map, a, pos, dir, k));
            assert(b@[e].laser is Some);
            assert(beam_sweeps(map, b, b@[e].position, b@[e].laser->0.direction, x, y, vertical));
        }
        if swept(map, b, n, x, y, vertical) {
            let e = choose|e: int|
                0 <= e < n && (#[trigger] b@[e]).laser is Some && beam_sweeps(
                    map,
                    b,
                    b@[e].position,
                    b@[e].laser->0.direction,
                    x,
                    y,
                    vertical,
                );
            assert(a@[e].position == b@[e].position);
            let pos = b@[e].position;
            let dir = b@[e].laser->0.direction;
            let k = choose|k: nat|
                (#[trigger] beam(map, b, pos, dir, k)) == Some(
                    Sweep { x, y, dir: beam(map, b, pos, dir, k)->0.dir },
                ) && is_vertical(beam(map, b, pos, dir, k)->0.dir) == vertical;
            lemma_beam_same_world(map, a, b, pos, dir, k);
            assert(beam(map, a, pos, dir, k) == beam(map, b, pos, dir, k));
            assert(a@[e].laser is Some);
            assert(beam_sweeps(map, a, a@[e].position, a@[e].laser->0.direction, x, y, vertical));
        }
    }
}

/// Which directions a beam has crossed a tile in.
#[derive(Clone, Copy)]
struct Crossed {
    n: bool,
    s: bool,
    e: bool,
    w: bool,
}

spec fn crossed_in(c: Crossed, d: Cardinal) -> bool {
    match d {
        Cardinal::N => c.n,
        Cardinal::S => c.s,
        Cardinal::E => c.e,
        Cardinal::W => c.w,
        _ => false,
    }
}

spec fn count_one(c: Crossed) -> nat {
    (if c.n { 1nat } else { 0nat }) + (if c.s { 1nat } else { 0nat }) + (if c.e { 1nat } else { 0nat }) + (if c.w {
        1nat
    } else {
        0nat
    })
}

/// Number of crossings recorded.
spec fn count_crossed(marks: Seq<Crossed>) -> nat
    decreases marks.len(),
{
    if marks.len() == 0 {
        0
    } else {
        count_crossed(marks.drop_last()) + count_one(marks.last())
    }
}

proof fn lemma_crossed_bound(marks: Seq<Crossed>)
    ensures
        count_crossed(marks) <= 4 * marks.len(),
    decreases marks.len(),
{
    if marks.len() > 0 {
        lemma_crossed_bound(marks.drop_last());
    }
}

proof fn lemma_crossed_update(marks: Seq<Crossed>, k: int, c: Crossed)
    requires
        0 <= k < marks.len(),
        count_one(c) == count_one(marks[k]) + 1,
    ensures
        count_crossed(marks.update(k, c)) == count_crossed(marks) + 1,
    decreases marks.len(),
{
    let after = marks.update(k, c);
    if k == marks.len() - 1 {
        assert(after.drop_last() =~= marks.drop_last());
    } else {
        lemma_crossed_update(marks.drop_last(), k, c);
        assert(after.drop_last() =~= marks.drop_last().update(k, c));
    }
}

spec fn crossed_at(map: &TileMap, marks: Seq<Crossed>, x: int, y: int, d: Cardinal) -> bool {
    crossed_in(marks[y * map.width() + x], d)
}

/// True if the beam has crossed the tile in the direction before.
fn is_crossed(map: &TileMap, marks: &Vec<Crossed>, x: i32, y: i32, d: Cardinal) -> (b: bool)
    requires
        map.wf(),
        map.in_bounds(x as int, y as int),
        marks@.len() == map.width() * map.height(),
        d.is_axis(),
    ensures
        b == crossed_at(map, marks@, x as int, y as int, d),
{
    let idx = map.xy_idx(x, y);
    let c = marks[idx];
    match d {
        Cardinal::N => c.n,
        Cardinal::S => c.s,
        Cardinal::E => c.e,
        _ => c.w,
    }
}

/// Records that the beam crosses the tile in the direction.
fn cross(map: &TileMap, marks: &mut Vec<Crossed>, x: i32, y: i32, d: Cardinal)
    requires
        map.wf(),
        map.in_bounds(x as int, y as int),
        old(marks)@.len() == map.width() * map.height(),
        d.is_axis(),
        !crossed_at(map, old(marks)@, x as int, y as int, d),
    ensures
        final(marks)@.len() == old(marks)@.len(),
        count_crossed(final(marks)@) == count_crossed(old(marks)@) + 1,
        forall|a: int, b: int, c: Cardinal|
            map.in_bounds(a, b) && c.is_axis() ==> #[trigger] crossed_at(map, final(marks)@, a, b, c)
                == (crossed_at(map, old(marks)@, a, b, c) || (a == x && b == y && c == d)),
{
    let idx = map.xy_idx(x, y);
    let mut c = marks[idx];
    match d {
        Cardinal::N => {
            c.n = true;
        },
        Cardinal::S => {
            c.s = true;
        },
        Cardinal::E => {
            c.e = true;
        },
        _ => {
            c.w = true;
        },
    }

    proof {
        lemma_crossed_update(marks@, idx as int, c);
    }
    marks[idx] = c;
    proof {
        assert forall|a: int, b: int, c: Cardinal|
            map.in_bounds(a, b) && c.is_axis() implies #[trigger] crossed_at(map, marks@, a, b, c) == (
        crossed_at(map, old(marks)@, a, b, c) || (a == x && b == y && c == d)) by {
            lemma_index_in_range(map.width() as int, map.height() as int, a, b);
            if b * map.width() + a == idx {
                lemma_index_injective(map.width() as int, a, b, x as int, y as int);
            }
        }
    }
}

/// True if `trail` lists the heads of the beam in order, from the first.
spec fn is_trail(map: &TileMap, world: &World, pos: Position, dir: Cardinal, trail: Seq<Sweep>) -> bool {
    forall|j: nat|
        j < trail.len() ==> #[trigger] beam(map, world, pos, dir, j) == Some(trail[j as int])
}

/// True if the lasered layer of `after` is that of `before` and the tiles
/// of `trail`.
spec fn trail_lasered(before: &TileMap, after: &TileMap, trail: Seq<Sweep>) -> bool {
    &&& forall|x: int, y: int|
        #[trigger] after.lasered_vertical_at(x, y) == (before.lasered_vertical_at(x, y) || exists|
            j: int,
        |
            0 <= j < trail.len() && #[trigger] trail[j] == (Sweep { x, y, dir: trail[j].dir })
                && is_vertical(trail[j].dir))
    &&& forall|x: int, y: int|
        #[trigger] after.lasered_horizontal_at(x, y) == (before.lasered_horizontal_at(x, y)
            || exists|j: int|
            0 <= j < trail.len() && #[trigger] trail[j] == (Sweep { x, y, dir: trail[j].dir })
                && !is_vertical(trail[j].dir))
}

/// True if the lasered layer of `after` is that of `before` and the tiles
/// that the beam sweeps.
pub open spec fn beam_lasered(
    before: &TileMap,
    after: &TileMap,
    world: &World,
    pos: Position,
    dir: Cardinal,
) -> bool {
    &&& forall|x: int, y: int|
        #[trigger] after.lasered_vertical_at(x, y) == (before.lasered_vertical_at(x, y)
            || beam_sweeps(before, world, pos, dir, x, y, true))
    &&& forall|x: int, y: int|
        #[trigger] after.lasered_horizontal_at(x, y) == (before.lasered_horizontal_at(x, y)
            || beam_sweeps(before, world, pos, dir, x, y, false))
}

/// Once the trail holds every head of the beam, the layer that holds the
/// trail holds the beam.
proof fn lemma_trail_done(
    before: &TileMap,
    after: &TileMap,
    world: &World,
    pos: Position,
    dir: Cardinal,
    trail: Seq<Sweep>,
)
    requires
        is_trail(before, world, pos, dir, trail),
        trail_lasered(before, after, trail),
        forall|j: nat|
            (#[trigger] beam(before, world, pos, dir, j)) is Some ==> exists|i: int|
                0 <= i < trail.len() && #[trigger] trail[i] == beam(before, world, pos, dir, j)->0,
    ensures
        beam_lasered(before, after, world, pos, dir),
{
    assert forall|x: int, y: int, vertical: bool|
        beam_sweeps(before, world, pos, dir, x, y, vertical) <==> exists|j: int|
            0 <= j < trail.len() && #[trigger] trail[j] == (Sweep { x, y, dir: trail[j].dir })
                && is_vertical(trail[j].dir) == vertical by {
        if beam_sweeps(before, world, pos, dir, x, y, vertical) {
            let k = choose|k: nat|
                (#[trigger] beam(before, world, pos, dir, k)) == Some(
                    Sweep { x, y, dir: beam(before, world, pos, dir, k)->0.dir },
                ) && is_vertical(beam(before, world, pos, dir, k)->0.dir) == vertical;
            let i = choose|i: int|
                0 <= i < trail.len() && #[trigger] trail[i] == beam(before, world, pos, dir, k)->0;
            assert(trail[i] == (Sweep { x, y, dir: trail[i].dir }));
        }
        if exists|j: int|
            0 <= j < trail.len() && #[trigger] trail[j] == (Sweep { x, y, dir: trail[j].dir })
                && is_vertical(trail[j].dir) == vertical {
            let j = choose|j: int|
                0 <= j < trail.len() && #[trigger] trail[j] == (Sweep { x, y, dir: trail[j].dir })
                    && is_vertical(trail[j].dir) == vertical;
            assert(beam(before, world, pos, dir, j as nat) == Some(trail[j]));
        }
    }
    assert forall|x: int, y: int| #[trigger]
        after.lasered_vertical_at(x, y) == (before.lasered_vertical_at(x, y) || beam_sweeps(
            before,
            world,
            pos,
            dir,
            x,
            y,
            true,
        )) by {
        assert(beam_sweeps(before, world, pos, dir, x, y, true) <==> exists|j: int|
            0 <= j < trail.len() && #[trigger] trail[j] == (Sweep { x, y, dir: trail[j].dir })
                && is_vertical(trail[j].dir) == true);
    }
    assert forall|x: int, y: int| #[trigger]
        after.lasered_horizontal_at(x, y) == (before.lasered_horizontal_at(x, y) || beam_sweeps(
            before,
            world,
            pos,
            dir,
            x,
            y,
            false,
        )) by {
        assert(beam_sweeps(before, world, pos, dir, x, y, false) <==> exists|j: int|
            0 <= j < trail.len() && #[trigger] trail[j] == (Sweep { x, y, dir: trail[j].dir })
                && is_vertical(trail[j].dir) == false);
    }
}

/// Every head of a beam is among the first `k` if the beam has ended by
/// then.
proof fn lemma_trail_complete_ended(
    map: &TileMap,
    world: &World,
    pos: Position,
    dir: Cardinal,
    trail: Seq<Sweep>,
)
    requires
        is_trail(map, world, pos, dir, trail),
        beam(map, world, pos, dir, trail.len()) is None,
    ensures
        forall|j: nat|
            (#[trigger] beam(map, world, pos, dir, j)) is Some ==> exists|i: int|
                0 <= i < trail.len() && #[trigger] trail[i] == beam(map, world, pos, dir, j)->0,
{
    assert forall|j: nat| (#[trigger] beam(map, world, pos, dir, j)) is Some implies exists|i: int|
        0 <= i < trail.len() && #[trigger] trail[i] == beam(map, world, pos, dir, j)->0 by {
        if j >= trail.len() {
            lemma_beam_ended(map, world, pos, dir, trail.len(), j);
        } else {
            assert(trail[j as int] == beam(map, world, pos, dir, j)->0);
        }
    }
}

/// Every head of a beam is among the first `k` if the head after them is
/// one of them.
proof fn lemma_trail_complete_cycle(
    map: &TileMap,
    world: &World,
    pos: Position,
    dir: Cardinal,
    trail: Seq<Sweep>,
    m: int,
)
    requires
        is_trail(map, world, pos, dir, trail),
        0 <= m < trail.len(),
        beam(map, world, pos, dir, trail.len()) == Some(trail[m]),
    ensures
        forall|j: nat|
            (#[trigger] beam(map, world, pos, dir, j)) is Some ==> exists|i: int|
                0 <= i < trail.len() && #[trigger] trail[i] == beam(map, world, pos, dir, j)->0,
{
    assert(beam(map, world, pos, dir, m as nat) == Some(trail[m]));
    assert forall|j: nat| (#[trigger] beam(map, world, pos, dir, j)) is Some implies exists|i: int|
        0 <= i < trail.len() && #[trigger] trail[i] == beam(map, world, pos, dir, j)->0 by {
        if j >= trail.len() {
            let i = lemma_beam_cycle(map, world, pos, dir, m as nat, trail.len(), j);
            assert(beam(map, world, pos, dir, i) == Some(trail[i as int]));
            assert(trail[i as int] == beam(map, world, pos, dir, j)->0);
        } else {
            assert(trail[j as int] == beam(map, world, pos, dir, j)->0);
        }
    }
}

/// Traces the beam fired from `pos` in direction `dir` and marks every
/// tile it sweeps. The walk stops where the beam ends, and where it
/// crosses a tile in a direction in which it has crossed it before.
fn fire(world: &World, map: &mut TileMap, pos: Position, dir: Cardinal)
    requires
        old(map).wf(),
        old(map).content_in(world),
        dir.is_axis(),
    ensures
        final(map).wf(),
        final(map).same_grid(old(map)),
        final(map).same_blocked(old(map)),
        final(map).same_content(old(map)),
        beam_lasered(old(map), final(map), world, pos, dir),
{
    let ghost before = *map;
    let ghost mut trail: Seq<Sweep> = Seq::empty();
    let (dx, dy) = dir.get_delta_xy();
    let fx: i64 = pos.x as i64 + dx as i64;
    let fy: i64 = pos.y as i64 + dy as i64;
    if fx < 0 || fy < 0 || fx >= map.width() as i64 || fy >= map.height() as i64 {
        proof {
            lemma_trail_complete_ended(&before, world, pos, dir, trail);
            lemma_trail_done(&before, map, world, pos, dir, trail);
        }
        return ;
    }
    let mut x: i32 = fx as i32;
    let mut y: i32 = fy as i32;
    let mut d: Cardinal = dir;
    proof {
        map.lemma_size();
    }
    let n: usize = (map.width() * map.height()) as usize;
    let mut marks: Vec<Crossed> = Vec::new();
    let mut k: usize = 0;
    while k < n
        invariant
            0 <= k <= n,
            marks@.len() == k,
            forall|i: int| 0 <= i < k ==> count_one(#[trigger] marks@[i]) == 0,
        decreases n - k,
    {
        marks.push(Crossed { n: false, s: false, e: false, w: false });
        k = k + 1;
    }

    proof {
        assert forall|a: int, b: int, c: Cardinal| map.in_bounds(a, b) && c.is_axis() implies !crossed_at(
            map,
            marks@,
            a,
            b,
            c,
        ) by {
            lemma_index_in_range(map.width() as int, map.height() as int, a, b);
            assert(count_one(marks@[b * map.width() + a]) == 0);
        }
    }
    loop
        invariant
            before == *old(map),
            map.wf(),
            map.same_grid(&before),
            map.same_blocked(&before),
            map.same_content(&before),
            before.content_in(world),
            marks@.len() == n,
            n == map.width() * map.height(),
            map.in_bounds(x as int, y as int),
            d.is_axis(),
            is_trail(&before, world, pos, dir, trail),
            beam(&before, world, pos, dir, trail.len()) == Some(
                Sweep { x: x as int, y: y as int, dir: d },
            ),
            forall|a: int, b: int, c: Cardinal|
                map.in_bounds(a, b) && c.is_axis() && #[trigger] crossed_at(map, marks@, a, b, c)
                    ==> exists|j: int|
                    0 <= j < trail.len() && #[trigger] trail[j] == (Sweep { x: a, y: b, dir: c }),
            trail_lasered(&before, map, trail),
        decreases 4 * n - count_crossed(marks@),
    {
        let ghost head = Sweep { x: x as int, y: y as int, dir: d };
        if is_crossed(map, &marks, x, y, d) {
            proof {
                let m = choose|j: int| 0 <= j < trail.len() && #[trigger] trail[j] == head;
                lemma_trail_complete_cycle(&before, world, pos, dir, trail, m);
                lemma_trail_done(&before, map, world, pos, dir, trail);
            }
            return ;
        }
        proof {
            lemma_crossed_bound(marks@);
        }
        let ghost marks0 = marks@;
        let ghost map0 = *map;
        cross(map, &mut marks, x, y, d);
        proof {
            lemma_crossed_bound(marks@);
        }
        assert(map.content_in(world)) by {
            assert forall|a: int, b: int, k: int| 0 <= k < map.content_at(a, b).len() implies world.has(
                #[trigger] map.content_at(a, b)[k],
            ) by {
                assert(map.content_at(a, b) == before.content_at(a, b));
            }
        }
        map.set_lasered(x, y, d);
        let ghost shorter = trail;
        proof {
            trail = trail.push(head);
            assert forall|j: nat| j < trail.len() implies #[trigger] beam(
                &before,
                world,
                pos,
                dir,
                j,
            ) == Some(trail[j as int]) by {
                if j < shorter.len() {
                    assert(trail[j as int] == shorter[j as int]);
                }
            }
            assert forall|a: int, b: int, c: Cardinal|
                map.in_bounds(a, b) && c.is_axis() && #[trigger] crossed_at(
                    map,
                    marks@,
                    a,
                    b,
                    c,
                ) implies exists|j: int|
                0 <= j < trail.len() && #[trigger] trail[j] == (Sweep { x: a, y: b, dir: c }) by {
                if a == x && b == y && c == d {
                    assert(trail[shorter.len() as int] == head);
                } else {
                    assert(crossed_at(&map0, marks@, a, b, c));
                    assert(crossed_at(&map0, marks0, a, b, c));
                    let j = choose|j: int|
                        0 <= j < shorter.len() && #[trigger] shorter[j] == (
                        Sweep { x: a, y: b, dir: c });
                    assert(trail[j] == shorter[j]);
                }
            }
            assert forall|a: int, b: int| #[trigger]
                map.lasered_vertical_at(a, b) == (before.lasered_vertical_at(a, b) || exists|j: int|
                    0 <= j < trail.len() && #[trigger] trail[j] == (
                    Sweep { x: a, y: b, dir: trail[j].dir }) && is_vertical(trail[j].dir)) by {
                let was = exists|j: int|
                    0 <= j < shorter.len() && #[trigger] shorter[j] == (
                    Sweep { x: a, y: b, dir: shorter[j].dir }) && is_vertical(shorter[j].dir);
                let now = exists|j: int|
                    0 <= j < trail.len() && #[trigger] trail[j] == (
                    Sweep { x: a, y: b, dir: trail[j].dir }) && is_vertical(trail[j].dir);
                assert(map0.lasered_vertical_at(a, b) == (before.lasered_vertical_at(a, b) || was));
                if was {
                    let j = choose|j: int|
                        0 <= j < shorter.len() && #[trigger] shorter[j] == (
                        Sweep { x: a, y: b, dir: shorter[j].dir }) && is_vertical(shorter[j].dir);
                    assert(trail[j] == shorter[j]);
                }
                if a == x && b == y && is_vertical(d) {
                    assert(trail[shorter.len() as int] == head);
                }
                if now {
                    let j = choose|j: int|
                        0 <= j < trail.len() && #[trigger] trail[j] == (
                        Sweep { x: a, y: b, dir: trail[j].dir }) && is_vertical(trail[j].dir);
                    if j < shorter.len() {
                        assert(trail[j] == shorter[j]);
                    }
                }
            }
            assert forall|a: int, b: int| #[trigger]
                map.lasered_horizontal_at(a, b) == (before.lasered_horizontal_at(a, b) || exists|
                    j: int,
                |
                    0 <= j < trail.len() && #[trigger] trail[j] == (
                    Sweep { x: a, y: b, dir: trail[j].dir }) && !is_vertical(trail[j].dir)) by {
                let was = exists|j: int|
                    0 <= j < shorter.len() && #[trigger] shorter[j] == (
                    Sweep { x: a, y: b, dir: shorter[j].dir }) && !is_vertical(shorter[j].dir);
                let now = exists|j: int|
                    0 <= j < trail.len() && #[trigger] trail[j] == (
                    Sweep { x: a, y: b, dir: trail[j].dir }) && !is_vertical(trail[j].dir);
                assert(map0.lasered_horizontal_at(a, b) == (before.lasered_horizontal_at(a, b)
                    || was));
                if was {
                    let j = choose|j: int|
                        0 <= j < shorter.len() && #[trigger] shorter[j] == (
                        Sweep { x: a, y: b, dir: shorter[j].dir }) && !is_vertical(shorter[j].dir);
                    assert(trail[j] == shorter[j]);
                }
                if a == x && b == y && !is_vertical(d) {
                    assert(trail[shorter.len() as int] == head);
                }
                if now {
                    let j = choose|j: int|
                        0 <= j < trail.len() && #[trigger] trail[j] == (
                        Sweep { x: a, y: b, dir: trail[j].dir }) && !is_vertical(trail[j].dir);
                    if j < shorter.len() {
                        assert(trail[j] == shorter[j]);
                    }
                }
            }
            assert(map.tile_at(x as int, y as int) == before.tile_at(x as int, y as int));
            assert(map.content_at(x as int, y as int) == before.content_at(x as int, y as int));
        }
        if map.is_blocking_laser(x, y, world) {
            proof {
                lemma_trail_complete_ended(&before, world, pos, dir, trail);
                lemma_trail_done(&before, map, world, pos, dir, trail);
            }
            return ;
        }
        let d2 = match map.is_reflecting_laser(x, y, world) {
            Some(orientation) => d.reflect(orientation),
            None => d,
        };
        let (dx, dy) = d2.get_delta_xy();
        let nx = x + dx;
        let ny = y + dy;
        if !map.is_inside(nx, ny) {
            proof {
                lemma_trail_complete_ended(&before, world, pos, dir, trail);
                lemma_trail_done(&before, map, world, pos, dir, trail);
            }
            return ;
        }
        x = nx;
        y = ny;
        d = d2;
    }
}

/// Recomputes the lasered layer: clears it, then traces the beam of every
/// laser emitter, bounce by bounce, and marks each tile that a beam
/// enters as swept vertically or horizontally.
pub fn laser_system(world: &World, map: &mut TileMap)
    requires
        old(map).wf(),
        old(map).content_in(world),
        world.wf(),
    ensures
        final(map).wf(),
        final(map).same_grid(old(map)),
        final(map).same_blocked(old(map)),
        final(map).same_content(old(map)),
        lasered(final(map), world),
{
    map.reset_lasered();
    let ghost cleared = *map;
    let n = world.len();
    let mut i: usize = 0;
    assert(cleared.content_in(world)) by {
        assert forall|a: int, b: int, k: int| 0 <= k < cleared.content_at(a, b).len() implies world.has(
            #[trigger] cleared.content_at(a, b)[k],
        ) by {
            assert(cleared.content_at(a, b) == old(map).content_at(a, b));
        }
    }
    while i < n
        invariant
            0 <= i <= n,
            n == world@.len(),
            world.wf(),
            map.wf(),
            map.same_grid(&cleared),
            map.same_blocked(&cleared),
            map.same_content(&cleared),
            cleared.same_grid(old(map)),
            cleared.same_blocked(old(map)),
            cleared.same_content(old(map)),
            cleared.content_in(world),
            forall|x: int, y: int|
                #[trigger] map.lasered_vertical_at(x, y) == swept(&cleared, world, i as int, x, y, true),
            forall|x: int, y: int|
                #[trigger] map.lasered_horizontal_at(x, y) == swept(
                    &cleared,
                    world,
                    i as int,
                    x,
                    y,
                    false,
                ),
        decreases n - i,
    {
        let data = world.get(Entity(i));
        let ghost map0 = *map;
        match data.laser {
            Some(laser) => {
                let position = data.position;
                assert(crate::world::data_wf(world@[i as int], world@.len() as int));
                assert(map.content_in(world)) by {
                    assert forall|a: int, b: int, k: int|
                        0 <= k < map.content_at(a, b).len() implies world.has(
                        #[trigger] map.content_at(a, b)[k],
                    ) by {
                        assert(map.content_at(a, b) == cleared.content_at(a, b));
                    }
                }
                fire(world, map, position, laser.direction);
                proof {
                    assert forall|x: int, y: int, vertical: bool|
                        beam_sweeps(&map0, world, position, laser.direction, x, y, vertical)
                            == beam_sweeps(
                            &cleared,
                            world,
                            position,
                            laser.direction,
                            x,
                            y,
                            vertical,
                        ) by {
                        lemma_beam_sweeps_same_map(
                            &map0,
                            &cleared,
                            world,
                            position,
                            laser.direction,
                            x,
                            y,
                            vertical,
                        );
                    }
                }
            },
            None => {},
        }
        proof {
            assert forall|x: int, y: int, vertical: bool|
                swept(&cleared, world, i + 1, x, y, vertical) == (swept(
                    &cleared,
                    world,
                    i as int,
                    x,
                    y,
                    vertical,
                ) || (world@[i as int].laser is Some && beam_sweeps(
                    &cleared,
                    world,
                    world@[i as int].position,
                    world@[i as int].laser->0.direction,
                    x,
                    y,
                    vertical,
                ))) by {
                if swept(&cleared, world, i + 1, x, y, vertical) {
                    let e = choose|e: int|
                        0 <= e < i + 1 && (#[trigger] world@[e]).laser is Some && beam_sweeps(
                            &cleared,
                            world,
                            world@[e].position,
                            world@[e].laser->0.direction,
                            x,
                            y,
                            vertical,
                        );
                    if e < i {
                        assert(swept(&cleared, world, i as int, x, y, vertical));
                    }
                }
                if swept(&cleared, world, i as int, x, y, vertical) {
                    let e = choose|e: int|
                        0 <= e < i && (#[trigger] world@[e]).laser is Some && beam_sweeps(
                            &cleared,
                            world,
                            world@[e].position,
                            world@[e].laser->0.direction,
                            x,
                            y,
                            vertical,
                        );
                    assert(world@[e].laser is Some);
                }
            }
            assert forall|x: int, y: int| #[trigger]
                map.lasered_vertical_at(x, y) == swept(&cleared, world, i + 1, x, y, true) by {
                assert(map0.lasered_vertical_at(x, y) == swept(
                    &cleared,
                    world,
                    i as int,
                    x,
                    y,
                    true,
                ));
            }
            assert forall|x: int, y: int| #[trigger]
                map.lasered_horizontal_at(x, y) == swept(&cleared, world, i + 1, x, y, false) by {
                assert(map0.lasered_horizontal_at(x, y) == swept(
                    &cleared,
                    world,
                    i as int,
                    x,
                    y,
                    false,
                ));
            }
        }
        i = i + 1;
    }

    proof {
        assert forall|x: int, y: int, vertical: bool|
            swept(map, world, n as int, x, y, vertical) == swept(
                &cleared,
                world,
                n as int,
                x,
                y,
                vertical,
            ) by {
            lemma_swept_same_map(map, &cleared, world, n as int, x, y, vertical);
        }
    }
}

} // verus!
