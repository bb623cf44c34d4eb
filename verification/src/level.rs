//! Levels written as text.
//!
//! A level is a block of text, one row of tiles per line, one byte per
//! tile; white space around the block is dropped:
//!
//! | byte | tile and entity |
//! |------|-----------------|
//! | `#` | wall |
//! | `.` or space | floor |
//! | `E` | exit, with the door of the level |
//! | `@` | the player |
//! | `b` or `$` | a block |
//! | `x` | a pressure plate |
//! | `*` | floor with a pressure plate and a block on it |
//! | `o` | a laser receptor |
//! | `n` `s` `e` `w` | a laser emitter firing north, south, east, west |
//! | `/` `\` | a reflector oriented `NE`, `NW` |
//!
//! Every plate and receptor gates the door, which stands on the last exit
//! of the text. A tile whose byte names no tile kind is wall on the border
//! of the grid and floor inside it.

use vstd::prelude::*;
use crate::components::{Cardinal, Entity};
use crate::map::{TileMap, TileType};
use crate::world::{
    block_data, door_data, laser_data, laser_receptor_data, laser_reflector_data, player_data,
    weight_plate_data, EntityData, World,
};

verus! {

/// Which file a level is read from.
#[derive(Clone, Copy, Debug, PartialEq, Eq, Structural)]
pub enum LevelFile {
    /// A level of the game, by its number.
    Game(u64),
    /// A test level for the search, by its number.
    AiTest(u64),
    /// The closing screen.
    End,
}

/// The file of a level: levels up to 4 are levels of the game, levels
/// 10001 to 10006 are the test levels 1 to 6 of the search, and every other
/// level is the closing screen.
pub fn load_level(level: u64) -> (file: LevelFile)
    ensures
        file == (if level <= 4 {
            LevelFile::Game(level)
        } else if 10001 <= level <= 10006 {
            LevelFile::AiTest((level - 10000) as u64)
        } else {
            LevelFile::End
        }),
{
    if level <= 4 {
        LevelFile::Game(level)
    } else if level >= 10001 && level <= 10006 {
        LevelFile::AiTest(level - 10000)
    } else {
        LevelFile::End
    }
}

/// True of the bytes that count as white space: space, tab, line feed,
/// vertical tab, form feed and carriage return.
pub open spec fn is_space(b: u8) -> bool {
    b == 32 || (9 <= b <= 13)
}

/// The text without the white space at its start.
pub open spec fn trim_start(text: Seq<u8>) -> Seq<u8>
    decreases text.len(),
{
    if text.len() > 0 && is_space(text[0]) {
        trim_start(text.drop_first())
    } else {
        text
    }
}

/// The text without the white space at its end.
pub open spec fn trim_end(text: Seq<u8>) -> Seq<u8>
    decreases text.len(),
{
    if text.len() > 0 && is_space(text.last()) {
        trim_end(text.drop_last())
    } else {
        text
    }
}

/// The rows of the text: what stands between its line feeds.
pub open spec fn split_rows(text: Seq<u8>) -> Seq<Seq<u8>>
    decreases text.len(),
{
    if text.len() == 0 {
        seq![Seq::empty()]
    } else {
        let above = split_rows(text.drop_last());
        if text.last() == 10 {
            above.push(Seq::empty())
        } else {
            above.update(above.len() - 1, above.last().push(text.last()))
        }
    }
}

/// The rows of a level text.
pub open spec fn level_rows(text: Seq<u8>) -> Seq<Seq<u8>> {
    split_rows(trim_end(trim_start(text)))
}

/// True if the rows make a level: there is a first row with at least one
/// tile, no row is longer than the first, and the number of tiles fits an
/// `i32`.
pub open spec fn rows_wf(rows: Seq<Seq<u8>>) -> bool {
    &&& rows.len() >= 1
    &&& rows[0].len() >= 1
    &&& rows[0].len() * rows.len() <= i32::MAX
    &&& forall|y: int| 0 <= y < rows.len() ==> (#[trigger] rows[y]).len() <= rows[0].len()
}

/// The kind of tile that a byte names, if it names one.
pub open spec fn cell_tile(b: u8) -> Option<TileType> {
    if b == 35 {
        Some(TileType::Wall)
    } else if b == 46 || b == 32 || b == 42 {
        Some(TileType::Floor)
    } else if b == 69 {
        Some(TileType::Exit)
    } else {
        None
    }
}

/// The tile `(x, y)` of the level.
pub open spec fn level_tile(rows: Seq<Seq<u8>>, x: int, y: int) -> TileType {
    let named = if 0 <= y < rows.len() && 0 <= x < rows[y].len() {
        cell_tile(rows[y][x])
    } else {
        None
    };
    match named {
        Some(tile) => tile,
        None => if x == 0 || y == 0 || x == rows[0].len() - 1 || y == rows.len() - 1 {
            TileType::Wall
        } else {
            TileType::Floor
        },
    }
}

/// What has been read of a level: its entities, the plates and receptors
/// among them, and its last exit.
pub struct Loading {
    pub entities: Seq<EntityData>,
    pub links: Seq<Entity>,
    pub exit: (i32, i32),
}

/// What has been read once the byte of tile `(x, y)` is.
pub open spec fn cell_loaded(state: Loading, b: u8, x: i32, y: i32) -> Loading {
    let next = Entity(state.entities.len() as usize);
    if b == 42 {
        Loading {
            entities: state.entities.push(weight_plate_data(x, y)).push(block_data(x, y)),
            links: state.links.push(next),
            ..state
        }
    } else if b == 69 {
        Loading { exit: (x, y), ..state }
    } else if b == 101 {
        Loading { entities: state.entities.push(laser_data(x, y, Cardinal::E)), ..state }
    } else if b == 110 {
        Loading { entities: state.entities.push(laser_data(x, y, Cardinal::N)), ..state }
    } else if b == 115 {
        Loading { entities: state.entities.push(laser_data(x, y, Cardinal::S)), ..state }
    } else if b == 119 {
        Loading { entities: state.entities.push(laser_data(x, y, Cardinal::W)), ..state }
    } else if b == 47 {
        Loading { entities: state.entities.push(laser_reflector_data(x, y, Cardinal::NE)), ..state }
    } else if b == 92 {
        Loading { entities: state.entities.push(laser_reflector_data(x, y, Cardinal::NW)), ..state }
    } else if b == 120 {
        Loading {
            entities: state.entities.push(weight_plate_data(x, y)),
            links: state.links.push(next),
            ..state
        }
    } else if b == 111 {
        Loading {
            entities: state.entities.push(laser_receptor_data(x, y)),
            links: state.links.push(next),
            ..state
        }
    } else if b == 98 || b == 36 {
        Loading { entities: state.entities.push(block_data(x, y)), ..state }
    } else if b == 64 {
        Loading { entities: state.entities.push(player_data(x, y)), ..state }
    } else {
        state
    }
}

/// What has been read once the first `n` bytes of row `y` are.
pub open spec fn row_loaded(state: Loading, row: Seq<u8>, y: i32, n: int) -> Loading
    decreases n,
{
    if n <= 0 {
        state
    } else {
        cell_loaded(row_loaded(state, row, y, n - 1), row[n - 1], (n - 1) as i32, y)
    }
}

/// What has been read once the first `m` rows are.
pub open spec fn rows_loaded(rows: Seq<Seq<u8>>, m: int) -> Loading
    decreases m,
{
    if m <= 0 {
        Loading { entities: Seq::empty(), links: Seq::empty(), exit: (0, 0) }
    } else {
        row_loaded(rows_loaded(rows, m - 1), rows[m - 1], (m - 1) as i32, rows[m - 1].len() as int)
    }
}

/// The rows as sequences of bytes.
pub open spec fn row_views(rows: Seq<Vec<u8>>) -> Seq<Seq<u8>> {
    Seq::new(rows.len(), |i: int| rows[i]@)
}

proof fn lemma_trim_start(text: Seq<u8>, a: int)
    requires
        0 <= a <= text.len(),
        forall|i: int| 0 <= i < a ==> is_space(#[trigger] text[i]),
        a == text.len() || !is_space(text[a]),
    ensures
        trim_start(text) == text.skip(a),
    decreases a,
{
    if a > 0 {
        let rest = text.drop_first();
        assert forall|i: int| 0 <= i < a - 1 implies is_space(#[trigger] rest[i]) by {
            assert(rest[i] == text[i + 1]);
        }
        lemma_trim_start(rest, a - 1);
        assert(rest.skip(a - 1) =~= text.skip(a));
    } else {
        assert(text.skip(0) =~= text);
    }
}

proof fn lemma_trim_end(text: Seq<u8>, b: int)
    requires
        0 <= b <= text.len(),
        forall|i: int| b <= i < text.len() ==> is_space(#[trigger] text[i]),
        b == 0 || !is_space(text[b - 1]),
    ensures
        trim_end(text) == text.take(b),
    decreases text.len() - b,
{
    if b < text.len() {
        let rest = text.drop_last();
        assert(is_space(text[text.len() - 1]));
        assert forall|i: int| b <= i < rest.len() implies is_space(#[trigger] rest[i]) by {
            assert(rest[i] == text[i]);
        }
        lemma_trim_end(rest, b);
        assert(rest.take(b) =~= text.take(b));
    } else {
        assert(text.take(b) =~= text);
    }
}

/// Splits a level text into its rows.
pub fn read_rows(text: &[u8]) -> (rows: Vec<Vec<u8>>)
    ensures
        row_views(rows@) == level_rows(text@),
        rows@.len() >= 1,
{
    let mut a: usize = 0;
    while a < text.len() && is_space_byte(text[a])
        invariant
            0 <= a <= text@.len(),
            forall|i: int| 0 <= i < a ==> is_space(#[trigger] text@[i]),
        decreases text@.len() - a,
    {
        a = a + 1;
    }
    let mut b: usize = text.len();
    while b > a && is_space_byte(text[b - 1])
        invariant
            a <= b <= text@.len(),
            forall|i: int| b <= i < text@.len() ==> is_space(#[trigger] text@[i]),
        decreases b,
    {
        b = b - 1;
    }
    let ghost body = text@.subrange(a as int, b as int);
    proof {
        lemma_trim_start(text@, a as int);
        let tail = text@.skip(a as int);
        assert forall|i: int| b - a <= i < tail.len() implies is_space(#[trigger] tail[i]) by {
            assert(tail[i] == text@[i + a]);
        }
        if b > a {
            assert(tail[b - a - 1] == text@[b - 1]);
        }
        lemma_trim_end(tail, b - a);
        assert(tail.take(b - a) =~= body);
    }
    let mut rows: Vec<Vec<u8>> = Vec::new();
    rows.push(Vec::new());
    let mut k: usize = a;
    assert(body.take(0) =~= Seq::<u8>::empty());
    assert(row_views(rows@) =~= split_rows(body.take(0)));
    while k < b
        invariant
            a <= k <= b,
            b <= text@.len(),
            body == text@.subrange(a as int, b as int),
            rows@.len() >= 1,
            row_views(rows@) == split_rows(body.take(k - a)),
        decreases b - k,
    {
        let byte = text[k];
        let ghost above = row_views(rows@);
        proof {
            assert(body.take(k - a + 1).drop_last() =~= body.take(k - a));
            assert(body.take(k - a + 1).last() == byte);
        }
        if byte == 10 {
            rows.push(Vec::new());
            assert(row_views(rows@) =~= above.push(Seq::empty()));
        } else {
            let last = rows.len() - 1;
            rows[last].push(byte);
            assert(row_views(rows@) =~= above.update(above.len() - 1, above.last().push(byte)));
        }
        k = k + 1;
    }
    assert(body.take(b - a) =~= body);
    rows
}

fn is_space_byte(b: u8) -> (r: bool)
    ensures
        r == is_space(b),
{
    b == 32 || (9 <= b && b <= 13)
}

/// True if `world` and `map` are the level that the rows describe: the
/// map has one tile for each byte of the first row in each row, of the
/// kinds that the bytes name, with nothing blocked, lasered or indexed
/// yet; the world holds the entities that the bytes name, row by row from
/// the north and from west to east within a row, and after them the door,
/// closed, on the last exit, gated by every plate and receptor.
pub open spec fn level_loaded(level: u64, rows: Seq<Seq<u8>>, world: World, map: TileMap) -> bool {
    let loaded = rows_loaded(rows, rows.len() as int);
    &&& map.wf()
    &&& map.level() == level
    &&& map.width() == rows[0].len()
    &&& map.height() == rows.len()
    &&& forall|x: int, y: int| map.in_bounds(x, y) ==> #[trigger] map.tile_at(x, y) == level_tile(rows, x, y)
    &&& forall|x: int, y: int| map.in_bounds(x, y) ==> !#[trigger] map.blocked_at(x, y)
    &&& forall|x: int, y: int| !#[trigger] map.lasered_at(x, y)
    &&& forall|x: int, y: int| #[trigger] map.content_at(x, y) == Seq::<Entity>::empty()
    &&& world.wf()
    &&& world@.len() == loaded.entities.len() + 1
    &&& world@.drop_last() == loaded.entities
    &&& world@.last().door is Some
    &&& world@.last().door->0.activations@ == loaded.links
    &&& world@.last() == door_data(loaded.exit.0, loaded.exit.1, world@.last().door->0.activations)
}

/// The tile `(x, y)` once the tiles before `(upto_x, upto_y)` in reading
/// order are set.
spec fn partial_tile(rows: Seq<Seq<u8>>, x: int, y: int, upto_x: int, upto_y: int) -> TileType {
    if y < upto_y || (y == upto_y && x < upto_x) {
        level_tile(rows, x, y)
    } else if x == 0 || y == 0 || x == rows[0].len() - 1 || y == rows.len() - 1 {
        TileType::Wall
    } else {
        TileType::Floor
    }
}

/// Reads a level from its text. `None` if the text has no tile in its
/// first row, a row longer than the first, or more tiles than an `i32`
/// counts.
pub fn load_level_from_text(level: u64, text: &[u8]) -> (r: Option<(World, TileMap)>)
    ensures
        r is Some <==> rows_wf(level_rows(text@)),
        r matches Some((world, map)) ==> level_loaded(level, level_rows(text@), world, map),
{
    let lines = read_rows(text);
    let ghost rows = row_views(lines@);
    assert(rows[0] == lines@[0]@);
    let height = lines.len();
    let width = lines[0].len();
    if width == 0 || width > i32::MAX as usize || height > i32::MAX as usize {
        proof {
            if width > 0 {
                assert(rows[0].len() * rows.len() > i32::MAX) by (nonlinear_arith)
                    requires
                        rows[0].len() >= 1,
                        rows.len() >= 1,
                        rows[0].len() > i32::MAX || rows.len() > i32::MAX,
                ;
            }
        }
        return None;
    }
    assert(width * height <= 0x7fff_ffff * 0x7fff_ffff) by (nonlinear_arith)
        requires
            0 <= width <= 0x7fff_ffff,
            0 <= height <= 0x7fff_ffff,
    ;
    if width as u64 * height as u64 > i32::MAX as u64 {
        return None;
    }
    let mut y: usize = 0;
    while y < height
        invariant
            0 <= y <= height,
            height == lines@.len(),
            rows == row_views(lines@),
            rows == level_rows(text@),
            width == rows[0].len(),
            forall|j: int| 0 <= j < y ==> (#[trigger] rows[j]).len() <= width,
        decreases height - y,
    {
        assert(rows[y as int] == lines@[y as int]@);
        if lines[y].len() > width {
            assert(rows[y as int].len() > rows[0].len());
            return None;
        }
        y = y + 1;
    }
    assert(rows_wf(rows));
    let mut map = TileMap::new(level, width as i32, height as i32);
    let ghost fresh = map;
    let mut world = World::new();
    let mut activations: Vec<Entity> = Vec::new();
    let mut exit: (i32, i32) = (0, 0);
    let mut y: usize = 0;
    while y < height
        invariant
            0 <= y <= height,
            height == lines@.len(),
            rows == row_views(lines@),
            rows_wf(rows),
            width == rows[0].len(),
            map.wf(),
            map.level() == level,
            map.width() == width,
            map.height() == height,
            map.same_blocked(&fresh),
            map.same_lasered(&fresh),
            map.same_content(&fresh),
            forall|a: int, b: int|
                map.in_bounds(a, b) ==> #[trigger] map.tile_at(a, b) == partial_tile(
                    rows,
                    a,
                    b,
                    0,
                    y as int,
                ),
            world.wf(),
            world.all_activable(activations@),
            world@ == rows_loaded(rows, y as int).entities,
            activations@ == rows_loaded(rows, y as int).links,
            exit == rows_loaded(rows, y as int).exit,
        decreases height - y,
    {
        let line = &lines[y];
        let ghost row = rows[y as int];
        let ghost start = rows_loaded(rows, y as int);
        assert(row == line@);
        let mut x: usize = 0;
        while x < line.len()
            invariant
                0 <= x <= line@.len(),
                0 <= y < height,
                height == lines@.len(),
                rows == row_views(lines@),
                rows_wf(rows),
                row == rows[y as int],
                row == line@,
                width == rows[0].len(),
                start == rows_loaded(rows, y as int),
                map.wf(),
                map.level() == level,
                map.width() == width,
                map.height() == height,
                map.same_blocked(&fresh),
                map.same_lasered(&fresh),
                map.same_content(&fresh),
                forall|a: int, b: int|
                    map.in_bounds(a, b) ==> #[trigger] map.tile_at(a, b) == partial_tile(
                        rows,
                        a,
                        b,
                        x as int,
                        y as int,
                    ),
                world.wf(),
                world.all_activable(activations@),
                world@ == row_loaded(start, row, y as i32, x as int).entities,
                activations@ == row_loaded(start, row, y as i32, x as int).links,
                exit == row_loaded(start, row, y as i32, x as int).exit,
            decreases line@.len() - x,
        {
            let byte = line[x];
            let cx = x as i32;
            let cy = y as i32;
            let ghost before = row_loaded(start, row, y as i32, x as int);
            let ghost map0 = map;
            let ghost world0 = world;
            let ghost links0 = activations@;
            if byte == 35 {
                map.set_tiletype(cx, cy, TileType::Wall);
            } else if byte == 46 || byte == 32 {
                map.set_tiletype(cx, cy, TileType::Floor);
            } else if byte == 42 {
                map.set_tiletype(cx, cy, TileType::Floor);
                let plate = world.spawn_weight_plate(cx, cy);
                activations.push(plate);
                world.spawn_block(cx, cy);
            } else if byte == 69 {
                map.set_tiletype(cx, cy, TileType::Exit);
                exit = (cx, cy);
            } else if byte == 101 {
                world.spawn_laser(cx, cy, Cardinal::E);
            } else if byte == 110 {
                world.spawn_laser(cx, cy, Cardinal::N);
            } else if byte == 115 {
                world.spawn_laser(cx, cy, Cardinal::S);
            } else if byte == 119 {
                world.spawn_laser(cx, cy, Cardinal::W);
            } else if byte == 47 {
                world.spawn_laser_reflector(cx, cy, Cardinal::NE);
            } else if byte == 92 {
                world.spawn_laser_reflector(cx, cy, Cardinal::NW);
            } else if byte == 120 {
                let plate = world.spawn_weight_plate(cx, cy);
                activations.push(plate);
            } else if byte == 111 {
                let receptor = world.spawn_laser_receptor(cx, cy);
                activations.push(receptor);
            } else if byte == 98 || byte == 36 {
                world.spawn_block(cx, cy);
            } else if byte == 64 {
                world.spawn_player(cx, cy);
            }
            proof {
                let after = cell_loaded(before, byte, cx, cy);
                assert(row_loaded(start, row, y as i32, x + 1) == after);
                assert(world@ =~= after.entities);
                assert(activations@ =~= after.links);
                assert forall|k: int| 0 <= k < activations@.len() implies world.has(
                    #[trigger] activations@[k],
                ) && world@[activations@[k].0 as int].activable is Some by {
                    if k < links0.len() {
                        assert(activations@[k] == links0[k]);
                        assert(world0.has(links0[k]));
                        assert(world@[links0[k].0 as int] == world0@[links0[k].0 as int]);
                    }
                }
                assert forall|a: int, b: int| map.in_bounds(a, b) implies #[trigger] map.tile_at(
                    a,
                    b,
                ) == partial_tile(rows, a, b, x + 1, y as int) by {
                    assert(map0.tile_at(a, b) == partial_tile(rows, a, b, x as int, y as int));
                }
            }
            x = x + 1;
        }
        proof {
            assert forall|a: int, b: int| map.in_bounds(a, b) implies #[trigger] map.tile_at(a, b)
                == partial_tile(rows, a, b, 0, y + 1) by {
                assert(map.tile_at(a, b) == partial_tile(rows, a, b, line@.len() as int, y as int));
            }
        }
        y = y + 1;
    }

    proof {
        assert(world.all_activable(activations@));
    }
    let ghost listed = world@;
    world.spawn_door(exit.0, exit.1, activations);
    proof {
        assert(world@.drop_last() =~= listed);
        assert forall|a: int, b: int| map.in_bounds(a, b) implies !#[trigger] map.blocked_at(a, b) by {
            assert(map.blocked_at(a, b) == fresh.blocked_at(a, b));
        }
        assert forall|a: int, b: int| !#[trigger] map.lasered_at(a, b) by {
            assert(map.lasered_vertical_at(a, b) == fresh.lasered_vertical_at(a, b));
            assert(map.lasered_horizontal_at(a, b) == fresh.lasered_horizontal_at(a, b));
            assert(!fresh.lasered_at(a, b));
        }
        assert forall|a: int, b: int| #[trigger] map.content_at(a, b) == Seq::<Entity>::empty() by {
            assert(map.content_at(a, b) == fresh.content_at(a, b));
        }
    }
    Some((world, map))
}

} // verus!
