//! The grid and its derived hazard layers.

use vstd::prelude::*;
use crate::components::{ActivationKind, Cardinal, Entity};
use crate::world::{EntityData, World};

verus! {

/// The kind of a tile.
#[derive(PartialEq, Eq, Structural, Copy, Clone, Debug)]
pub enum TileType {
    Wall,
    Floor,
    Exit,
}

/// The tiles of a level, fixed once it is loaded, and three layers derived
/// from the entities: which tiles are blocked, which entities stand on each
/// tile, and which tiles a laser beam sweeps, vertically or horizontally.
pub struct TileMap {
    level: u64,
    tiles: Vec<TileType>,
    blocked_tiles: Vec<bool>,
    content_tiles: Vec<Vec<Entity>>,
    lasered_ns: Vec<bool>,
    lasered_ew: Vec<bool>,
    width: i32,
    height: i32,
}

/// A tile of a `w` by `h` grid has a place of its own in a row-major layer.
pub(crate) proof fn lemma_index_in_range(w: int, h: int, x: int, y: int)
    requires
        0 <= x < w,
        0 <= y < h,
    ensures
        0 <= y * w + x < w * h,
        y * w + x < h * w,
{
    assert(0 <= y * w) by (nonlinear_arith)
        requires
            0 <= y,
            0 <= w,
    ;
    assert(y * w + w <= h * w) by (nonlinear_arith)
        requires
            y + 1 <= h,
            0 <= w,
    ;
    assert(h * w == w * h) by (nonlinear_arith);
}

/// Two tiles with the same place in a row-major layer are the same tile.
pub(crate) proof fn lemma_index_injective(w: int, x1: int, y1: int, x2: int, y2: int)
    requires
        0 <= x1 < w,
        0 <= x2 < w,
        y1 * w + x1 == y2 * w + x2,
    ensures
        x1 == x2,
        y1 == y2,
{
    if y1 < y2 {
        assert(y1 * w + w <= y2 * w) by (nonlinear_arith)
            requires
                y1 + 1 <= y2,
                0 <= w,
        ;
    } else if y2 < y1 {
        assert(y2 * w + w <= y1 * w) by (nonlinear_arith)
            requires
                y2 + 1 <= y1,
                0 <= w,
        ;
    }
}

/// True of a pressure plate.
pub open spec fn is_plate(data: EntityData) -> bool {
    data.activable is Some && data.activable->0.kind == ActivationKind::Weight
}

/// The orientation of the first reflector among `content[k..]`.
pub open spec fn first_reflector(world: &World, content: Seq<Entity>, k: int) -> Option<Cardinal>
    decreases content.len() - k,
{
    if k < 0 || k >= content.len() {
        None
    } else {
        match world@[content[k].0 as int].reflector {
            Some(reflector) => Some(reflector.orientation),
            None => first_reflector(world, content, k + 1),
        }
    }
}

/// The first entity among `content[k..]` that blocks its tile and can be
/// pushed.
pub open spec fn first_pushable(world: &World, content: Seq<Entity>, k: int) -> Option<Entity>
    decreases content.len() - k,
{
    if k < 0 || k >= content.len() {
        None
    } else if world@[content[k].0 as int].blocks_tile is Some && world@[content[k].0 as int].movable is Some {
        Some(content[k])
    } else {
        first_pushable(world, content, k + 1)
    }
}

impl TileMap {
    /// Number of the level that the map belongs to.
    pub closed spec fn spec_level(&self) -> u64 {
        self.level
    }

    /// Number of columns.
    pub closed spec fn spec_width(&self) -> i32 {
        self.width
    }

    /// Number of rows.
    pub closed spec fn spec_height(&self) -> i32 {
        self.height
    }

    /// Number of the level that the map belongs to.
    #[verifier::when_used_as_spec(spec_level)]
    pub fn level(&self) -> (l: u64)
        ensures
            l == self.level(),
    {
        self.level
    }

    /// Number of columns.
    #[verifier::when_used_as_spec(spec_width)]
    pub fn width(&self) -> (w: i32)
        ensures
            w == self.width(),
    {
        self.width
    }

    /// Number of rows.
    #[verifier::when_used_as_spec(spec_height)]
    pub fn height(&self) -> (h: i32)
        ensures
            h == self.height(),
    {
        self.height
    }

    /// True if `(x, y)` is a tile of the grid.
    pub open spec fn in_bounds(&self, x: int, y: int) -> bool {
        0 <= x < self.width() && 0 <= y < self.height()
    }

    /// The layers have one entry for each tile, and the number of tiles
    /// fits an `i32`.
    pub closed spec fn wf(&self) -> bool {
        &&& 0 <= self.width
        &&& 0 <= self.height
        &&& self.width * self.height <= i32::MAX
        &&& self.tiles@.len() == self.width * self.height
        &&& self.blocked_tiles@.len() == self.width * self.height
        &&& self.content_tiles@.len() == self.width * self.height
        &&& self.lasered_ns@.len() == self.width * self.height
        &&& self.lasered_ew@.len() == self.width * self.height
    }

    /// The number of tiles fits an `i32`.
    pub(crate) proof fn lemma_size(&self)
        requires
            self.wf(),
        ensures
            0 <= self.width(),
            0 <= self.height(),
            0 <= self.width() * self.height() <= i32::MAX,
    {
        assert(0 <= self.width * self.height) by (nonlinear_arith)
            requires
                0 <= self.width,
                0 <= self.height,
        ;
    }

    /// Outside the grid every tile is a blocked wall, with nothing on it
    /// and no beam over it.
    pub proof fn lemma_outside(&self)
        ensures
            forall|x: int, y: int|
                !self.in_bounds(x, y) ==> #[trigger] self.tile_at(x, y) == TileType::Wall,
            forall|x: int, y: int| !self.in_bounds(x, y) ==> #[trigger] self.blocked_at(x, y),
            forall|x: int, y: int|
                !self.in_bounds(x, y) ==> !#[trigger] self.lasered_vertical_at(x, y),
            forall|x: int, y: int|
                !self.in_bounds(x, y) ==> !#[trigger] self.lasered_horizontal_at(x, y),
            forall|x: int, y: int|
                !self.in_bounds(x, y) ==> #[trigger] self.content_at(x, y) == Seq::<Entity>::empty(),
    {
    }

    /// The kind of a tile; outside the grid everything is wall.
    pub closed spec fn tile_at(&self, x: int, y: int) -> TileType {
        if self.in_bounds(x, y) {
            self.tiles@[y * self.width + x]
        } else {
            TileType::Wall
        }
    }

    /// The blocked layer; outside the grid everything is blocked.
    pub closed spec fn blocked_at(&self, x: int, y: int) -> bool {
        !self.in_bounds(x, y) || self.blocked_tiles@[y * self.width + x]
    }

    /// True if a vertical beam sweeps the tile.
    pub closed spec fn lasered_vertical_at(&self, x: int, y: int) -> bool {
        self.in_bounds(x, y) && self.lasered_ns@[y * self.width + x]
    }

    /// True if a horizontal beam sweeps the tile.
    pub closed spec fn lasered_horizontal_at(&self, x: int, y: int) -> bool {
        self.in_bounds(x, y) && self.lasered_ew@[y * self.width + x]
    }

    /// True if any beam sweeps the tile.
    pub open spec fn lasered_at(&self, x: int, y: int) -> bool {
        self.lasered_vertical_at(x, y) || self.lasered_horizontal_at(x, y)
    }

    /// The entities indexed on a tile, in the order in which they were
    /// added; none outside the grid.
    pub closed spec fn content_at(&self, x: int, y: int) -> Seq<Entity> {
        if self.in_bounds(x, y) {
            self.content_tiles@[y * self.width + x]@
        } else {
            Seq::empty()
        }
    }

    /// True if the player may stand on the tile: it is in the grid, not
    /// blocked and not swept by a beam.
    pub open spec fn walkable(&self, x: int, y: int) -> bool {
        self.in_bounds(x, y) && !self.blocked_at(x, y) && !self.lasered_at(x, y)
    }

    /// Same level, size and tiles.
    pub open spec fn same_grid(&self, other: &TileMap) -> bool {
        &&& self.level() == other.level()
        &&& self.width() == other.width()
        &&& self.height() == other.height()
        &&& forall|x: int, y: int| #[trigger] self.tile_at(x, y) == other.tile_at(x, y)
    }

    /// Same blocked layer.
    pub open spec fn same_blocked(&self, other: &TileMap) -> bool {
        forall|x: int, y: int| #[trigger] self.blocked_at(x, y) == other.blocked_at(x, y)
    }

    /// Same lasered layer.
    pub open spec fn same_lasered(&self, other: &TileMap) -> bool {
        forall|x: int, y: int|
            #![trigger self.lasered_vertical_at(x, y)]
            #![trigger self.lasered_horizontal_at(x, y)]
            self.lasered_vertical_at(x, y) == other.lasered_vertical_at(x, y)
                && self.lasered_horizontal_at(x, y) == other.lasered_horizontal_at(x, y)
    }

    /// Same content layer.
    pub open spec fn same_content(&self, other: &TileMap) -> bool {
        forall|x: int, y: int| #[trigger] self.content_at(x, y) == other.content_at(x, y)
    }

    /// Every indexed entity is a handle of `world`.
    pub open spec fn content_in(&self, world: &World) -> bool {
        forall|x: int, y: int, k: int|
            0 <= k < self.content_at(x, y).len() ==> world.has(#[trigger] self.content_at(x, y)[k])
    }

    /// A map without tiles.
    pub fn empty() -> (map: TileMap)
        ensures
            map.wf(),
            map.level() == 0,
            map.width() == 0,
            map.height() == 0,
    {
        TileMap {
            level: 0,
            tiles: Vec::new(),
            blocked_tiles: Vec::new(),
            content_tiles: Vec::new(),
            lasered_ns: Vec::new(),
            lasered_ew: Vec::new(),
            width: 0,
            height: 0,
        }
    }

    /// A room of floor tiles behind a border of walls, with nothing
    /// blocked, indexed or lasered.
    pub fn new(level: u64, width: i32, height: i32) -> (map: TileMap)
        requires
            0 <= width,
            0 <= height,
            width * height <= i32::MAX,
        ensures
            map.wf(),
            map.level() == level,
            map.width() == width,
            map.height() == height,
            forall|x: int, y: int|
                map.in_bounds(x, y) ==> #[trigger] map.tile_at(x, y) == (if x == 0 || y == 0 || x
                    == width - 1 || y == height - 1 {
                    TileType::Wall
                } else {
                    TileType::Floor
                }),
            forall|x: int, y: int| map.in_bounds(x, y) ==> !#[trigger] map.blocked_at(x, y),
            forall|x: int, y: int| !#[trigger] map.lasered_at(x, y),
            forall|x: int, y: int| #[trigger] map.content_at(x, y) == Seq::<Entity>::empty(),
    {
        let mut map = TileMap {
            level,
            tiles: Vec::new(),
            blocked_tiles: Vec::new(),
            content_tiles: Vec::new(),
            lasered_ns: Vec::new(),
            lasered_ew: Vec::new(),
            width,
            height,
        };
        let mut y: i32 = 0;
        while y < height
            invariant
                0 <= y <= height,
                0 <= width,
                width * height <= i32::MAX,
                map.width == width,
                map.height == height,
                map.level == level,
                map.tiles@.len() == y * width,
                map.blocked_tiles@.len() == y * width,
                map.content_tiles@.len() == y * width,
                map.lasered_ns@.len() == y * width,
                map.lasered_ew@.len() == y * width,
                forall|a: int, b: int|
                    0 <= a < width && 0 <= b < y ==> #[trigger] map.tiles@[b * width + a] == (if a
                        == 0 || b == 0 || a == width - 1 || b == height - 1 {
                        TileType::Wall
                    } else {
                        TileType::Floor
                    }),
                forall|i: int| 0 <= i < y * width ==> !#[trigger] map.blocked_tiles@[i],
                forall|i: int| 0 <= i < y * width ==> !#[trigger] map.lasered_ns@[i],
                forall|i: int| 0 <= i < y * width ==> !#[trigger] map.lasered_ew@[i],
                forall|i: int| 0 <= i < y * width ==> (#[trigger] map.content_tiles@[i])@.len() == 0,
            decreases height - y,
        {
            let mut x: i32 = 0;
            while x < width
                invariant
                    0 <= x <= width,
                    0 <= y < height,
                    width * height <= i32::MAX,
                    map.width == width,
                    map.height == height,
                    map.level == level,
                    map.tiles@.len() == y * width + x,
                    map.blocked_tiles@.len() == y * width + x,
                    map.content_tiles@.len() == y * width + x,
                    map.lasered_ns@.len() == y * width + x,
                    map.lasered_ew@.len() == y * width + x,
                    forall|a: int, b: int|
                        0 <= a < width && (0 <= b < y || (b == y && a < x))
                            ==> #[trigger] map.tiles@[b * width + a] == (if a == 0 || b == 0 || a
                            == width - 1 || b == height - 1 {
                            TileType::Wall
                        } else {
                            TileType::Floor
                        }),
                    forall|i: int| 0 <= i < y * width + x ==> !#[trigger] map.blocked_tiles@[i],
                    forall|i: int| 0 <= i < y * width + x ==> !#[trigger] map.lasered_ns@[i],
                    forall|i: int| 0 <= i < y * width + x ==> !#[trigger] map.lasered_ew@[i],
                    forall|i: int|
                        0 <= i < y * width + x ==> (#[trigger] map.content_tiles@[i])@.len() == 0,
                decreases width - x,
            {
                let border = x == 0 || y == 0 || x == width - 1 || y == height - 1;
                let ghost before = map.tiles@;
                map.tiles.push(if border { TileType::Wall } else { TileType::Floor });
                map.blocked_tiles.push(false);
                map.content_tiles.push(Vec::new());
                map.lasered_ns.push(false);
                map.lasered_ew.push(false);
                proof {
                    assert forall|a: int, b: int|
                        0 <= a < width && (0 <= b < y || (b == y && a < x + 1))
                        implies #[trigger] map.tiles@[b * width + a] == (if a == 0 || b == 0 || a
                        == width - 1 || b == height - 1 {
                        TileType::Wall
                    } else {
                        TileType::Floor
                    }) by {
                        if b == y && a == x {
                        } else {
                            if b < y {
                                lemma_index_in_range(width as int, y as int, a, b);
                            }
                            assert(b * width + a < y * width + x);
                            assert(map.tiles@[b * width + a] == before[b * width + a]);
                        }
                    }
                }
                x = x + 1;
            }
            proof {
                assert((y + 1) * width == y * width + width) by (nonlinear_arith);
            }
            y = y + 1;
        }
        proof {
            assert forall|x: int, y: int| map.in_bounds(x, y) implies 0 <= y * width + x < width
                * height by {
                lemma_index_in_range(width as int, height as int, x, y);
            }
            assert(height * width == width * height) by (nonlinear_arith);
        }
        map
    }

    /// True if `(x, y)` is a tile of the grid.
    pub fn is_inside(&self, x: i32, y: i32) -> (b: bool)
        ensures
            b == self.in_bounds(x as int, y as int),
    {
        0 <= x && x < self.width && 0 <= y && y < self.height
    }

    /// The place of a tile in a row-major layer.
    #[inline]
    pub(crate) fn xy_idx(&self, x: i32, y: i32) -> (idx: usize)
        requires
            self.wf(),
            self.in_bounds(x as int, y as int),
        ensures
            idx == y * self.width() + x,
            idx < self.width() * self.height(),
    {
        proof {
            lemma_index_in_range(self.width as int, self.height as int, x as int, y as int);
            assert(0 <= y * self.width <= y * self.width + x) by (nonlinear_arith)
                requires
                    0 <= y,
                    0 <= self.width,
                    0 <= x,
            ;
        }
        (y * self.width + x) as usize
    }

    /// True if the tile is an exit; nothing outside the grid is.
    pub fn is_exit(&self, x: i32, y: i32) -> (b: bool)
        requires
            self.wf(),
        ensures
            b == (self.tile_at(x as int, y as int) == TileType::Exit),
    {
        if !self.is_inside(x, y) {
            return false;
        }
        let idx = self.xy_idx(x, y);
        self.tiles[idx] == TileType::Exit
    }

    /// The kind of a tile of the grid.
    pub fn get_tiletype(&self, x: i32, y: i32) -> (t: TileType)
        requires
            self.wf(),
            self.in_bounds(x as int, y as int),
        ensures
            t == self.tile_at(x as int, y as int),
    {
        let idx = self.xy_idx(x, y);
        self.tiles[idx]
    }

    /// Sets the kind of a tile of the grid.
    pub fn set_tiletype(&mut self, x: i32, y: i32, tiletype: TileType)
        requires
            old(self).wf(),
            old(self).in_bounds(x as int, y as int),
        ensures
            final(self).wf(),
            final(self).level() == old(self).level(),
            final(self).width() == old(self).width(),
            final(self).height() == old(self).height(),
            forall|a: int, b: int|
                #[trigger] final(self).tile_at(a, b) == (if a == x && b == y {
                    tiletype
                } else {
                    old(self).tile_at(a, b)
                }),
            final(self).same_blocked(old(self)),
            final(self).same_lasered(old(self)),
            final(self).same_content(old(self)),
    {
        let idx = self.xy_idx(x, y);
        self.tiles[idx] = tiletype;
        proof {
            assert forall|a: int, b: int|
                #[trigger] self.tile_at(a, b) == (if a == x && b == y {
                    tiletype
                } else {
                    old(self).tile_at(a, b)
                }) by {
                if self.in_bounds(a, b) {
                    lemma_index_in_range(self.width as int, self.height as int, a, b);
                    if b * self.width + a == idx {
                        lemma_index_injective(self.width as int, a, b, x as int, y as int);
                    }
                }
            }
        }
    }

    /// Clears the lasered layer.
    pub fn reset_lasered(&mut self)
        requires
            old(self).wf(),
        ensures
            final(self).wf(),
            final(self).same_grid(old(self)),
            final(self).same_blocked(old(self)),
            final(self).same_content(old(self)),
            forall|x: int, y: int| !#[trigger] final(self).lasered_vertical_at(x, y),
            forall|x: int, y: int| !#[trigger] final(self).lasered_horizontal_at(x, y),
    {
        let n = self.lasered_ns.len();
        let mut i: usize = 0;
        while i < n
            invariant
                0 <= i <= n,
                n == self.lasered_ns@.len(),
                n == self.lasered_ew@.len(),
                self.wf(),
                self.level == old(self).level,
                self.width == old(self).width,
                self.height == old(self).height,
                self.tiles == old(self).tiles,
                self.blocked_tiles == old(self).blocked_tiles,
                self.content_tiles == old(self).content_tiles,
                forall|k: int| 0 <= k < i ==> !#[trigger] self.lasered_ns@[k],
                forall|k: int| 0 <= k < i ==> !#[trigger] self.lasered_ew@[k],
            decreases n - i,
        {
            self.lasered_ns[i] = false;
            self.lasered_ew[i] = false;
            i = i + 1;
        }
        proof {
            assert forall|x: int, y: int| !#[trigger] self.lasered_vertical_at(x, y) by {
                if self.in_bounds(x, y) {
                    lemma_index_in_range(self.width as int, self.height as int, x, y);
                }
            }
            assert forall|x: int, y: int| !#[trigger] self.lasered_horizontal_at(x, y) by {
                if self.in_bounds(x, y) {
                    lemma_index_in_range(self.width as int, self.height as int, x, y);
                }
            }
        }
    }

    /// Marks a tile as swept by a beam travelling in `direction`: vertically
    /// for `N` and `S`, horizontally for `E` and `W`.
    pub fn set_lasered(&mut self, x: i32, y: i32, direction: Cardinal)
        requires
            old(self).wf(),
            old(self).in_bounds(x as int, y as int),
            direction.is_axis(),
        ensures
            final(self).wf(),
            final(self).same_grid(old(self)),
            final(self).same_blocked(old(self)),
            final(self).same_content(old(self)),
            forall|a: int, b: int|
                #[trigger] final(self).lasered_vertical_at(a, b) == (old(self).lasered_vertical_at(
                    a,
                    b,
                ) || (a == x && b == y && (direction is N || direction is S))),
            forall|a: int, b: int|
                #[trigger] final(self).lasered_horizontal_at(a, b) == (old(
                    self,
                ).lasered_horizontal_at(a, b) || (a == x && b == y && (direction is E || direction is W))),
    {
        let idx = self.xy_idx(x, y);
        match direction {
            Cardinal::N | Cardinal::S => {
                self.lasered_ns[idx] = true;
            },
            _ => {
                self.lasered_ew[idx] = true;
            },
        }
        proof {
            assert forall|a: int, b: int|
                #[trigger] self.lasered_vertical_at(a, b) == (old(self).lasered_vertical_at(a, b)
                    || (a == x && b == y && (direction is N || direction is S))) by {
                if self.in_bounds(a, b) {
                    lemma_index_in_range(self.width as int, self.height as int, a, b);
                    if b * self.width + a == idx {
                        lemma_index_injective(self.width as int, a, b, x as int, y as int);
                    }
                }
            }
            assert forall|a: int, b: int|
                #[trigger] self.lasered_horizontal_at(a, b) == (old(self).lasered_horizontal_at(
                    a,
                    b,
                ) || (a == x && b == y && (direction is E || direction is W))) by {
                if self.in_bounds(a, b) {
                    lemma_index_in_range(self.width as int, self.height as int, a, b);
                    if b * self.width + a == idx {
                        lemma_index_injective(self.width as int, a, b, x as int, y as int);
                    }
                }
            }
        }
    }

    /// True if any beam sweeps the tile; none does outside the grid.
    pub fn is_lasered(&self, x: i32, y: i32) -> (b: bool)
        requires
            self.wf(),
        ensures
            b == self.lasered_at(x as int, y as int),
    {
        if !self.is_inside(x, y) {
            return false;
        }
        let idx = self.xy_idx(x, y);
        self.lasered_ns[idx] || self.lasered_ew[idx]
    }

    /// True if a vertical beam sweeps the tile.
    pub fn is_lasered_vertical(&self, x: i32, y: i32) -> (b: bool)
        requires
            self.wf(),
        ensures
            b == self.lasered_vertical_at(x as int, y as int),
    {
        if !self.is_inside(x, y) {
            return false;
        }
        let idx = self.xy_idx(x, y);
        self.lasered_ns[idx]
    }

    /// True if a horizontal beam sweeps the tile.
    pub fn is_lasered_horizontal(&self, x: i32, y: i32) -> (b: bool)
        requires
            self.wf(),
        ensures
            b == self.lasered_horizontal_at(x as int, y as int),
    {
        if !self.is_inside(x, y) {
            return false;
        }
        let idx = self.xy_idx(x, y);
        self.lasered_ew[idx]
    }

    /// Blocks the walls and frees every other tile.
    pub fn reset_blocked(&mut self)
        requires
            old(self).wf(),
        ensures
            final(self).wf(),
            final(self).same_grid(old(self)),
            final(self).same_lasered(old(self)),
            final(self).same_content(old(self)),
            forall|x: int, y: int|
                #[trigger] final(self).blocked_at(x, y) == (final(self).tile_at(x, y)
                    == TileType::Wall),
    {
        let n = self.blocked_tiles.len();
        let mut i: usize = 0;
        while i < n
            invariant
                0 <= i <= n,
                n == self.blocked_tiles@.len(),
                self.wf(),
                self.level == old(self).level,
                self.width == old(self).width,
                self.height == old(self).height,
                self.tiles == old(self).tiles,
                self.lasered_ns == old(self).lasered_ns,
                self.lasered_ew == old(self).lasered_ew,
                self.content_tiles == old(self).content_tiles,
                forall|k: int|
                    0 <= k < i ==> #[trigger] self.blocked_tiles@[k] == (self.tiles@[k]
                        == TileType::Wall),
            decreases n - i,
        {
            self.blocked_tiles[i] = self.tiles[i] == TileType::Wall;
            i = i + 1;
        }
        proof {
            assert forall|x: int, y: int|
                #[trigger] self.blocked_at(x, y) == (self.tile_at(x, y) == TileType::Wall) by {
                if self.in_bounds(x, y) {
                    lemma_index_in_range(self.width as int, self.height as int, x, y);
                }
            }
        }
    }

    /// Blocks a tile of the grid.
    pub fn set_blocked(&mut self, x: i32, y: i32)
        requires
            old(self).wf(),
            old(self).in_bounds(x as int, y as int),
        ensures
            final(self).wf(),
            final(self).same_grid(old(self)),
            final(self).same_lasered(old(self)),
            final(self).same_content(old(self)),
            forall|a: int, b: int|
                #[trigger] final(self).blocked_at(a, b) == (old(self).blocked_at(a, b) || (a == x
                    && b == y)),
    {
        let idx = self.xy_idx(x, y);
        self.blocked_tiles[idx] = true;
        proof {
            assert forall|a: int, b: int|
                #[trigger] self.blocked_at(a, b) == (old(self).blocked_at(a, b) || (a == x && b
                    == y)) by {
                if self.in_bounds(a, b) {
                    lemma_index_in_range(self.width as int, self.height as int, a, b);
                    if b * self.width + a == idx {
                        lemma_index_injective(self.width as int, a, b, x as int, y as int);
                    }
                }
            }
        }
    }

    /// True if the tile is blocked; everything outside the grid is.
    pub fn is_blocked(&self, x: i32, y: i32) -> (b: bool)
        requires
            self.wf(),
        ensures
            b == self.blocked_at(x as int, y as int),
    {
        if !self.is_inside(x, y) {
            return true;
        }
        let idx = self.xy_idx(x, y);
        self.blocked_tiles[idx]
    }

    /// Empties the content layer.
    pub fn reset_content(&mut self)
        requires
            old(self).wf(),
        ensures
            final(self).wf(),
            final(self).same_grid(old(self)),
            final(self).same_blocked(old(self)),
            final(self).same_lasered(old(self)),
            forall|x: int, y: int| #[trigger] final(self).content_at(x, y) == Seq::<Entity>::empty(),
    {
        let n = self.content_tiles.len();
        let mut i: usize = 0;
        while i < n
            invariant
                0 <= i <= n,
                n == self.content_tiles@.len(),
                self.wf(),
                self.level == old(self).level,
                self.width == old(self).width,
                self.height == old(self).height,
                self.tiles == old(self).tiles,
                self.lasered_ns == old(self).lasered_ns,
                self.lasered_ew == old(self).lasered_ew,
                self.blocked_tiles == old(self).blocked_tiles,
                forall|k: int| 0 <= k < i ==> (#[trigger] self.content_tiles@[k])@.len() == 0,
            decreases n - i,
        {
            self.content_tiles[i].clear();
            i = i + 1;
        }
        proof {
            assert forall|x: int, y: int| #[trigger]
                self.content_at(x, y) == Seq::<Entity>::empty() by {
                if self.in_bounds(x, y) {
                    lemma_index_in_range(self.width as int, self.height as int, x, y);
                    assert(self.content_tiles@[y * self.width + x]@ =~= Seq::<Entity>::empty());
                }
            }
        }
    }

    /// Adds an entity at the end of a tile's content.
    pub fn add_content(&mut self, x: i32, y: i32, entity: Entity)
        requires
            old(self).wf(),
            old(self).in_bounds(x as int, y as int),
        ensures
            final(self).wf(),
            final(self).same_grid(old(self)),
            final(self).same_blocked(old(self)),
            final(self).same_lasered(old(self)),
            forall|a: int, b: int|
                #[trigger] final(self).content_at(a, b) == (if a == x && b == y {
                    old(self).content_at(a, b).push(entity)
                } else {
                    old(self).content_at(a, b)
                }),
    {
        let idx = self.xy_idx(x, y);
        self.content_tiles[idx].push(entity);
        proof {
            assert forall|a: int, b: int|
                #[trigger] self.content_at(a, b) == (if a == x && b == y {
                    old(self).content_at(a, b).push(entity)
                } else {
                    old(self).content_at(a, b)
                }) by {
                if self.in_bounds(a, b) {
                    lemma_index_in_range(self.width as int, self.height as int, a, b);
                    if b * self.width + a == idx {
                        lemma_index_injective(self.width as int, a, b, x as int, y as int);
                    }
                }
            }
        }
    }

    /// The entities indexed on a tile of the grid.
    pub fn iter_content(&self, x: i32, y: i32) -> (content: &Vec<Entity>)
        requires
            self.wf(),
            self.in_bounds(x as int, y as int),
        ensures
            content@ == self.content_at(x as int, y as int),
    {
        let idx = self.xy_idx(x, y);
        &self.content_tiles[idx]
    }

    /// True if the player may stand on the tile: it is in the grid, not
    /// blocked and not swept by a beam.
    pub fn is_exit_valid(&self, x: i32, y: i32) -> (b: bool)
        requires
            self.wf(),
        ensures
            b == self.walkable(x as int, y as int),
    {
        if x < 0 || y < 0 || x >= self.width || y >= self.height {
            return false;
        }
        !self.is_blocked(x, y) && !self.is_lasered(x, y)
    }

    /// The exit tiles among the first `n` tiles of row `y`, from west to
    /// east.
    pub open spec fn row_exits(&self, y: int, n: int) -> Seq<(i32, i32)>
        decreases n,
    {
        if n <= 0 {
            Seq::empty()
        } else if self.tile_at(n - 1, y) == TileType::Exit {
            self.row_exits(y, n - 1).push(((n - 1) as i32, y as i32))
        } else {
            self.row_exits(y, n - 1)
        }
    }

    /// The exit tiles of the first `rows` rows, row by row from the north.
    pub open spec fn exits_upto(&self, rows: int) -> Seq<(i32, i32)>
        decreases rows,
    {
        if rows <= 0 {
            Seq::empty()
        } else {
            self.exits_upto(rows - 1) + self.row_exits(rows - 1, self.width() as int)
        }
    }

    /// The exit tiles, row by row from the north and from west to east
    /// within a row.
    pub open spec fn exits(&self) -> Seq<(i32, i32)> {
        self.exits_upto(self.height() as int)
    }

    /// The exit tiles, row by row from the north and from west to east
    /// within a row.
    pub fn get_exits(&self) -> (exits: Vec<(i32, i32)>)
        requires
            self.wf(),
        ensures
            exits@ == self.exits(),
    {
        let mut exits: Vec<(i32, i32)> = Vec::new();
        let mut y: i32 = 0;
        while y < self.height
            invariant
                self.wf(),
                0 <= y <= self.height,
                exits@ == self.exits_upto(y as int),
            decreases self.height - y,
        {
            let ghost above = exits@;
            let mut x: i32 = 0;
            while x < self.width
                invariant
                    self.wf(),
                    0 <= y < self.height,
                    0 <= x <= self.width,
                    exits@ == above + self.row_exits(y as int, x as int),
                decreases self.width - x,
            {
                if self.is_exit(x, y) {
                    exits.push((x, y));
                    assert(exits@ =~= above + self.row_exits(y as int, x + 1));
                }
                x = x + 1;
            }
            y = y + 1;
        }
        exits
    }

    /// True if a beam stops on the tile: at a wall, outside the grid, or at
    /// an indexed entity that blocks lasers.
    pub open spec fn blocks_laser_at(&self, world: &World, x: int, y: int) -> bool {
        self.tile_at(x, y) == TileType::Wall || exists|k: int|
            0 <= k < self.content_at(x, y).len() && (#[trigger] world@[self.content_at(
                x,
                y,
            )[k].0 as int]).blocks_laser is Some
    }

    /// True if a Weight-kind `Activable` is indexed on the tile.
    pub open spec fn plate_at(&self, world: &World, x: int, y: int) -> bool {
        exists|k: int|
            0 <= k < self.content_at(x, y).len() && is_plate(
                #[trigger] world@[self.content_at(x, y)[k].0 as int],
            )
    }

    /// The orientation of the first reflector indexed on the tile.
    pub open spec fn reflector_at(&self, world: &World, x: int, y: int) -> Option<Cardinal> {
        first_reflector(world, self.content_at(x, y), 0)
    }

    /// The first indexed entity that blocks the tile and can be pushed.
    pub open spec fn pushable_at(&self, world: &World, x: int, y: int) -> Option<Entity> {
        first_pushable(world, self.content_at(x, y), 0)
    }

    /// True if a block on the tile could never leave one of its corners:
    /// two neighbours at a right angle and the tile diagonally between
    /// them are all blocked.
    pub open spec fn cornered(&self, x: int, y: int) -> bool {
        let e = self.blocked_at(x + 1, y);
        let ne = self.blocked_at(x + 1, y - 1);
        let n = self.blocked_at(x, y - 1);
        let nw = self.blocked_at(x - 1, y - 1);
        let w = self.blocked_at(x - 1, y);
        let sw = self.blocked_at(x - 1, y + 1);
        let s = self.blocked_at(x, y + 1);
        let se = self.blocked_at(x + 1, y + 1);
        (e && ne && n) || (n && nw && w) || (w && sw && s) || (s && se && e)
    }

    /// True if entity `i` is a pushable block that is cornered away from
    /// every pressure plate.
    pub open spec fn stuck_block(&self, world: &World, i: int) -> bool {
        let data = world@[i];
        &&& data.movable is Some
        &&& data.block is Some
        &&& !self.plate_at(world, data.position.x as int, data.position.y as int)
        &&& self.cornered(data.position.x as int, data.position.y as int)
    }

    /// True if a beam stops on the tile.
    pub fn is_blocking_laser(&self, x: i32, y: i32, world: &World) -> (b: bool)
        requires
            self.wf(),
            self.content_in(world),
        ensures
            b == self.blocks_laser_at(world, x as int, y as int),
    {
        if !self.is_inside(x, y) {
            return true;
        }
        if self.get_tiletype(x, y) == TileType::Wall {
            return true;
        }
        let content = self.iter_content(x, y);
        let mut k: usize = 0;
        while k < content.len()
            invariant
                0 <= k <= content@.len(),
                content@ == self.content_at(x as int, y as int),
                self.content_in(world),
                forall|j: int| 0 <= j < k ==> (#[trigger] world@[content@[j].0 as int]).blocks_laser is None,
            decreases content@.len() - k,
        {
            assert(world.has(self.content_at(x as int, y as int)[k as int]));
            if world.get(content[k]).blocks_laser.is_some() {
                return true;
            }
            k = k + 1;
        }
        false
    }

    /// The orientation of the first reflector on the tile, if there is
    /// one.
    pub fn is_reflecting_laser(&self, x: i32, y: i32, world: &World) -> (r: Option<Cardinal>)
        requires
            self.wf(),
            self.content_in(world),
        ensures
            r == self.reflector_at(world, x as int, y as int),
    {
        if !self.is_inside(x, y) {
            return None;
        }
        let content = self.iter_content(x, y);
        let mut k: usize = 0;
        while k < content.len()
            invariant
                0 <= k <= content@.len(),
                content@ == self.content_at(x as int, y as int),
                self.content_in(world),
                first_reflector(world, content@, 0) == first_reflector(world, content@, k as int),
            decreases content@.len() - k,
        {
            assert(world.has(self.content_at(x as int, y as int)[k as int]));
            match world.get(content[k]).reflector {
                Some(reflector) => {
                    return Some(reflector.orientation);
                },
                None => {},
            }
            k = k + 1;
        }
        None
    }

    /// Among the entities on the tile, the first one that blocks the tile
    /// and can be pushed, if there is one.
    pub fn movable(&self, x: i32, y: i32, world: &World) -> (r: Option<Entity>)
        requires
            self.wf(),
            self.content_in(world),
        ensures
            r == self.pushable_at(world, x as int, y as int),
    {
        if !self.is_inside(x, y) {
            return None;
        }
        let content = self.iter_content(x, y);
        let mut k: usize = 0;
        while k < content.len()
            invariant
                0 <= k <= content@.len(),
                content@ == self.content_at(x as int, y as int),
                self.content_in(world),
                first_pushable(world, content@, 0) == first_pushable(world, content@, k as int),
            decreases content@.len() - k,
        {
            assert(world.has(self.content_at(x as int, y as int)[k as int]));
            let data = world.get(content[k]);
            if data.blocks_tile.is_some() && data.movable.is_some() {
                return Some(content[k]);
            }
            k = k + 1;
        }
        None
    }

    /// True if a pressure plate lies on the tile.
    pub fn has_plate(&self, x: i32, y: i32, world: &World) -> (b: bool)
        requires
            self.wf(),
            self.content_in(world),
        ensures
            b == self.plate_at(world, x as int, y as int),
    {
        if !self.is_inside(x, y) {
            return false;
        }
        let content = self.iter_content(x, y);
        let mut k: usize = 0;
        while k < content.len()
            invariant
                0 <= k <= content@.len(),
                content@ == self.content_at(x as int, y as int),
                self.content_in(world),
                forall|j: int| 0 <= j < k ==> !is_plate(#[trigger] world@[content@[j].0 as int]),
            decreases content@.len() - k,
        {
            assert(world.has(self.content_at(x as int, y as int)[k as int]));
            match world.get(content[k]).activable {
                Some(activable) => {
                    if activable.kind == ActivationKind::Weight {
                        return true;
                    }
                },
                None => {},
            }
            k = k + 1;
        }
        false
    }

    /// The blocked layer one step away from a tile, diagonals included.
    fn is_blocked_near(&self, x: i32, y: i32, dx: i32, dy: i32) -> (b: bool)
        requires
            self.wf(),
            -1 <= dx <= 1,
            -1 <= dy <= 1,
        ensures
            b == self.blocked_at(x + dx, y + dy),
    {
        let nx: i64 = x as i64 + dx as i64;
        let ny: i64 = y as i64 + dy as i64;
        if nx < 0 || ny < 0 || nx >= self.width as i64 || ny >= self.height as i64 {
            return true;
        }
        self.is_blocked(nx as i32, ny as i32)
    }

    /// True if a block on the tile could never leave one of its corners.
    pub fn is_cornered(&self, x: i32, y: i32) -> (b: bool)
        requires
            self.wf(),
        ensures
            b == self.cornered(x as int, y as int),
    {
        let e = self.is_blocked_near(x, y, 1, 0);
        let ne = self.is_blocked_near(x, y, 1, -1);
        let n = self.is_blocked_near(x, y, 0, -1);
        let nw = self.is_blocked_near(x, y, -1, -1);
        let w = self.is_blocked_near(x, y, -1, 0);
        let sw = self.is_blocked_near(x, y, -1, 1);
        let s = self.is_blocked_near(x, y, 0, 1);
        let se = self.is_blocked_near(x, y, 1, 1);
        (e && ne && n) || (n && nw && w) || (w && sw && s) || (s && se && e)
    }

    /// True if some pushable block stands cornered away from every
    /// pressure plate, so that the level can no longer be solved.
    pub fn is_impossible(&self, world: &World) -> (b: bool)
        requires
            self.wf(),
            self.content_in(world),
        ensures
            b == exists|i: int| 0 <= i < world@.len() && #[trigger] self.stuck_block(world, i),
    {
        let mut i: usize = 0;
        while i < world.len()
            invariant
                0 <= i <= world@.len(),
                self.wf(),
                self.content_in(world),
                forall|j: int| 0 <= j < i ==> !#[trigger] self.stuck_block(world, j),
            decreases world@.len() - i,
        {
            let data = world.get(Entity(i));
            if data.movable.is_some() && data.block.is_some() {
                let pos = data.position;
                if !self.has_plate(pos.x, pos.y, world) && self.is_cornered(pos.x, pos.y) {
                    assert(self.stuck_block(world, i as int));
                    return true;
                }
            }
            i = i + 1;
        }
        false
    }
}

} // verus!
