//! The tile map: which places are walls, and where an entity may spawn.
use crate::config::MAX_MAP_SIDE;
use crate::config::SPAWN_TRIES;
use crate::config::UNIT;
use crate::bytes::copy_range;
use crate::config::MAP_CHUNK_SIZE;
use crate::network::state::chunks_view;
use crate::network::state::map_chunk;
use crate::network::state::map_chunk_count;
use crate::network::state::map_chunks;
use crate::network::state::MapChunk;
use crate::rng::gen_range;
use crate::transport::chunk_start;
use crate::transport::lemma_chunk_bounds;
use std::collections::VecDeque;
use vstd::prelude::*;

verus! {

#[derive(Clone, Copy, Debug, PartialEq, Eq, Structural)]
pub enum Tile {
    Empty,
    Wall,
}

/// A grid of tiles, `height` rows of `width` tiles each.
#[derive(Debug)]
pub struct TileMap {
    pub width: usize,
    pub height: usize,
    pub tiles: Vec<Vec<Tile>>,
}

/// The tiles of a grid as rows of a sequence.
pub open spec fn grid_view(tiles: Seq<Vec<Tile>>) -> Seq<Seq<Tile>> {
    Seq::new(tiles.len(), |y: int| tiles[y]@)
}

/// Every row of the grid has `width` tiles.
pub open spec fn is_grid(g: Seq<Seq<Tile>>, width: nat, height: nat) -> bool {
    &&& g.len() == height
    &&& forall|y: int| 0 <= y < g.len() ==> (#[trigger] g[y]).len() == width
}

/// The tile that a coordinate falls into. A coordinate on the line between
/// two tiles belongs to the lower tile when it is the upper end of a box,
/// and to the higher tile when it is the lower end.
pub open spec fn tile_index(c: int, upper_end: bool) -> int {
    if upper_end {
        if c <= 0 {
            0
        } else {
            (c - 1) / (UNIT as int)
        }
    } else {
        c / (UNIT as int)
    }
}

/// Tiles that a box of the given radius reaches to each side of its centre:
/// the radius in tiles, rounded up.
pub open spec fn reach(radius: u32) -> int {
    (radius + UNIT - 1) / (UNIT as int)
}

impl View for TileMap {
    type V = Seq<Seq<Tile>>;

    open spec fn view(&self) -> Seq<Seq<Tile>> {
        grid_view(self.tiles@)
    }
}

impl TileMap {
    /// The grid has the size that the map states, and no side is longer
    /// than `MAX_MAP_SIDE`.
    pub open spec fn wf(&self) -> bool {
        &&& is_grid(self@, self.width as nat, self.height as nat)
        &&& self.width <= MAX_MAP_SIDE
        &&& self.height <= MAX_MAP_SIDE
    }

    /// The tile at column `x` of row `y`.
    pub open spec fn tile(&self, x: int, y: int) -> Tile {
        self@[y][x]
    }

    /// Whether the corner `(cx, cy)` of a box lies outside the map or in a
    /// wall tile.
    pub open spec fn corner_blocked(&self, cx: int, cy: int, right: bool, lower: bool) -> bool {
        ||| cx < 0
        ||| cx >= self.width * UNIT
        ||| cy < 0
        ||| cy >= self.height * UNIT
        ||| self.tile(tile_index(cx, right), tile_index(cy, lower)) == Tile::Wall
    }

    /// Whether the box of one tile round `(x, y)` touches a wall: one of
    /// its four corners lies outside the map or in a wall tile.
    pub open spec fn wall_at(&self, x: int, y: int) -> bool {
        let half = UNIT as int / 2;
        ||| self.corner_blocked(x - half, y - half, false, false)
        ||| self.corner_blocked(x + half, y - half, true, false)
        ||| self.corner_blocked(x - half, y + half, false, true)
        ||| self.corner_blocked(x + half, y + half, true, true)
    }

    /// Whether no tile of the map within `reach(radius)` tiles of the tile
    /// `(tx, ty)`, in either direction, is a wall.
    pub open spec fn spawn_clear(&self, tx: int, ty: int, radius: u32) -> bool {
        forall|x: int, y: int|
            0 <= x < self.width && 0 <= y < self.height && tx - reach(radius) <= x <= tx + reach(
                radius,
            ) && ty - reach(radius) <= y <= ty + reach(radius) ==> self.tile(x, y) == Tile::Empty
    }

    /// Whether `(x, y)` is the corner of a tile of the map round which an
    /// entity of the given radius may spawn.
    pub open spec fn is_spawn_position(&self, x: int, y: int, radius: u32) -> bool {
        exists|tx: int, ty: int|
            0 <= tx < self.width && 0 <= ty < self.height && x == tx * UNIT && y == ty * UNIT
                && self.spawn_clear(tx, ty, radius)
    }

    /// Whether an entity of the given radius may spawn anywhere.
    pub open spec fn has_spawn_position(&self, radius: u32) -> bool {
        exists|tx: int, ty: int|
            0 <= tx < self.width && 0 <= ty < self.height && self.spawn_clear(tx, ty, radius)
    }

    /// Whether the map is well formed.
    pub fn is_valid(&self) -> (b: bool)
        ensures
            b == self.wf(),
    {
        if self.width > MAX_MAP_SIDE || self.height > MAX_MAP_SIDE {
            return false;
        }
        if self.tiles.len() != self.height {
            return false;
        }
        let mut y: usize = 0;
        while y < self.tiles.len()
            invariant
                y <= self.tiles@.len(),
                self@.len() == self.height,
                forall|j: int| 0 <= j < y ==> (#[trigger] self@[j]).len() == self.width,
            decreases self.tiles@.len() - y,
        {
            if self.tiles[y].len() != self.width {
                assert(self@[y as int].len() != self.width);
                return false;
            }
            y += 1;
        }
        true
    }

    /// Whether the box of one tile round `(x, y)` touches a wall or leaves
    /// the map.
    pub fn is_wall(&self, x: i64, y: i64) -> (b: bool)
        requires
            self.wf(),
        ensures
            b == self.wall_at(x as int, y as int),
    {
        let half: i64 = 500;
        let unit: i64 = 1000;
        if x < half || y < half {
            return true;
        }
        let right: i64 = self.width as i64 * unit;
        let bottom: i64 = self.height as i64 * unit;
        if x >= right - half || y >= bottom - half {
            return true;
        }
        let x0: usize = ((x - half) / unit) as usize;
        let x1: usize = ((x + half - 1) / unit) as usize;
        let y0: usize = ((y - half) / unit) as usize;
        let y1: usize = ((y + half - 1) / unit) as usize;
        assert(x0 == tile_index(x - 500, false) && x1 == tile_index(x + 500, true));
        assert(y0 == tile_index(y - 500, false) && y1 == tile_index(y + 500, true));
        assert(x0 < self.width && x1 < self.width && y0 < self.height && y1 < self.height);
        assert(self@[y0 as int] == self.tiles@[y0 as int]@);
        assert(self@[y1 as int] == self.tiles@[y1 as int]@);
        self.tiles[y0][x0] == Tile::Wall || self.tiles[y0][x1] == Tile::Wall || self.tiles[y1][x0]
            == Tile::Wall || self.tiles[y1][x1] == Tile::Wall
    }

    /// Whether an entity of the given radius may spawn round the tile
    /// `(tx, ty)`: no tile of the map within its reach is a wall.
    #[verifier::loop_isolation(false)]
    pub fn spawn_fits(&self, tx: usize, ty: usize, radius: u32) -> (b: bool)
        requires
            self.wf(),
            tx < self.width,
            ty < self.height,
        ensures
            b == self.spawn_clear(tx as int, ty as int, radius),
    {
        let k: usize = ((radius as u64 + 999) / 1000) as usize;
        assert(k == reach(radius));
        let min_x: usize = if tx >= k {
            tx - k
        } else {
            0
        };
        let min_y: usize = if ty >= k {
            ty - k
        } else {
            0
        };
        let max_x: usize = if self.width - 1 - tx > k {
            tx + k
        } else {
            self.width - 1
        };
        let max_y: usize = if self.height - 1 - ty > k {
            ty + k
        } else {
            self.height - 1
        };
        let mut y: usize = min_y;
        while y <= max_y
            invariant
                self.wf(),
                min_y <= y <= max_y + 1,
                max_y < self.height,
                min_x <= max_x < self.width,
                forall|i: int, j: int|
                    min_x <= i <= max_x && min_y <= j < y ==> self.tile(i, j) == Tile::Empty,
            decreases max_y + 1 - y,
        {
            let mut x: usize = min_x;
            while x <= max_x
                invariant
                    self.wf(),
                    min_y <= y <= max_y,
                    max_y < self.height,
                    min_x <= x <= max_x + 1,
                    max_x < self.width,
                    forall|i: int, j: int|
                        min_x <= i <= max_x && min_y <= j < y ==> self.tile(i, j) == Tile::Empty,
                    forall|i: int| min_x <= i < x ==> self.tile(i, y as int) == Tile::Empty,
                decreases max_x + 1 - x,
            {
                assert(self@[y as int] == self.tiles@[y as int]@);
                if self.tiles[y][x] != Tile::Empty {
                    assert(self.tile(x as int, y as int) != Tile::Empty);
                    return false;
                }
                x += 1;
            }
            y += 1;
        }
        true
    }

    /// The position of the corner of the tile `(tx, ty)`.
    fn corner_of(&self, tx: usize, ty: usize) -> (p: (i32, i32))
        requires
            self.wf(),
            tx < self.width,
            ty < self.height,
        ensures
            p.0 == tx * UNIT,
            p.1 == ty * UNIT,
    {
        ((tx as i64 * 1000) as i32, (ty as i64 * 1000) as i32)
    }

    /// The first tile, row by row, round which an entity of the given
    /// radius may spawn, as a position.
    pub fn first_spawn_position(&self, radius: u32) -> (r: Option<(i32, i32)>)
        requires
            self.wf(),
        ensures
            r is Some <==> self.has_spawn_position(radius),
            r matches Some((x, y)) ==> exists|tx: int, ty: int|
                {
                    &&& 0 <= tx < self.width && 0 <= ty < self.height
                    &&& x == tx * UNIT && y == ty * UNIT
                    &&& self.spawn_clear(tx, ty, radius)
                    &&& forall|ox: int, oy: int|
                        0 <= ox < self.width && 0 <= oy < self.height && (oy < ty || (oy == ty
                            && ox < tx)) ==> !self.spawn_clear(ox, oy, radius)
                },
    {
        let mut ty: usize = 0;
        while ty < self.height
            invariant
                self.wf(),
                ty <= self.height,
                forall|ox: int, oy: int|
                    0 <= ox < self.width && 0 <= oy < ty ==> !self.spawn_clear(ox, oy, radius),
            decreases self.height - ty,
        {
            let mut tx: usize = 0;
            while tx < self.width
                invariant
                    self.wf(),
                    ty < self.height,
                    tx <= self.width,
                    forall|ox: int, oy: int|
                        0 <= ox < self.width && 0 <= oy < ty ==> !self.spawn_clear(ox, oy, radius),
                    forall|ox: int| 0 <= ox < tx ==> !self.spawn_clear(ox, ty as int, radius),
                decreases self.width - tx,
            {
                if self.spawn_fits(tx, ty, radius) {
                    return Some(self.corner_of(tx, ty));
                }
                tx += 1;
            }
            ty += 1;
        }
        None
    }

    /// A position, chosen at random among the corners of the tiles, round
    /// which an entity of the given radius may spawn: no tile of the map
    /// within its reach is a wall. There is none only where no tile of the
    /// map will do. After `SPAWN_TRIES` random tiles that do not fit, the
    /// first tile that fits is taken.
    pub fn generate_spawn_position(&self, radius: u32) -> (r: Option<(i32, i32)>)
        requires
            self.wf(),
        ensures
            r is Some <==> self.has_spawn_position(radius),
            r matches Some((x, y)) ==> self.is_spawn_position(x as int, y as int, radius),
    {
        if self.width > 0 && self.height > 0 {
            let mut rng = rand::thread_rng();
            let mut tries: u32 = 0;
            while tries < SPAWN_TRIES
                invariant
                    self.wf(),
                    self.width > 0,
                    self.height > 0,
                decreases SPAWN_TRIES - tries,
            {
                let tx = gen_range(&mut rng, 0, self.width);
                let ty = gen_range(&mut rng, 0, self.height);
                if self.spawn_fits(tx, ty, radius) {
                    return Some(self.corner_of(tx, ty));
                }
                tries += 1;
            }
        }
        self.first_spawn_position(radius)
    }
}

/// Puts a tile at column `x` of row `y`.
fn set_tile(tiles: &mut Vec<Vec<Tile>>, x: usize, y: usize, tile: Tile)
    requires
        y < old(tiles)@.len(),
        x < old(tiles)@[y as int]@.len(),
    ensures
        grid_view(final(tiles)@) == grid_view(old(tiles)@).update(
            y as int,
            grid_view(old(tiles)@)[y as int].update(x as int, tile),
        ),
{
    tiles[y][x] = tile;
    assert(grid_view(tiles@) =~= grid_view(old(tiles)@).update(
        y as int,
        grid_view(old(tiles)@)[y as int].update(x as int, tile),
    ));
}

/// Whether the tile `(x, y)` lies within `max_radius` tiles of `(cx, cy)`,
/// as the crow flies.
pub open spec fn within_radius(x: int, y: int, cx: int, cy: int, max_radius: int) -> bool {
    (x - cx) * (x - cx) + (y - cy) * (y - cy) <= max_radius * max_radius
}

/// Whether the tile `(x, y)` lies within `max_radius` tiles of `(cx, cy)`.
pub fn in_radius(x: usize, y: usize, cx: usize, cy: usize, max_radius: usize) -> (b: bool)
    ensures
        b == within_radius(x as int, y as int, cx as int, cy as int, max_radius as int),
{
    let dx: usize = if x >= cx {
        x - cx
    } else {
        cx - x
    };
    let dy: usize = if y >= cy {
        y - cy
    } else {
        cy - y
    };
    assert(dx * dx == (x - cx) * (x - cx) && dy * dy == (y - cy) * (y - cy)) by (nonlinear_arith)
        requires
            dx == x - cx || dx == cx - x,
            dy == y - cy || dy == cy - y,
    ;
    if dx > max_radius || dy > max_radius {
        assert(dx * dx + dy * dy > max_radius * max_radius) by (nonlinear_arith)
            requires
                dx > max_radius || dy > max_radius,
                dx >= 0,
                dy >= 0,
                max_radius >= 0,
        ;
        return false;
    }
    assert(dx * dx <= max_radius * max_radius && dy * dy <= max_radius * max_radius
        && max_radius * max_radius <= 0xffff_ffff_ffff_ffff * 0xffff_ffff_ffff_ffff)
        by (nonlinear_arith)
        requires
            0 <= dx <= max_radius,
            0 <= dy <= max_radius,
            max_radius <= 0xffff_ffff_ffff_ffff,
    ;
    let across: u128 = dx as u128 * dx as u128;
    let down: u128 = dy as u128 * dy as u128;
    match across.checked_add(down) {
        Some(near) => near <= max_radius as u128 * max_radius as u128,
        None => false,
    }
}

/// Whether two tiles touch, side by side or corner to corner.
pub open spec fn adjacent(a: (int, int), b: (int, int)) -> bool {
    a != b && -1 <= a.0 - b.0 <= 1 && -1 <= a.1 - b.1 <= 1
}

/// Whether a tile touches one of the tiles of a list.
pub open spec fn touches_one(tile: (int, int), tiles: Seq<(int, int)>) -> bool {
    exists|j: int| 0 <= j < tiles.len() && adjacent(tile, #[trigger] tiles[j])
}

/// Whether `order` is a way in which a blob may have grown from a centre:
/// the centre comes first, every tile after it touches one before it, and
/// no tile comes twice.
pub open spec fn grows_from(order: Seq<(int, int)>, centre: (int, int)) -> bool {
    &&& order.no_duplicates()
    &&& order.len() > 0 ==> order[0] == centre
    &&& forall|k: int| 0 < k < order.len() ==> touches_one(#[trigger] order[k], order.take(k))
}

/// A tile of the queue as a pair of numbers.
pub open spec fn as_tile(entry: (usize, usize)) -> (int, int) {
    (entry.0 as int, entry.1 as int)
}

/// The queue `after` is the queue `before` with at most `k` tiles more at
/// its end, each of them next to the tile `from` and within `max_radius` of
/// `(cx, cy)`.
pub open spec fn grown_by(
    before: Seq<(usize, usize)>,
    after: Seq<(usize, usize)>,
    k: int,
    from: (int, int),
    cx: int,
    cy: int,
    max_radius: int,
) -> bool {
    &&& before.len() <= after.len() <= before.len() + k
    &&& forall|i: int| 0 <= i < before.len() ==> #[trigger] after[i] == before[i]
    &&& forall|i: int|
        before.len() <= i < after.len() ==> adjacent(as_tile(#[trigger] after[i]), from)
            && within_radius(after[i].0 as int, after[i].1 as int, cx, cy, max_radius)
}

/// Whether the neighbour of `(x, y)` at `(dx, dy)` may join the queue of a
/// blob: it lies on the grid and within `max_radius` of `(cx, cy)`.
pub open spec fn neighbour_admitted(
    x: int,
    y: int,
    dx: int,
    dy: int,
    width: int,
    height: int,
    cx: int,
    cy: int,
    max_radius: int,
) -> bool {
    0 <= x + dx < width && 0 <= y + dy < height && within_radius(
        x + dx,
        y + dy,
        cx,
        cy,
        max_radius,
    )
}

/// The queue after the neighbour of `(x, y)` at `(dx, dy)` was offered to
/// it: the neighbour stands last where the chance chose it and it may join;
/// else the queue is as it was.
pub open spec fn offered(
    queue: Seq<(usize, usize)>,
    x: int,
    y: int,
    dx: int,
    dy: int,
    width: int,
    height: int,
    cx: int,
    cy: int,
    max_radius: int,
    chosen: bool,
) -> Seq<(usize, usize)> {
    if chosen && neighbour_admitted(x, y, dx, dy, width, height, cx, cy, max_radius) {
        queue.push(((x + dx) as usize, (y + dy) as usize))
    } else {
        queue
    }
}

/// Where the eight neighbours of a tile lie, in the order in which they
/// are offered: right, left, below, above, then the four corners.
pub open spec fn neighbour_offset(i: int) -> (int, int) {
    if i == 0 {
        (1, 0)
    } else if i == 1 {
        (-1, 0)
    } else if i == 2 {
        (0, 1)
    } else if i == 3 {
        (0, -1)
    } else if i == 4 {
        (1, 1)
    } else if i == 5 {
        (-1, -1)
    } else if i == 6 {
        (1, -1)
    } else {
        (-1, 1)
    }
}

/// The queue after the first `k` neighbours of `(x, y)` were offered to it,
/// the neighbour `i` with the chance `chosen[i]`.
pub open spec fn offered_upto(
    queue: Seq<(usize, usize)>,
    x: int,
    y: int,
    width: int,
    height: int,
    cx: int,
    cy: int,
    max_radius: int,
    chosen: Seq<bool>,
    k: nat,
) -> Seq<(usize, usize)>
    decreases k,
{
    if k == 0 {
        queue
    } else {
        offered(
            offered_upto(queue, x, y, width, height, cx, cy, max_radius, chosen, (k - 1) as nat),
            x,
            y,
            neighbour_offset(k - 1).0,
            neighbour_offset(k - 1).1,
            width,
            height,
            cx,
            cy,
            max_radius,
            chosen[k - 1],
        )
    }
}

/// The number next to `v` at `d`, where it is below `limit`.
fn shifted(v: usize, d: i64, limit: usize) -> (r: Option<usize>)
    requires
        v < limit,
        -1 <= d <= 1,
    ensures
        r is Some <==> 0 <= v + d < limit,
        r matches Some(n) ==> n == v + d,
{
    if d < 0 {
        if v == 0 {
            None
        } else {
            Some(v - 1)
        }
    } else if d == 0 {
        Some(v)
    } else if v + 1 < limit {
        Some(v + 1)
    } else {
        None
    }
}

/// Offers the neighbour of `(x, y)` at `(dx, dy)` to the queue of a blob,
/// given what the chance said: the neighbour joins the queue where the
/// chance chose it and it lies on the grid and within the radius of the
/// blob.
pub fn offer_neighbour(
    queue: &mut VecDeque<(usize, usize)>,
    x: usize,
    y: usize,
    dx: i64,
    dy: i64,
    width: usize,
    height: usize,
    cx: usize,
    cy: usize,
    max_radius: usize,
    chosen: bool,
)
    requires
        x < width,
        y < height,
        -1 <= dx <= 1,
        -1 <= dy <= 1,
    ensures
        final(queue)@ == offered(
            old(queue)@,
            x as int,
            y as int,
            dx as int,
            dy as int,
            width as int,
            height as int,
            cx as int,
            cy as int,
            max_radius as int,
            chosen,
        ),
{
    if chosen {
        if let Some(nx) = shifted(x, dx, width) {
            if let Some(ny) = shifted(y, dy, height) {
                if in_radius(nx, ny, cx, cy, max_radius) {
                    queue.push_back((nx, ny));
                }
            }
        }
    }
}

/// A neighbour that was offered leaves the queue as it was or stands last
/// in it, next to the tile that it is a neighbour of and within the radius.
proof fn lemma_offered_grows(
    queue: Seq<(usize, usize)>,
    x: int,
    y: int,
    dx: int,
    dy: int,
    width: int,
    height: int,
    cx: int,
    cy: int,
    max_radius: int,
    chosen: bool,
)
    requires
        0 <= x < width <= usize::MAX,
        0 <= y < height <= usize::MAX,
        -1 <= dx <= 1,
        -1 <= dy <= 1,
        dx != 0 || dy != 0,
    ensures
        grown_by(
            queue,
            offered(queue, x, y, dx, dy, width, height, cx, cy, max_radius, chosen),
            1,
            (x, y),
            cx,
            cy,
            max_radius,
        ),
{
}

/// The neighbour of `(x, y)` at `(dx, dy)`: with three chances in five it
/// joins the queue, where it lies on the grid and within the radius of the
/// blob.
fn try_neighbour(
    queue: &mut VecDeque<(usize, usize)>,
    x: usize,
    y: usize,
    dx: i64,
    dy: i64,
    width: usize,
    height: usize,
    cx: usize,
    cy: usize,
    max_radius: usize,
    rng: &mut rand::rngs::ThreadRng,
)
    requires
        x < width,
        y < height,
        -1 <= dx <= 1,
        -1 <= dy <= 1,
        dx != 0 || dy != 0,
    ensures
        exists|chosen: bool|
            final(queue)@ == #[trigger] offered(
                old(queue)@,
                x as int,
                y as int,
                dx as int,
                dy as int,
                width as int,
                height as int,
                cx as int,
                cy as int,
                max_radius as int,
                chosen,
            ),
        !neighbour_admitted(
            x as int,
            y as int,
            dx as int,
            dy as int,
            width as int,
            height as int,
            cx as int,
            cy as int,
            max_radius as int,
        ) ==> final(queue)@ == old(queue)@,
        grown_by(
            old(queue)@,
            final(queue)@,
            1,
            (x as int, y as int),
            cx as int,
            cy as int,
            max_radius as int,
        ),
{
    let chosen = crate::rng::gen_ratio(rng, 3, 5);
    offer_neighbour(queue, x, y, dx, dy, width, height, cx, cy, max_radius, chosen);
    proof {
        lemma_offered_grows(
            old(queue)@,
            x as int,
            y as int,
            dx as int,
            dy as int,
            width as int,
            height as int,
            cx as int,
            cy as int,
            max_radius as int,
            chosen,
        );
    }
}

/// The eight neighbours of `(x, y)`, each with its own chance, in the
/// order of [`neighbour_offset`].
fn try_neighbours(
    queue: &mut VecDeque<(usize, usize)>,
    x: usize,
    y: usize,
    width: usize,
    height: usize,
    cx: usize,
    cy: usize,
    max_radius: usize,
    rng: &mut rand::rngs::ThreadRng,
)
    requires
        x < width,
        y < height,
    ensures
        exists|chosen: Seq<bool>|
            chosen.len() == 8 && final(queue)@ == #[trigger] offered_upto(
                old(queue)@,
                x as int,
                y as int,
                width as int,
                height as int,
                cx as int,
                cy as int,
                max_radius as int,
                chosen,
                8,
            ),
        grown_by(
            old(queue)@,
            final(queue)@,
            8,
            (x as int, y as int),
            cx as int,
            cy as int,
            max_radius as int,
        ),
{
    let ghost from = (x as int, y as int);
    let ghost (xi, yi, w, h) = (x as int, y as int, width as int, height as int);
    let ghost (cxi, cyi, r) = (cx as int, cy as int, max_radius as int);
    let ghost q0 = queue@;
    try_neighbour(queue, x, y, 1, 0, width, height, cx, cy, max_radius, rng);
    let ghost q1 = queue@;
    try_neighbour(queue, x, y, -1, 0, width, height, cx, cy, max_radius, rng);
    let ghost q2 = queue@;
    assert(grown_by(old(queue)@, queue@, 2, from, cx as int, cy as int, max_radius as int));
    try_neighbour(queue, x, y, 0, 1, width, height, cx, cy, max_radius, rng);
    let ghost q3 = queue@;
    assert(grown_by(old(queue)@, queue@, 3, from, cx as int, cy as int, max_radius as int));
    try_neighbour(queue, x, y, 0, -1, width, height, cx, cy, max_radius, rng);
    let ghost q4 = queue@;
    assert(grown_by(old(queue)@, queue@, 4, from, cx as int, cy as int, max_radius as int));
    try_neighbour(queue, x, y, 1, 1, width, height, cx, cy, max_radius, rng);
    let ghost q5 = queue@;
    assert(grown_by(old(queue)@, queue@, 5, from, cx as int, cy as int, max_radius as int));
    try_neighbour(queue, x, y, -1, -1, width, height, cx, cy, max_radius, rng);
    let ghost q6 = queue@;
    assert(grown_by(old(queue)@, queue@, 6, from, cx as int, cy as int, max_radius as int));
    try_neighbour(queue, x, y, 1, -1, width, height, cx, cy, max_radius, rng);
    let ghost q7 = queue@;
    assert(grown_by(old(queue)@, queue@, 7, from, cx as int, cy as int, max_radius as int));
    try_neighbour(queue, x, y, -1, 1, width, height, cx, cy, max_radius, rng);
    proof {
        let q8 = queue@;
        let c0 = choose|c: bool| q1 == #[trigger] offered(q0, xi, yi, 1, 0, w, h, cxi, cyi, r, c);
        let c1 = choose|c: bool| q2 == #[trigger] offered(q1, xi, yi, -1, 0, w, h, cxi, cyi, r, c);
        let c2 = choose|c: bool| q3 == #[trigger] offered(q2, xi, yi, 0, 1, w, h, cxi, cyi, r, c);
        let c3 = choose|c: bool| q4 == #[trigger] offered(q3, xi, yi, 0, -1, w, h, cxi, cyi, r, c);
        let c4 = choose|c: bool| q5 == #[trigger] offered(q4, xi, yi, 1, 1, w, h, cxi, cyi, r, c);
        let c5 = choose|c: bool| q6 == #[trigger] offered(q5, xi, yi, -1, -1, w, h, cxi, cyi, r, c);
        let c6 = choose|c: bool| q7 == #[trigger] offered(q6, xi, yi, 1, -1, w, h, cxi, cyi, r, c);
        let c7 = choose|c: bool| q8 == #[trigger] offered(q7, xi, yi, -1, 1, w, h, cxi, cyi, r, c);
        let chosen = seq![c0, c1, c2, c3, c4, c5, c6, c7];
        assert(offered_upto(q0, xi, yi, w, h, cxi, cyi, r, chosen, 0) == q0);
        assert(offered_upto(q0, xi, yi, w, h, cxi, cyi, r, chosen, 1) == q1);
        assert(offered_upto(q0, xi, yi, w, h, cxi, cyi, r, chosen, 2) == q2);
        assert(offered_upto(q0, xi, yi, w, h, cxi, cyi, r, chosen, 3) == q3);
        assert(offered_upto(q0, xi, yi, w, h, cxi, cyi, r, chosen, 4) == q4);
        assert(offered_upto(q0, xi, yi, w, h, cxi, cyi, r, chosen, 5) == q5);
        assert(offered_upto(q0, xi, yi, w, h, cxi, cyi, r, chosen, 6) == q6);
        assert(offered_upto(q0, xi, yi, w, h, cxi, cyi, r, chosen, 7) == q7);
        assert(offered_upto(q0, xi, yi, w, h, cxi, cyi, r, chosen, 8) == q8);
    }
}

/// The tiles that are walls in `after` and were empty in `before`.
pub open spec fn added_walls(before: Seq<Seq<Tile>>, after: Seq<Seq<Tile>>) -> Set<(int, int)> {
    Set::new(
        |at: (int, int)|
            0 <= at.1 < before.len() && 0 <= at.0 < before[at.1].len() && before[at.1][at.0]
                == Tile::Empty && after[at.1][at.0] == Tile::Wall,
    )
}

/// What growing a blob from the centre `(cx, cy)` may make of a grid,
/// whatever the chances give: the grid keeps its shape and its walls; at
/// most `target_size` tiles have become wall; each of them lies within
/// `max_radius` of the centre; they hang together, in that they can be put
/// in an order that starts with the centre and in which every tile touches
/// one before it; and the centre is a wall, where it lies on the grid and
/// the blob may have a tile at all.
pub open spec fn blob_grown(
    before: Seq<Seq<Tile>>,
    after: Seq<Seq<Tile>>,
    cx: int,
    cy: int,
    target_size: int,
    max_radius: int,
) -> bool {
    &&& after.len() == before.len()
    &&& forall|y: int| 0 <= y < before.len() ==> (#[trigger] after[y]).len() == before[y].len()
    &&& forall|x: int, y: int|
        0 <= y < before.len() && 0 <= x < before[y].len() && before[y][x] == Tile::Wall
            ==> after[y][x] == Tile::Wall
    &&& forall|x: int, y: int|
        0 <= y < before.len() && 0 <= x < before[y].len() && before[y][x] == Tile::Empty
            && after[y][x] == Tile::Wall ==> within_radius(x, y, cx, cy, max_radius)
    &&& added_walls(before, after).finite()
    &&& added_walls(before, after).len() <= target_size
    &&& exists|order: Seq<(int, int)>|
        #![trigger grows_from(order, (cx, cy))]
        grows_from(order, (cx, cy)) && order.to_set() == added_walls(before, after)
    &&& target_size >= 1 && 0 <= cy < before.len() && 0 <= cx < before[cy].len()
        ==> after[cy][cx] == Tile::Wall
}

/// Grows one blob of wall from the tile `(cx, cy)`: the tiles are taken
/// from a queue that starts with the centre; a tile that is still empty
/// becomes a wall, and each of its eight neighbours joins the queue with
/// three chances in five, where it lies within `max_radius` of the centre.
/// It ends when the queue is empty or `target_size` tiles have become wall.
pub fn grow_wall_blob(
    tiles: &mut Vec<Vec<Tile>>,
    cx: usize,
    cy: usize,
    target_size: usize,
    max_radius: usize,
    rng: &mut rand::rngs::ThreadRng,
)
    requires
        old(tiles)@.len() >= 1,
        is_grid(grid_view(old(tiles)@), old(tiles)@[0]@.len(), old(tiles)@.len()),
    ensures
        is_grid(grid_view(final(tiles)@), old(tiles)@[0]@.len(), old(tiles)@.len()),
        blob_grown(
            grid_view(old(tiles)@),
            grid_view(final(tiles)@),
            cx as int,
            cy as int,
            target_size as int,
            max_radius as int,
        ),
{
    let height = tiles.len();
    let width = tiles[0].len();
    let ghost before = grid_view(tiles@);
    let ghost mut added: Set<(int, int)> = Set::empty();
    let ghost mut order: Seq<(int, int)> = Seq::empty();
    let ghost mut popped: nat = 0;
    let ghost centre = (cx as int, cy as int);
    assert(added =~= added_walls(before, before));
    assert(order.to_set() =~= added);
    assert(before[0] == tiles@[0]@);
    let mut queue: VecDeque<(usize, usize)> = VecDeque::new();
    queue.push_back((cx, cy));
    let mut count: usize = 0;
    assert(within_radius(cx as int, cy as int, cx as int, cy as int, max_radius as int))
        by (nonlinear_arith);
    while count < target_size && queue.len() > 0
        invariant
            is_grid(before, width as nat, height as nat),
            is_grid(grid_view(tiles@), width as nat, height as nat),
            popped + queue@.len() <= 1 + 8 * count,
            count <= target_size,
            added.finite(),
            added.len() == count,
            added == added_walls(before, grid_view(tiles@)),
            centre == (cx as int, cy as int),
            grows_from(order, centre),
            order.len() == count,
            order.to_set() == added,
            popped == 0 ==> count == 0 && queue@ =~= seq![(cx, cy)],
            popped > 0 && cx < width && cy < height ==> grid_view(tiles@)[cy as int][cx as int]
                == Tile::Wall,
            popped > 0 ==> forall|i: int|
                0 <= i < queue@.len() ==> touches_one(as_tile(#[trigger] queue@[i]), order),
            forall|i: int|
                0 <= i < queue@.len() ==> within_radius(
                    (#[trigger] queue@[i]).0 as int,
                    queue@[i].1 as int,
                    cx as int,
                    cy as int,
                    max_radius as int,
                ),
            forall|x: int, y: int|
                0 <= y < height && 0 <= x < width && before[y][x] == Tile::Wall ==> grid_view(
                    tiles@,
                )[y][x] == Tile::Wall,
            forall|x: int, y: int|
                0 <= y < height && 0 <= x < width && before[y][x] == Tile::Empty && grid_view(
                    tiles@,
                )[y][x] == Tile::Wall ==> within_radius(
                    x,
                    y,
                    cx as int,
                    cy as int,
                    max_radius as int,
                ),
        decreases 1 + 8 * target_size - popped,
    {
        let ghost waiting_before = queue@;
        let ghost first = popped == 0;
        if let Some((x, y)) = queue.pop_front() {
            proof {
                popped = popped + 1;
                assert forall|i: int| 0 <= i < queue@.len() implies #[trigger] queue@[i]
                    == waiting_before[i + 1] by {}
                if !first {
                    assert(touches_one(as_tile(waiting_before[0]), order));
                    assert forall|i: int| 0 <= i < queue@.len() implies touches_one(
                        as_tile(#[trigger] queue@[i]),
                        order,
                    ) by {
                        assert(queue@[i] == waiting_before[i + 1]);
                    }
                }
            }
            if x < width && y < height {
                assert(grid_view(tiles@)[y as int] == tiles@[y as int]@);
                if tiles[y][x] == Tile::Empty {
                    let ghost grid = grid_view(tiles@);
                    set_tile(tiles, x, y, Tile::Wall);
                    count += 1;
                    assert(is_grid(grid_view(tiles@), width as nat, height as nat));
                    assert forall|i: int, j: int|
                        0 <= j < height && 0 <= i < width implies grid_view(tiles@)[j][i] == (if i
                        == x && j == y {
                        Tile::Wall
                    } else {
                        grid[j][i]
                    }) by {}
                    proof {
                        let tile = (x as int, y as int);
                        assert(!added.contains(tile));
                        vstd::set::axiom_set_insert_len(added, tile);
                        vstd::set::axiom_set_insert_finite(added, tile);
                        added = added.insert(tile);
                        assert(added =~= added_walls(before, grid_view(tiles@)));
                        lemma_blob_grows(order, centre, tile);
                        order = order.push(tile);
                    }
                    let ghost waiting = queue@;
                    try_neighbours(&mut queue, x, y, width, height, cx, cy, max_radius, rng);
                    proof {
                        assert forall|i: int| 0 <= i < queue@.len() implies touches_one(
                            as_tile(#[trigger] queue@[i]),
                            order,
                        ) by {
                            if i < waiting.len() {
                                assert(queue@[i] == waiting[i]);
                                assert(touches_one(as_tile(waiting[i]), order.drop_last()));
                                let j = choose|j: int|
                                    0 <= j < order.len() - 1 && adjacent(
                                        as_tile(waiting[i]),
                                        #[trigger] order.drop_last()[j],
                                    );
                                assert(order[j] == order.drop_last()[j]);
                            } else {
                                assert(order[order.len() - 1] == (x as int, y as int));
                            }
                        }
                    }
                }
            }
        }
    }
    proof {
        let after = grid_view(tiles@);
        assert forall|y: int| 0 <= y < before.len() implies (#[trigger] after[y]).len()
            == before[y].len() by {}
        assert(grows_from(order, (cx as int, cy as int)) && order.to_set() == added_walls(
            before,
            after,
        ));
    }
}

/// One tile more for a blob: the centre for a blob that has no tile yet,
/// else a tile that touches the blob and is not part of it.
proof fn lemma_blob_grows(order: Seq<(int, int)>, centre: (int, int), tile: (int, int))
    requires
        grows_from(order, centre),
        !order.to_set().contains(tile),
        order.len() == 0 ==> tile == centre,
        order.len() > 0 ==> touches_one(tile, order),
    ensures
        grows_from(order.push(tile), centre),
        order.push(tile).to_set() == order.to_set().insert(tile),
        order.push(tile).drop_last() == order,
{
    let more = order.push(tile);
    assert(more.drop_last() =~= order);
    assert forall|i: int, j: int| 0 <= i < more.len() && 0 <= j < more.len() && i != j implies more[i]
        != more[j] by {
        if i < order.len() && j < order.len() {
            assert(order[i] != order[j]);
        } else if i < order.len() {
            assert(order.to_set().contains(order[i]));
        } else {
            assert(order.to_set().contains(order[j]));
        }
    }
    assert forall|k: int| 0 < k < more.len() implies touches_one(
        #[trigger] more[k],
        more.take(k),
    ) by {
        if k < order.len() {
            assert(more.take(k) =~= order.take(k));
            assert(more[k] == order[k]);
        } else {
            assert(more.take(k) =~= order);
        }
    }
    assert forall|t: (int, int)| more.to_set().contains(t) <==> order.to_set().insert(
        tile,
    ).contains(t) by {
        if more.to_set().contains(t) {
            let i = choose|i: int| 0 <= i < more.len() && more[i] == t;
            if i < order.len() {
                assert(order[i] == t);
            }
        }
        if order.to_set().contains(t) {
            let i = choose|i: int| 0 <= i < order.len() && order[i] == t;
            assert(more[i] == t);
        }
        if t == tile {
            assert(more[order.len() as int] == t);
        }
    }
    assert(more.to_set() =~= order.to_set().insert(tile));
}

/// Number of wall tiles among the four tiles next to `(x, y)`.
pub open spec fn wall_neighbours(g: Seq<Seq<Tile>>, x: int, y: int) -> int {
    (if g[y - 1][x] == Tile::Wall {
        1int
    } else {
        0
    }) + (if g[y + 1][x] == Tile::Wall {
        1int
    } else {
        0
    }) + (if g[y][x - 1] == Tile::Wall {
        1int
    } else {
        0
    }) + (if g[y][x + 1] == Tile::Wall {
        1int
    } else {
        0
    })
}

/// The grid after the tile `(x, y)` was looked at: a wall with fewer than
/// two walls next to it is taken away.
pub open spec fn erode_tile(g: Seq<Seq<Tile>>, x: int, y: int) -> Seq<Seq<Tile>> {
    if g[y][x] == Tile::Wall && wall_neighbours(g, x, y) < 2 {
        g.update(y, g[y].update(x, Tile::Empty))
    } else {
        g
    }
}

/// The grid after the first `n` inner tiles, row by row, were looked at one
/// after the other, each seeing what the ones before it left.
pub open spec fn eroded_upto(g: Seq<Seq<Tile>>, width: int, n: nat) -> Seq<Seq<Tile>>
    decreases n,
{
    if n == 0 || width < 3 {
        g
    } else {
        erode_tile(
            eroded_upto(g, width, (n - 1) as nat),
            1 + (n - 1) % (width - 2),
            1 + (n - 1) / (width - 2),
        )
    }
}

/// The grid after one pass over its inner tiles. The tiles on the border
/// stay as they are.
pub open spec fn eroded(g: Seq<Seq<Tile>>, width: int, height: int) -> Seq<Seq<Tile>> {
    if width < 3 || height < 3 {
        g
    } else {
        eroded_upto(g, width, ((width - 2) * (height - 2)) as nat)
    }
}

/// One pass over the inner tiles of the grid, row by row: a wall with fewer
/// than two walls next to it, above, below, left and right, is taken away.
pub fn erode(tiles: &mut Vec<Vec<Tile>>, width: usize, height: usize)
    requires
        is_grid(grid_view(old(tiles)@), width as nat, height as nat),
    ensures
        is_grid(grid_view(final(tiles)@), width as nat, height as nat),
        grid_view(final(tiles)@) == eroded(grid_view(old(tiles)@), width as int, height as int),
{
    if width < 3 || height < 3 {
        return ;
    }
    let ghost before = grid_view(tiles@);
    let ghost inner = width - 2;
    let mut y: usize = 1;
    assert((y - 1) * inner == 0) by (nonlinear_arith)
        requires
            y == 1,
    ;
    assert(eroded_upto(before, width as int, 0) == before);
    while y < height - 1
        invariant
            3 <= width,
            3 <= height,
            inner == width - 2,
            1 <= y <= height - 1,
            is_grid(grid_view(tiles@), width as nat, height as nat),
            grid_view(tiles@) == eroded_upto(before, width as int, ((y - 1) * inner) as nat),
        decreases height - y,
    {
        let mut x: usize = 1;
        assert((y - 1) * inner + 0 == (y - 1) * inner);
        while x < width - 1
            invariant
                3 <= width,
                3 <= height,
                inner == width - 2,
                1 <= y < height - 1,
                1 <= x <= width - 1,
                is_grid(grid_view(tiles@), width as nat, height as nat),
                grid_view(tiles@) == eroded_upto(
                    before,
                    width as int,
                    ((y - 1) * inner + (x - 1)) as nat,
                ),
            decreases width - x,
        {
            let ghost grid = grid_view(tiles@);
            let ghost n = (y - 1) * inner + (x - 1);
            proof {
                assert(n >= 0 && n % inner == x - 1 && n / inner == y - 1) by (nonlinear_arith)
                    requires
                        n == (y - 1) * inner + (x - 1),
                        0 <= x - 1 < inner,
                        0 <= y - 1,
                ;
                assert(eroded_upto(before, width as int, (n + 1) as nat) == erode_tile(
                    grid,
                    x as int,
                    y as int,
                ));
                assert(grid[y as int] == tiles@[y as int]@);
                assert(grid[y - 1] == tiles@[y - 1]@);
                assert(grid[y + 1] == tiles@[y + 1]@);
            }
            if tiles[y][x] == Tile::Wall {
                let mut walls: u8 = 0;
                if tiles[y - 1][x] == Tile::Wall {
                    walls += 1;
                }
                if tiles[y + 1][x] == Tile::Wall {
                    walls += 1;
                }
                if tiles[y][x - 1] == Tile::Wall {
                    walls += 1;
                }
                if tiles[y][x + 1] == Tile::Wall {
                    walls += 1;
                }
                assert(walls == wall_neighbours(grid, x as int, y as int));
                if walls < 2 {
                    set_tile(tiles, x, y, Tile::Empty);
                }
            }
            assert(grid_view(tiles@) == erode_tile(grid, x as int, y as int));
            assert((y - 1) * inner + (x + 1 - 1) == n + 1);
            x += 1;
        }
        assert((y - 1) * inner + (width - 1 - 1) == (y + 1 - 1) * inner) by (nonlinear_arith)
            requires
                inner == width - 2,
        ;
        y += 1;
    }
    assert((height - 1 - 1) * inner == (width - 2) * (height - 2)) by (nonlinear_arith)
        requires
            inner == width - 2,
    ;
}

/// Number of blobs of wall on a generated map of the given size: the
/// square root of a twentieth of its area, and no fewer than 5 nor more than
/// 100.
pub open spec fn blob_count_spec(width: int, height: int) -> int {
    let root = crate::math::sqrt_floor(width * height / 20);
    if root < 5 {
        5
    } else if root > 100 {
        100
    } else {
        root
    }
}

/// Number of blobs of wall on a generated map of the given size.
pub fn blob_count(width: usize, height: usize) -> (n: usize)
    ensures
        n == blob_count_spec(width as int, height as int),
{
    assert(0 <= width * height <= 0xffff_ffff_ffff_ffff * 0xffff_ffff_ffff_ffff)
        by (nonlinear_arith)
        requires
            0 <= width <= 0xffff_ffff_ffff_ffff,
            0 <= height <= 0xffff_ffff_ffff_ffff,
    ;
    let area: u128 = width as u128 * height as u128;
    let root = crate::math::isqrt(area / 20);
    if root < 5 {
        5
    } else if root > 100 {
        100
    } else {
        root as usize
    }
}

/// A grid without walls.
pub fn blank(width: usize, height: usize) -> (tiles: Vec<Vec<Tile>>)
    ensures
        is_grid(grid_view(tiles@), width as nat, height as nat),
        forall|x: int, y: int|
            0 <= y < height && 0 <= x < width ==> grid_view(tiles@)[y][x] == Tile::Empty,
{
    let mut tiles: Vec<Vec<Tile>> = Vec::new();
    let mut y: usize = 0;
    while y < height
        invariant
            y <= height,
            is_grid(grid_view(tiles@), width as nat, y as nat),
            forall|i: int, j: int|
                0 <= j < y && 0 <= i < width ==> grid_view(tiles@)[j][i] == Tile::Empty,
        decreases height - y,
    {
        let mut row: Vec<Tile> = Vec::new();
        let mut x: usize = 0;
        while x < width
            invariant
                x <= width,
                row@.len() == x,
                forall|i: int| 0 <= i < x ==> row@[i] == Tile::Empty,
            decreases width - x,
        {
            row.push(Tile::Empty);
            x += 1;
        }
        let ghost grid = grid_view(tiles@);
        tiles.push(row);
        assert(grid_view(tiles@) =~= grid.push(row@));
        y += 1;
    }
    tiles
}

/// The wall tiles of a grid.
pub open spec fn wall_tiles(g: Seq<Seq<Tile>>) -> Set<(int, int)> {
    Set::new(
        |at: (int, int)|
            0 <= at.1 < g.len() && 0 <= at.0 < g[at.1].len() && g[at.1][at.0] == Tile::Wall,
    )
}

/// Erosion takes walls away and adds none.
pub proof fn lemma_erosion_adds_no_wall(g: Seq<Seq<Tile>>, width: int, height: int, n: nat)
    requires
        3 <= width,
        3 <= height,
        is_grid(g, width as nat, height as nat),
        n <= (width - 2) * (height - 2),
    ensures
        is_grid(eroded_upto(g, width, n), width as nat, height as nat),
        forall|x: int, y: int|
            0 <= y < height && 0 <= x < width && eroded_upto(g, width, n)[y][x] == Tile::Wall
                ==> g[y][x] == Tile::Wall,
    decreases n,
{
    if n > 0 {
        lemma_erosion_adds_no_wall(g, width, height, (n - 1) as nat);
        let k = n - 1;
        let inner = width - 2;
        assert(0 <= k % inner < inner && 0 <= k / inner < height - 2) by (nonlinear_arith)
            requires
                0 <= k < inner * (height - 2),
                inner >= 1,
        ;
        let before = eroded_upto(g, width, k as nat);
        let after = eroded_upto(g, width, n);
        assert(after == erode_tile(before, 1 + k % inner, 1 + k / inner));
        assert forall|x: int, y: int|
            0 <= y < height && 0 <= x < width && after[y][x] == Tile::Wall implies g[y][x]
            == Tile::Wall by {
            assert(before[y][x] == Tile::Wall);
        }
    }
}

/// No tile of the grid is a wall.
pub open spec fn all_empty(g: Seq<Seq<Tile>>) -> bool {
    forall|x: int, y: int| 0 <= y < g.len() && 0 <= x < g[y].len() ==> g[y][x] == Tile::Empty
}

/// Erosion takes walls away and adds none: a grid without walls stays as
/// it is.
pub proof fn lemma_erosion_of_nothing(g: Seq<Seq<Tile>>, width: int, height: int, n: nat)
    requires
        3 <= width,
        3 <= height,
        is_grid(g, width as nat, height as nat),
        all_empty(g),
        n <= (width - 2) * (height - 2),
    ensures
        eroded_upto(g, width, n) == g,
    decreases n,
{
    if n > 0 {
        lemma_erosion_of_nothing(g, width, height, (n - 1) as nat);
        let k = n - 1;
        let inner = width - 2;
        assert(0 <= k % inner < inner && 0 <= k / inner < height - 2) by (nonlinear_arith)
            requires
                0 <= k < inner * (height - 2),
                inner >= 1,
        ;
        assert(g[1 + k / inner][1 + k % inner] == Tile::Empty);
    }
}

/// The size that no blob on a map of the given size reaches: the shorter
/// side of the map, rounded down to an even number.
pub open spec fn blob_limit(width: int, height: int) -> int {
    if width < height {
        width / 2 * 2
    } else {
        height / 2 * 2
    }
}

/// How far from its centre a blob on a map of the given size may reach: an
/// eighth of the shorter side, and no less than three tiles.
pub open spec fn blob_radius(width: int, height: int) -> int {
    let shorter = if width < height {
        width
    } else {
        height
    };
    if shorter / 8 > 3 {
        shorter / 8
    } else {
        3
    }
}

/// Whether `after` may be the grid `before` with one blob more: a blob
/// grown from an inner tile as its centre, to a size of at least a quarter
/// of [`blob_limit`] and below it, and no farther than [`blob_radius`].
pub open spec fn blob_step(
    before: Seq<Seq<Tile>>,
    after: Seq<Seq<Tile>>,
    width: int,
    height: int,
) -> bool {
    exists|cx: int, cy: int, target_size: int|
        #![trigger blob_grown(before, after, cx, cy, target_size, blob_radius(width, height))]
        {
            &&& 1 <= cx < width - 1
            &&& 1 <= cy < height - 1
            &&& blob_limit(width, height) / 4 <= target_size < blob_limit(width, height)
            &&& blob_grown(before, after, cx, cy, target_size, blob_radius(width, height))
        }
}

/// Whether each grid of the list is the one before it with one blob more.
pub open spec fn blobs_grown(grids: Seq<Seq<Seq<Tile>>>, width: int, height: int) -> bool {
    forall|i: int|
        0 <= i < grids.len() - 1 ==> blob_step(#[trigger] grids[i], grids[i + 1], width, height)
}

/// Whether `map` may be a generated map with `blobs` blobs: a grid without
/// walls on which the blobs were grown one after the other, eroded once.
pub open spec fn generated(map: Seq<Seq<Tile>>, width: int, height: int, blobs: int) -> bool {
    exists|grids: Seq<Seq<Seq<Tile>>>|
        #![trigger blobs_grown(grids, width, height)]
        {
            &&& grids.len() == blobs + 1
            &&& is_grid(grids[0], width as nat, height as nat)
            &&& all_empty(grids[0])
            &&& blobs_grown(grids, width, height)
            &&& map == eroded(grids[blobs], width, height)
        }
}

impl TileMap {
    /// A map of the given size with blobs of wall, as many as
    /// [`blob_count`] says for its size. See [`TileMap::with_blobs`].
    pub fn new(width: usize, height: usize) -> (map: Self)
        requires
            3 <= width <= MAX_MAP_SIDE,
            3 <= height <= MAX_MAP_SIDE,
        ensures
            map.wf(),
            map.width == width,
            map.height == height,
            generated(
                map@,
                width as int,
                height as int,
                blob_count_spec(width as int, height as int),
            ),
            wall_tiles(map@).finite(),
            wall_tiles(map@).len() <= blob_count_spec(width as int, height as int) * blob_limit(
                width as int,
                height as int,
            ),
    {
        TileMap::with_blobs(width, height, blob_count(width, height))
    }

    /// A map of the given size: `blobs` blobs of wall are grown on a grid
    /// without walls, each from a random inner tile, to a random size of a
    /// quarter of the shorter side up to the whole of it, and no farther
    /// from its centre than an eighth of the shorter side, or three tiles,
    /// whichever is more. Then the whole grid is eroded once.
    ///
    /// Whatever the chances give, the map is what one erosion leaves of a
    /// grid on which `blobs` blobs were grown one after the other, each from
    /// an inner tile; the number of its walls is at most `blobs` times the
    /// size that no blob reaches; without blobs it has none.
    pub fn with_blobs(width: usize, height: usize, blobs: usize) -> (map: Self)
        requires
            3 <= width <= MAX_MAP_SIDE,
            3 <= height <= MAX_MAP_SIDE,
        ensures
            map.wf(),
            map.width == width,
            map.height == height,
            generated(map@, width as int, height as int, blobs as int),
            blobs == 0 ==> all_empty(map@),
            wall_tiles(map@).finite(),
            wall_tiles(map@).len() <= blobs * blob_limit(width as int, height as int),
    {
        let mut tiles = blank(width, height);
        assert(wall_tiles(grid_view(tiles@)) =~= Set::<(int, int)>::empty());
        let ghost mut grids: Seq<Seq<Seq<Tile>>> = seq![grid_view(tiles@)];
        let mut rng = rand::thread_rng();
        let shorter = if width < height {
            width
        } else {
            height
        };
        let avg_size = shorter / 2;
        let max_radius = if shorter / 8 > 3 {
            shorter / 8
        } else {
            3
        };
        let mut i: usize = 0;
        while i < blobs
            invariant
                3 <= width <= MAX_MAP_SIDE,
                3 <= height <= MAX_MAP_SIDE,
                1 <= avg_size <= MAX_MAP_SIDE / 2,
                max_radius == blob_radius(width as int, height as int),
                avg_size / 2 == blob_limit(width as int, height as int) / 4,
                grids.len() == i + 1,
                grids[i as int] == grid_view(tiles@),
                is_grid(grids[0], width as nat, height as nat),
                all_empty(grids[0]),
                blobs_grown(grids, width as int, height as int),
                is_grid(grid_view(tiles@), width as nat, height as nat),
                i <= blobs,
                i == 0 ==> all_empty(grid_view(tiles@)),
                avg_size * 2 == blob_limit(width as int, height as int),
                wall_tiles(grid_view(tiles@)).finite(),
                wall_tiles(grid_view(tiles@)).len() <= i * (avg_size * 2),
            decreases blobs - i,
        {
            let cx = gen_range(&mut rng, 1, width - 1);
            let cy = gen_range(&mut rng, 1, height - 1);
            let target_size = gen_range(&mut rng, avg_size / 2, avg_size * 2);
            assert(grid_view(tiles@)[0] == tiles@[0]@);
            let ghost grid = grid_view(tiles@);
            grow_wall_blob(&mut tiles, cx, cy, target_size, max_radius, &mut rng);
            proof {
                let grown = grid_view(tiles@);
                let added = added_walls(grid, grown);
                assert(wall_tiles(grown) =~= wall_tiles(grid).union(added));
                vstd::set_lib::lemma_len_union(wall_tiles(grid), added);
                assert((i + 1) * (avg_size * 2) == i * (avg_size * 2) + avg_size * 2)
                    by (nonlinear_arith);
                let longer = grids.push(grown);
                assert(blob_grown(
                    grid,
                    grown,
                    cx as int,
                    cy as int,
                    target_size as int,
                    blob_radius(width as int, height as int),
                ));
                assert(blob_step(grid, grown, width as int, height as int));
                assert forall|j: int| 0 <= j < longer.len() - 1 implies blob_step(
                    #[trigger] longer[j],
                    longer[j + 1],
                    width as int,
                    height as int,
                ) by {
                    if j < i {
                        assert(longer[j] == grids[j] && longer[j + 1] == grids[j + 1]);
                    }
                }
                grids = longer;
            }
            i += 1;
        }
        let ghost grown = grid_view(tiles@);
        erode(&mut tiles, width, height);
        proof {
            lemma_erosion_adds_no_wall(
                grown,
                width as int,
                height as int,
                ((width - 2) * (height - 2)) as nat,
            );
            assert(wall_tiles(grid_view(tiles@)).subset_of(wall_tiles(grown)));
            vstd::set_lib::lemma_len_subset(wall_tiles(grid_view(tiles@)), wall_tiles(grown));
            assert(i * (avg_size * 2) <= blobs * (avg_size * 2)) by (nonlinear_arith)
                requires
                    i <= blobs,
                    avg_size >= 0,
            ;
            if blobs == 0 {
                lemma_erosion_of_nothing(
                    grown,
                    width as int,
                    height as int,
                    ((width - 2) * (height - 2)) as nat,
                );
            }
            assert(grid_view(tiles@) == eroded(grown, width as int, height as int));
            assert(grids[blobs as int] == grown);
        }
        TileMap { width, height, tiles }
    }
}

impl TileMap {
    /// Cuts an encoded map into chunks of `MAP_CHUNK_SIZE` bytes, the last
    /// one with what is left.
    pub fn chunk_map(encoded: &[u8]) -> (chunks: Vec<MapChunk>)
        requires
            map_chunk_count(encoded@.len()) <= u32::MAX,
        ensures
            chunks_view(chunks@) == map_chunks(encoded@),
    {
        let len = encoded.len();
        let total: u32 = ((len as u64 + MAP_CHUNK_SIZE as u64 - 1) / MAP_CHUNK_SIZE as u64) as u32;
        let mut chunks: Vec<MapChunk> = Vec::new();
        let mut i: u32 = 0;
        let mut start: usize = 0;
        while i < total
            invariant
                len == encoded@.len(),
                total == map_chunk_count(len as nat),
                i <= total,
                start == chunk_start(len as nat, MAP_CHUNK_SIZE as nat, i as int),
                chunks@.len() == i,
                forall|j: int| 0 <= j < i ==> (#[trigger] chunks@[j])@ == map_chunk(encoded@, j),
            decreases total - i,
        {
            proof {
                lemma_chunk_bounds(len as nat, MAP_CHUNK_SIZE as nat, i as int);
                assert((i + 1) * MAP_CHUNK_SIZE == i * MAP_CHUNK_SIZE + MAP_CHUNK_SIZE)
                    by (nonlinear_arith);
            }
            let end: usize = if len - start > MAP_CHUNK_SIZE {
                start + MAP_CHUNK_SIZE
            } else {
                len
            };
            assert(end == chunk_start(len as nat, MAP_CHUNK_SIZE as nat, i + 1));
            let bytes = copy_range(encoded, start, end);
            chunks.push(MapChunk { chunk_index: i, total_chunks: total, bytes });
            start = end;
            i += 1;
        }
        assert(chunks_view(chunks@) =~= map_chunks(encoded@));
        chunks
    }
}

impl TileMap {
    /// Whether the box of the tile `(tx, ty)` is free of walls.
    pub open spec fn centre_free(&self, tx: int, ty: int) -> bool {
        !self.wall_at(tx * UNIT + UNIT / 2, ty * UNIT + UNIT / 2)
    }

    /// Whether `(x, y)` is the centre of a tile of the map whose box is free
    /// of walls.
    pub open spec fn is_free_centre(&self, x: int, y: int) -> bool {
        exists|tx: int, ty: int|
            0 <= tx < self.width && 0 <= ty < self.height && x == tx * UNIT + UNIT / 2 && y == ty
                * UNIT + UNIT / 2 && self.centre_free(tx, ty)
    }

    /// Whether the box of some tile of the map is free of walls.
    pub open spec fn has_free_centre(&self) -> bool {
        exists|tx: int, ty: int|
            0 <= tx < self.width && 0 <= ty < self.height && self.centre_free(tx, ty)
    }

    /// The centre of the tile `(tx, ty)`, where its box is free of walls.
    pub fn free_centre_of(&self, tx: usize, ty: usize) -> (r: Option<(i32, i32)>)
        requires
            self.wf(),
            tx < self.width,
            ty < self.height,
        ensures
            r is Some <==> self.centre_free(tx as int, ty as int),
            r matches Some(at) ==> at.0 == tx * UNIT + UNIT / 2 && at.1 == ty * UNIT + UNIT / 2,
    {
        let x: i64 = tx as i64 * 1000 + 500;
        let y: i64 = ty as i64 * 1000 + 500;
        if self.is_wall(x, y) {
            None
        } else {
            Some((x as i32, y as i32))
        }
    }

    /// The centre of the first tile, row by row, whose box is free of
    /// walls.
    pub fn first_free_centre(&self) -> (r: Option<(i32, i32)>)
        requires
            self.wf(),
        ensures
            r is Some <==> self.has_free_centre(),
            r matches Some(at) ==> self.is_free_centre(at.0 as int, at.1 as int),
    {
        let mut ty: usize = 0;
        while ty < self.height
            invariant
                self.wf(),
                ty <= self.height,
                forall|ox: int, oy: int|
                    0 <= ox < self.width && 0 <= oy < ty ==> !self.centre_free(ox, oy),
            decreases self.height - ty,
        {
            let mut tx: usize = 0;
            while tx < self.width
                invariant
                    self.wf(),
                    ty < self.height,
                    tx <= self.width,
                    forall|ox: int, oy: int|
                        0 <= ox < self.width && 0 <= oy < ty ==> !self.centre_free(ox, oy),
                    forall|ox: int| 0 <= ox < tx ==> !self.centre_free(ox, ty as int),
                decreases self.width - tx,
            {
                let found = self.free_centre_of(tx, ty);
                if found.is_some() {
                    assert(self.centre_free(tx as int, ty as int));
                    return found;
                }
                tx += 1;
            }
            ty += 1;
        }
        None
    }

    /// The centre of a tile whose box is free of walls, chosen at random.
    /// There is none only where the map has no such tile. After
    /// `SPAWN_TRIES` random tiles that are not free, the first free one is
    /// taken.
    pub fn random_free_centre(&self, rng: &mut rand::rngs::ThreadRng) -> (r: Option<(i32, i32)>)
        requires
            self.wf(),
        ensures
            r is Some <==> self.has_free_centre(),
            r matches Some(at) ==> self.is_free_centre(at.0 as int, at.1 as int),
    {
        if self.width > 0 && self.height > 0 {
            let mut tries: u32 = 0;
            while tries < SPAWN_TRIES
                invariant
                    self.wf(),
                    self.width > 0,
                    self.height > 0,
                decreases SPAWN_TRIES - tries,
            {
                let tx = gen_range(rng, 0, self.width);
                let ty = gen_range(rng, 0, self.height);
                let found = self.free_centre_of(tx, ty);
                if found.is_some() {
                    assert(self.centre_free(tx as int, ty as int));
                    return found;
                }
                tries += 1;
            }
        }
        self.first_free_centre()
    }
}

impl TileMap {
    /// Whether `(x, y)` is a tile of the map and no wall.
    pub fn is_walkable(&self, x: usize, y: usize) -> (b: bool)
        requires
            self.wf(),
        ensures
            b == (x < self.width && y < self.height && self.tile(x as int, y as int)
                == Tile::Empty),
    {
        if x >= self.width || y >= self.height {
            return false;
        }
        assert(self@[y as int] == self.tiles@[y as int]@);
        self.tiles[y][x] == Tile::Empty
    }
}

} // verus!
