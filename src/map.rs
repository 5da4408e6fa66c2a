use vstd::arithmetic::div_mod::{
    lemma_fundamental_div_mod, lemma_fundamental_div_mod_converse,
};
use vstd::arithmetic::mul::lemma_mul_is_commutative;
use vstd::math::{max, min};
use vstd::prelude::*;

use crate::random::{coin_flip, random_below, thread_rng};

verus! {

/// An axis-aligned rectangle with half-open bounds: it covers the columns
/// `x1..x2` and the rows `y1..y2`.
#[derive(Debug, Clone, Copy)]
pub struct Rect {
    pub x1: usize,
    pub y1: usize,
    pub x2: usize,
    pub y2: usize,
}

impl Rect {
    /// The floor midpoint of the rectangle.
    pub open spec fn center_spec(&self) -> (int, int) {
        ((self.x1 + self.x2) / 2, (self.y1 + self.y2) / 2)
    }

    /// Two rectangles overlap unless one lies entirely to the left, right, above
    /// or below the other; rectangles that only share an edge do not overlap.
    pub open spec fn overlaps(&self, other: Rect) -> bool {
        !(self.x2 <= other.x1 || self.x1 >= other.x2 || self.y2
            <= other.y1 || self.y1 >= other.y2)
    }

    /// Whether the cell `(x, y)` lies inside the rectangle.
    pub open spec fn contains(&self, x: int, y: int) -> bool {
        self.x1 <= x < self.x2 && self.y1 <= y < self.y2
    }

    /// Whether the rectangle is not empty and lies inside a `width` by `height`
    /// grid with at least one cell of border on every side.
    pub open spec fn fits_in(&self, width: int, height: int) -> bool {
        &&& 1 <= self.x1 < self.x2 < width
        &&& 1 <= self.y1 < self.y2 < height
    }

    /// The rectangle with top-left corner `(x, y)`, `w` columns wide and `h` rows high.
    pub fn new(x: usize, y: usize, w: usize, h: usize) -> (r: Rect)
        requires
            x + w <= usize::MAX,
            y + h <= usize::MAX,
        ensures
            r.x1 == x,
            r.y1 == y,
            r.x2 == x + w,
            r.y2 == y + h,
    {
        Rect { x1: x, y1: y, x2: x + w, y2: y + h }
    }

    /// The floor midpoint `((x1 + x2) / 2, (y1 + y2) / 2)`.
    pub fn center(&self) -> (r: (usize, usize))
        ensures
            r.0 == self.center_spec().0,
            r.1 == self.center_spec().1,
    {
        // halves first, so that the sum of the bounds cannot overflow
        (self.x1 / 2 + self.x2 / 2 + (self.x1 % 2 + self.x2 % 2) / 2, self.y1 / 2 + self.y2 / 2 + (
        self.y1 % 2 + self.y2 % 2) / 2)
    }

    /// Whether the two rectangles overlap; sharing an edge is no overlap.
    pub fn intersects_with(&self, other: &Rect) -> (r: bool)
        ensures
            r == self.overlaps(*other),
    {
        !(self.x2 <= other.x1 || self.x1 >= other.x2 || self.y2 <= other.y1 || self.y1
            >= other.y2)
    }
}


/// How many candidate rooms are drawn when a map is generated.
pub const MAX_ROOMS: usize = 30;

/// The shortest side a room can have.
pub const MIN_SIZE: usize = 5;

/// The longest side a room can have.
pub const MAX_SIZE: usize = 10;

/// The tile of solid rock.
pub const WALL: char = '#';

/// The tile that can be walked on.
pub const FLOOR: char = '.';

/// Whether grid index `i` of a row-major grid `width` columns wide lies on row
/// `y`, between the columns `a` and `b` (both included, in either order).
pub open spec fn on_row(width: int, y: int, a: int, b: int, i: int) -> bool {
    &&& i / width == y
    &&& min(a, b) <= i % width <= max(a, b)
}

/// Whether grid index `i` lies in column `x`, between the rows `a` and `b`
/// (both included, in either order).
pub open spec fn on_column(width: int, x: int, a: int, b: int, i: int) -> bool {
    &&& i % width == x
    &&& min(a, b) <= i / width <= max(a, b)
}

/// Whether grid index `i` lies inside `room`.
pub open spec fn in_room(width: int, room: Rect, i: int) -> bool {
    room.contains(i % width, i / width)
}

/// An index and a pair of coordinates name the same cell exactly when the
/// index is `y * width + x`.
proof fn lemma_index_coords(width: int, i: int, x: int, y: int)
    requires
        width > 0,
        0 <= x < width,
    ensures
        i == y * width + x <==> (i / width == y && i % width == x),
{
    if i == y * width + x {
        lemma_fundamental_div_mod_converse(i, width, y, x);
    }
    if i / width == y && i % width == x {
        lemma_fundamental_div_mod(i, width);
        lemma_mul_is_commutative(width, y);
    }
}

/// A cell of a grid with `rows` full rows has an index inside the grid.
proof fn lemma_index_in_grid(width: int, rows: int, x: int, y: int)
    requires
        0 <= x < width,
        0 <= y < rows,
    ensures
        0 <= y * width + x < rows * width,
{
    assert(0 <= y * width + x < rows * width) by (nonlinear_arith)
        requires
            0 <= x < width,
            0 <= y < rows,
    ;
}

/// Every index of a grid lies on one of its rows, the last of which may be
/// partial; where all rows are full, on one of the full rows.
proof fn lemma_rows(width: int, len: int, i: int)
    requires
        width > 0,
        0 <= i < len,
    ensures
        0 <= i / width <= len / width,
        0 <= i % width < width,
        len % width == 0 ==> i / width < len / width,
{
    lemma_fundamental_div_mod(i, width);
    lemma_fundamental_div_mod(len, width);
    let (q, r) = (i / width, i % width);
    let (n, m) = (len / width, len % width);
    assert(0 <= q) by (nonlinear_arith)
        requires
            i == width * q + r,
            0 <= i,
            0 <= r < width,
    ;
    assert(q <= n) by (nonlinear_arith)
        requires
            i == width * q + r,
            len == width * n + m,
            i < len,
            0 <= r,
            0 <= m < width,
    ;
    if m == 0 {
        assert(q < n) by (nonlinear_arith)
            requires
                i == width * q + r,
                len == width * n,
                i < len,
                0 <= r,
                width > 0,
        ;
    }
}

/// The full rows of a grid lie inside it.
proof fn lemma_full_rows(width: int, len: int)
    requires
        width > 0,
        0 <= len,
    ensures
        (len / width) * width <= len,
{
    lemma_fundamental_div_mod(len, width);
    lemma_mul_is_commutative(width, len / width);
}

/// Sets every cell of row `y` between the columns `x1` and `x2` (both
/// included) to floor, clamped to the grid: columns past the last one, a row
/// past the last full row and a partial last row are left alone.
fn apply_horizontal_tunnel(tiles: &mut Vec<char>, width: usize, x1: usize, x2: usize, y: usize)
    requires
        width > 0,
    ensures
        final(tiles)@.len() == old(tiles)@.len(),
        forall|i: int|
            0 <= i < old(tiles)@.len() ==> #[trigger] final(tiles)@[i] == if on_row(
                width as int,
                y as int,
                x1 as int,
                x2 as int,
                i,
            ) && i / (width as int) < (old(tiles)@.len() as int) / (width as int) {
                FLOOR
            } else {
                old(tiles)@[i]
            },
{
    let ghost w = width as int;
    let ghost len = tiles@.len() as int;
    let n = tiles.len();
    if y >= n / width {
        assert forall|i: int| 0 <= i < len implies !(on_row(w, y as int, x1 as int, x2 as int, i) && i / w < len / w) by {
            lemma_rows(w, len, i);
        }
        return ;
    }
    let start = if x1 < x2 { x1 } else { x2 };
    let high = if x1 < x2 { x2 } else { x1 };
    let end = if high < width - 1 { high } else { width - 1 };
    let mut x = start;
    while x <= end
        invariant
            w == width,
            width > 0,
            len == tiles@.len(),
            len == old(tiles)@.len(),
            len <= usize::MAX,
            y < len / w,
            start <= x,
            x <= end + 1 || x == start,
            end < width,
            forall|i: int|
                0 <= i < len ==> #[trigger] tiles@[i] == if i / w == y && start <= i % w < x {
                    FLOOR
                } else {
                    old(tiles)@[i]
                },
        decreases end + 1 - x,
    {
        proof {
            lemma_index_in_grid(w, len / w, x as int, y as int);
            lemma_full_rows(w, len);
            assert(y * width + x < len);
        }
        let idx = y * width + x;
        tiles[idx] = FLOOR;
        proof {
            assert forall|i: int| 0 <= i < len implies #[trigger] tiles@[i] == if i / w == y && start
                <= i % w < x + 1 {
                FLOOR
            } else {
                old(tiles)@[i]
            } by {
                lemma_index_coords(w, i, x as int, y as int);
            }
        }
        x = x + 1;
    }
    assert forall|i: int| 0 <= i < len implies #[trigger] tiles@[i] == if on_row(
        w,
        y as int,
        x1 as int,
        x2 as int,
        i,
    ) && i / w < len / w {
        FLOOR
    } else {
        old(tiles)@[i]
    } by {
        lemma_rows(w, len, i);
    }
}


/// Sets every cell of column `x` between the rows `y1` and `y2` (both
/// included) to floor, clamped to the grid: rows past the last full row and a
/// column past the last one are left alone.
fn apply_vertical_tunnel(tiles: &mut Vec<char>, width: usize, y1: usize, y2: usize, x: usize)
    requires
        width > 0,
    ensures
        final(tiles)@.len() == old(tiles)@.len(),
        forall|i: int|
            0 <= i < old(tiles)@.len() ==> #[trigger] final(tiles)@[i] == if on_column(
                width as int,
                x as int,
                y1 as int,
                y2 as int,
                i,
            ) && i / (width as int) < (old(tiles)@.len() as int) / (width as int) {
                FLOOR
            } else {
                old(tiles)@[i]
            },
{
    let ghost w = width as int;
    let ghost len = tiles@.len() as int;
    let n = tiles.len();
    let rows = n / width;
    if x >= width || rows == 0 {
        assert forall|i: int| 0 <= i < len implies !(on_column(w, x as int, y1 as int, y2 as int, i) && i / w < len / w) by {
            lemma_rows(w, len, i);
        }
        return ;
    }
    let start = if y1 < y2 { y1 } else { y2 };
    let high = if y1 < y2 { y2 } else { y1 };
    let end = if high < rows - 1 { high } else { rows - 1 };
    let mut y = start;
    while y <= end
        invariant
            w == width,
            width > 0,
            len == tiles@.len(),
            len == old(tiles)@.len(),
            len <= usize::MAX,
            rows == len / w,
            x < width,
            start <= y,
            y <= end + 1 || y == start,
            end < rows,
            forall|i: int|
                0 <= i < len ==> #[trigger] tiles@[i] == if i % w == x && start <= i / w < y {
                    FLOOR
                } else {
                    old(tiles)@[i]
                },
        decreases end + 1 - y,
    {
        proof {
            lemma_index_in_grid(w, len / w, x as int, y as int);
            lemma_full_rows(w, len);
            assert(y * width + x < len);
        }
        let idx = y * width + x;
        tiles[idx] = FLOOR;
        proof {
            assert forall|i: int| 0 <= i < len implies #[trigger] tiles@[i] == if i % w == x && start
                <= i / w < y + 1 {
                FLOOR
            } else {
                old(tiles)@[i]
            } by {
                lemma_index_coords(w, i, x as int, y as int);
            }
        }
        y = y + 1;
    }
    assert forall|i: int| 0 <= i < len implies #[trigger] tiles@[i] == if on_column(
        w,
        x as int,
        y1 as int,
        y2 as int,
        i,
    ) && i / w < len / w {
        FLOOR
    } else {
        old(tiles)@[i]
    } by {
        lemma_rows(w, len, i);
    }
}

/// Sets every cell inside `room` to floor.
fn apply_room_to_map(tiles: &mut Vec<char>, width: usize, room: &Rect)
    requires
        width > 0,
        room.x2 <= width,
        room.y2 <= (old(tiles)@.len() as int) / (width as int),
    ensures
        final(tiles)@.len() == old(tiles)@.len(),
        forall|i: int|
            0 <= i < old(tiles)@.len() ==> #[trigger] final(tiles)@[i] == if in_room(
                width as int,
                *room,
                i,
            ) {
                FLOOR
            } else {
                old(tiles)@[i]
            },
{
    let ghost w = width as int;
    let ghost len = tiles@.len() as int;
    let n = tiles.len();
    assert(n == len);
    let mut y = room.y1;
    while y < room.y2
        invariant
            w == width,
            width > 0,
            len == tiles@.len(),
            len == old(tiles)@.len(),
            len <= usize::MAX,
            room.x2 <= width,
            room.y2 <= len / w,
            room.y1 <= y,
            y <= room.y2 || y == room.y1,
            forall|i: int|
                0 <= i < len ==> #[trigger] tiles@[i] == if room.x1 <= i % w < room.x2 && room.y1
                    <= i / w < y {
                    FLOOR
                } else {
                    old(tiles)@[i]
                },
        decreases room.y2 - y,
    {
        let mut x = room.x1;
        while x < room.x2
            invariant
                w == width,
                width > 0,
                len == tiles@.len(),
                len == old(tiles)@.len(),
                len <= usize::MAX,
                    room.x2 <= width,
                room.y2 <= len / w,
                room.y1 <= y < room.y2,
                room.x1 <= x,
                x <= room.x2 || x == room.x1,
                forall|i: int|
                    0 <= i < len ==> #[trigger] tiles@[i] == if (room.x1 <= i % w < room.x2
                        && room.y1 <= i / w < y) || (i / w == y && room.x1 <= i % w < x) {
                        FLOOR
                    } else {
                        old(tiles)@[i]
                    },
            decreases room.x2 - x,
        {
            proof {
                lemma_index_in_grid(w, len / w, x as int, y as int);
                lemma_full_rows(w, len);
                assert(y * width + x < len);
            }
            let idx = y * width + x;
            tiles[idx] = FLOOR;
            proof {
                assert forall|i: int| 0 <= i < len implies #[trigger] tiles@[i] == if (room.x1 <= i
                    % w < room.x2 && room.y1 <= i / w < y) || (i / w == y && room.x1 <= i % w < x
                    + 1) {
                    FLOOR
                } else {
                    old(tiles)@[i]
                } by {
                    lemma_index_coords(w, i, x as int, y as int);
                }
            }
            x = x + 1;
        }
        y = y + 1;
    }
}


/// The cells of the corridor from `from` to `to`: one horizontal and one
/// vertical run, the horizontal one first (along the row of `from`) or the
/// vertical one first (along the column of `from`).
pub open spec fn on_corridor(
    width: int,
    from: (int, int),
    to: (int, int),
    horizontal_first: bool,
    i: int,
) -> bool {
    if horizontal_first {
        on_row(width, from.1, from.0, to.0, i) || on_column(width, to.0, from.1, to.1, i)
    } else {
        on_column(width, from.0, from.1, to.1, i) || on_row(width, to.1, from.0, to.0, i)
    }
}

/// Every cell of the corridor from `from` to `to` that starts the given way is floor.
pub open spec fn corridor_floored(
    tiles: Seq<char>,
    width: int,
    from: (int, int),
    to: (int, int),
    horizontal_first: bool,
) -> bool {
    forall|i: int|
        0 <= i < tiles.len() && #[trigger] on_corridor(width, from, to, horizontal_first, i)
            ==> tiles[i] == FLOOR
}

/// Every cell inside one of `rooms` is floor.
pub open spec fn rooms_floored(tiles: Seq<char>, width: int, rooms: Seq<Rect>) -> bool {
    forall|k: int, i: int|
        0 <= k < rooms.len() && 0 <= i < tiles.len() && #[trigger] in_room(width, rooms[k], i)
            ==> tiles[i] == FLOOR
}

/// Each room is joined to the room placed just before it by a floor corridor
/// between their centers, which starts horizontally exactly where `turns` says
/// so for that room.
pub open spec fn rooms_chained(
    tiles: Seq<char>,
    width: int,
    rooms: Seq<Rect>,
    turns: Seq<bool>,
) -> bool {
    forall|k: int|
        0 < k < rooms.len() ==> corridor_floored(
            tiles,
            width,
            #[trigger] rooms[k - 1].center_spec(),
            rooms[k].center_spec(),
            turns[k],
        )
}

/// No two of `rooms` overlap.
pub open spec fn rooms_apart(rooms: Seq<Rect>) -> bool {
    forall|j: int, k: int|
        0 <= j < rooms.len() && 0 <= k < rooms.len() && j != k ==> !(#[trigger] rooms[j]).overlaps(
            #[trigger] rooms[k],
        )
}

/// Whether grid index `i` is a cell of room `k` of `rooms` or of the corridor
/// carved from the room before it, which starts as `turns[k]` says.
pub open spec fn carved_for(width: int, rooms: Seq<Rect>, turns: Seq<bool>, k: int, i: int) -> bool {
    ||| in_room(width, rooms[k], i)
    ||| (k > 0 && on_corridor(
        width,
        rooms[k - 1].center_spec(),
        rooms[k].center_spec(),
        turns[k],
        i,
    ))
}

/// Every floor cell belongs to a room or to the corridor carved into it.
pub open spec fn floor_explained(
    tiles: Seq<char>,
    width: int,
    rooms: Seq<Rect>,
    turns: Seq<bool>,
) -> bool {
    forall|i: int|
        0 <= i < tiles.len() && #[trigger] tiles[i] == FLOOR ==> exists|k: int|
            0 <= k < rooms.len() && #[trigger] carved_for(width, rooms, turns, k, i)
}

/// Whether `t2` keeps every floor cell of `t1`.
pub open spec fn floor_kept(t1: Seq<char>, t2: Seq<char>) -> bool {
    &&& t1.len() == t2.len()
    &&& forall|i: int| 0 <= i < t1.len() && t1[i] == FLOOR ==> #[trigger] t2[i] == FLOOR
}

/// Carving more floor keeps the rooms floored and their corridors open.
proof fn lemma_floor_kept(t1: Seq<char>, t2: Seq<char>, width: int, rooms: Seq<Rect>, turns: Seq<bool>)
    requires
        floor_kept(t1, t2),
    ensures
        rooms_floored(t1, width, rooms) ==> rooms_floored(t2, width, rooms),
        rooms_chained(t1, width, rooms, turns) ==> rooms_chained(t2, width, rooms, turns),
{
}

/// A rectangular grid of tiles, stored row by row, and the rooms carved into it
/// in the order in which they were placed.
#[derive(Clone)]
pub struct DungeonMap {
    pub width: usize,
    pub height: usize,
    pub tiles: Vec<char>,
    pub rooms: Vec<Rect>,
    /// For each room, whether the corridor carved into it from the room before
    /// it starts with the horizontal run; the entry of the first room has no
    /// corridor to describe.
    pub horizontal_first: Ghost<Seq<bool>>,
}

/// Why a map could not be produced or queried.
#[derive(Debug, Clone, Copy, PartialEq, Eq, Structural)]
pub enum MapError {
    /// Every placement attempt failed, so there is no room to start in.
    ExhaustedPlacement,
    /// A coordinate lies outside the grid.
    OutOfBounds,
}

impl DungeonMap {
    /// The tile at column `x` and row `y`.
    pub open spec fn tile(&self, x: int, y: int) -> char {
        self.tiles@[y * self.width + x]
    }

    /// Whether `(x, y)` is a cell of the grid.
    pub open spec fn in_bounds(&self, x: int, y: int) -> bool {
        0 <= x < self.width && 0 <= y < self.height
    }

    /// The grid holds exactly one tile per cell.
    pub open spec fn grid_ok(&self) -> bool {
        &&& self.tiles@.len() == self.width * self.height
        &&& self.width * self.height <= usize::MAX
    }

    /// The invariant of a map built by placing rooms: every tile is wall or
    /// floor, every room fits with a border, no two rooms overlap, every room is
    /// floor, each room is joined by a corridor to the one placed before it, and
    /// there is no floor but the rooms and those corridors.
    pub open spec fn wf(&self) -> bool {
        &&& self.grid_ok()
        &&& forall|i: int|
            0 <= i < self.tiles@.len() ==> #[trigger] self.tiles@[i] == WALL || self.tiles@[i]
                == FLOOR
        &&& forall|k: int|
            0 <= k < self.rooms@.len() ==> (#[trigger] self.rooms@[k]).fits_in(
                self.width as int,
                self.height as int,
            )
        &&& rooms_apart(self.rooms@)
        &&& rooms_floored(self.tiles@, self.width as int, self.rooms@)
        &&& self.horizontal_first@.len() == self.rooms@.len()
        &&& rooms_chained(self.tiles@, self.width as int, self.rooms@, self.horizontal_first@)
        &&& floor_explained(self.tiles@, self.width as int, self.rooms@, self.horizontal_first@)
    }

    /// Whether `room` can be placed: it fits with a border and overlaps none
    /// of the rooms placed so far.
    pub open spec fn accepts(&self, room: Rect) -> bool {
        &&& room.fits_in(self.width as int, self.height as int)
        &&& forall|k: int| 0 <= k < self.rooms@.len() ==> !room.overlaps(#[trigger] self.rooms@[k])
    }

    /// Whether every room has sides between `MIN_SIZE` and `MAX_SIZE` long.
    pub open spec fn room_sizes_ok(&self) -> bool {
        forall|k: int|
            0 <= k < self.rooms@.len() ==> {
                &&& MIN_SIZE <= (#[trigger] self.rooms@[k]).x2 - self.rooms@[k].x1
                    <= MAX_SIZE
                &&& MIN_SIZE <= self.rooms@[k].y2 - self.rooms@[k].y1 <= MAX_SIZE
            }
    }

    /// Generates a map: `MAX_ROOMS` times a room with random sides between
    /// `MIN_SIZE` and `MAX_SIZE` is drawn at a random place where it fits with a
    /// border, and placed if it overlaps no earlier room, with a corridor to the
    /// previous room that starts horizontally or vertically at random.
    /// Returns the map and the center of its first room, where play starts, or
    /// `ExhaustedPlacement` if no room was placed. A grid more than
    /// `MAX_SIZE + 2` cells wide and high always gets a room; one at most
    /// `MIN_SIZE + 2` cells wide or high never does. On success no two rooms
    /// overlap, every cell of a room is floor, and each room is joined to the
    /// one before it by the L-shaped floor path recorded for it.
    pub fn new(width: usize, height: usize) -> (r: Result<(DungeonMap, usize, usize), MapError>)
        requires
            width * height <= usize::MAX,
        ensures
            match r {
                Ok((m, x, y)) => {
                    &&& m.wf()
                    &&& m.width == width
                    &&& m.height == height
                    &&& 1 <= m.rooms@.len() <= MAX_ROOMS
                    &&& m.room_sizes_ok()
                    &&& (x as int, y as int) == m.rooms@[0].center_spec()
                    &&& m.in_bounds(x as int, y as int)
                    &&& m.tile(x as int, y as int) == FLOOR
                    &&& forall|j: int, k: int|
                        0 <= j < k < m.rooms@.len() ==> !(#[trigger] m.rooms@[j]).overlaps(
                            #[trigger] m.rooms@[k],
                        ) && !m.rooms@[k].overlaps(m.rooms@[j])
                    &&& forall|k: int, cx: int, cy: int|
                        0 <= k < m.rooms@.len() && #[trigger] m.rooms@[k].contains(cx, cy)
                            ==> m.in_bounds(cx, cy) && m.tile(cx, cy) == FLOOR
                    &&& forall|k: int|
                        0 < k < m.rooms@.len() ==> path_floored(
                            m,
                            #[trigger] m.rooms@[k - 1].center_spec(),
                            m.rooms@[k].center_spec(),
                            m.horizontal_first@[k],
                        )
                },
                Err(e) => e == MapError::ExhaustedPlacement,
            },
            width > MAX_SIZE + 2 && height > MAX_SIZE + 2 ==> r is Ok,
            width <= MIN_SIZE + 2 || height <= MIN_SIZE + 2 ==> r is Err,
    {
        let mut map = DungeonMap::blank(width, height);
        let mut rng = thread_rng();
        let mut attempt: usize = 0;
        while attempt < MAX_ROOMS
            invariant
                map.wf(),
                map.width == width,
                map.height == height,
                map.rooms@.len() <= attempt <= MAX_ROOMS,
                map.room_sizes_ok(),
                attempt > 0 && width > MAX_SIZE + 2 && height > MAX_SIZE + 2 ==> map.rooms@.len()
                    > 0,
                width <= MIN_SIZE + 2 || height <= MIN_SIZE + 2 ==> map.rooms@.len() == 0,
            decreases MAX_ROOMS - attempt,
        {
            let w = random_below(&mut rng, MIN_SIZE, MAX_SIZE + 1);
            let h = random_below(&mut rng, MIN_SIZE, MAX_SIZE + 1);
            if width > w + 2 && height > h + 2 {
                let x = random_below(&mut rng, 1, width - w);
                let y = random_below(&mut rng, 1, height - h);
                let room = Rect::new(x, y, w, h);
                let horizontal_first = coin_flip(&mut rng);
                let ghost before = map;
                map.try_add_room(room, horizontal_first);
                proof {
                    if before.rooms@.len() < map.rooms@.len() {
                        assert forall|k: int| 0 <= k < map.rooms@.len() implies {
                            &&& MIN_SIZE <= (#[trigger] map.rooms@[k]).x2 - map.rooms@[k].x1
                                <= MAX_SIZE
                            &&& MIN_SIZE <= map.rooms@[k].y2 - map.rooms@[k].y1
                                <= MAX_SIZE
                        } by {
                            if k < before.rooms@.len() {
                                assert(map.rooms@[k] == before.rooms@[k]);
                            }
                        }
                    }
                }
            }
            attempt = attempt + 1;
        }
        if map.rooms.len() == 0 {
            return Err(MapError::ExhaustedPlacement);
        }
        let (x, y) = map.rooms[0].center();
        proof {
            assert(map.rooms@[0].fits_in(width as int, height as int));
            lemma_center_inside(map.rooms@[0]);
            lemma_room_is_floor(map, 0, x as int, y as int);
            assert forall|j: int, k: int| 0 <= j < k < map.rooms@.len() implies !(
            #[trigger] map.rooms@[j]).overlaps(#[trigger] map.rooms@[k]) && !map.rooms@[k].overlaps(
                map.rooms@[j],
            ) by {
                lemma_rooms_apart(map, j, k);
                lemma_rooms_apart(map, k, j);
            }
            assert forall|k: int, cx: int, cy: int|
                0 <= k < map.rooms@.len() && #[trigger] map.rooms@[k].contains(
                    cx,
                    cy,
                ) implies map.in_bounds(cx, cy) && map.tile(cx, cy) == FLOOR by {
                lemma_room_is_floor(map, k, cx, cy);
            }
            assert forall|k: int| 0 < k < map.rooms@.len() implies path_floored(
                map,
                #[trigger] map.rooms@[k - 1].center_spec(),
                map.rooms@[k].center_spec(),
                map.horizontal_first@[k],
            ) by {
                lemma_corridor_to_previous(map, k);
            }
        }
        Ok((map, x, y))
    }

    /// A grid of the given size filled with wall, with no rooms.
    pub fn blank(width: usize, height: usize) -> (m: DungeonMap)
        requires
            width * height <= usize::MAX,
        ensures
            m.wf(),
            m.width == width,
            m.height == height,
            m.rooms@.len() == 0,
            forall|i: int| 0 <= i < m.tiles@.len() ==> #[trigger] m.tiles@[i] == WALL,
    {
        let tiles = vec![WALL; width * height];
        DungeonMap { width, height, tiles, rooms: Vec::new(), horizontal_first: Ghost(Seq::empty()) }
    }

    /// The tile at `(x, y)`, which must be a cell of the grid.
    pub fn get_tile(&self, x: usize, y: usize) -> (r: char)
        requires
            self.grid_ok(),
            x < self.width,
            y < self.height,
        ensures
            r == self.tile(x as int, y as int),
    {
        proof {
            lemma_index_in_grid(self.width as int, self.height as int, x as int, y as int);
            lemma_mul_is_commutative(self.width as int, self.height as int);
        }
        self.tiles[y * self.width + x]
    }

    /// Whether the tile at `(x, y)`, which must be a cell of the grid, is no wall.
    pub fn is_walkable(&self, x: usize, y: usize) -> (r: bool)
        requires
            self.grid_ok(),
            x < self.width,
            y < self.height,
        ensures
            r == (self.tile(x as int, y as int) != WALL),
    {
        self.get_tile(x, y) != WALL
    }

    /// The tile at `(x, y)`, or `OutOfBounds` where that is no cell of the grid.
    pub fn tile_at(&self, x: usize, y: usize) -> (r: Result<char, MapError>)
        requires
            self.grid_ok(),
        ensures
            self.in_bounds(x as int, y as int) ==> r == Ok::<char, MapError>(
                self.tile(x as int, y as int),
            ),
            !self.in_bounds(x as int, y as int) ==> r == Err::<char, MapError>(
                MapError::OutOfBounds,
            ),
    {
        if x < self.width && y < self.height {
            Ok(self.get_tile(x, y))
        } else {
            Err(MapError::OutOfBounds)
        }
    }

    /// The cells that placing `room` turns to floor: the room itself and, where
    /// a room was placed before, the corridor from that room's center to the
    /// center of `room`.
    pub open spec fn carved_by(&self, room: Rect, horizontal_first: bool, i: int) -> bool {
        ||| in_room(self.width as int, room, i)
        ||| (self.rooms@.len() > 0 && on_corridor(
            self.width as int,
            self.rooms@.last().center_spec(),
            room.center_spec(),
            horizontal_first,
            i,
        ))
    }

    /// Places `room` if it fits with a border and overlaps no room placed so
    /// far: its cells become floor, a corridor is carved from the center of the
    /// previous room to its center (the horizontal run first or the vertical
    /// one, as `horizontal_first` says), and it is appended to the rooms, with
    /// that choice recorded beside it.
    /// Returns whether the room was placed; the map is unchanged otherwise.
    pub fn try_add_room(&mut self, room: Rect, horizontal_first: bool) -> (placed: bool)
        requires
            old(self).wf(),
        ensures
            final(self).wf(),
            placed == old(self).accepts(room),
            placed ==> {
                &&& final(self).width == old(self).width
                &&& final(self).height == old(self).height
                &&& final(self).rooms@ == old(self).rooms@.push(room)
                &&& final(self).horizontal_first@ == old(self).horizontal_first@.push(horizontal_first)
                &&& final(self).tiles@.len() == old(self).tiles@.len()
                &&& forall|i: int|
                    0 <= i < old(self).tiles@.len() ==> #[trigger] final(self).tiles@[i] == if old(
                        self,
                    ).carved_by(room, horizontal_first, i) {
                        FLOOR
                    } else {
                        old(self).tiles@[i]
                    }
            },
            !placed ==> *final(self) == *old(self),
    {
        let fits = 1 <= room.x1 && room.x1 < room.x2 && room.x2 < self.width && 1 <= room.y1
            && room.y1 < room.y2 && room.y2 < self.height;
        if !fits || self.overlaps_any(&room) {
            return false;
        }
        let ghost w = self.width as int;
        let ghost h = self.height as int;
        let ghost t0 = self.tiles@;
        proof {
            lemma_fundamental_div_mod_converse(t0.len() as int, w, h, 0);
        }
        apply_room_to_map(&mut self.tiles, self.width, &room);
        let ghost t1 = self.tiles@;
        let (new_x, new_y) = room.center();
        let n = self.rooms.len();
        if n > 0 {
            let (prev_x, prev_y) = self.rooms[n - 1].center();
            if horizontal_first {
                apply_horizontal_tunnel(&mut self.tiles, self.width, prev_x, new_x, prev_y);
                apply_vertical_tunnel(&mut self.tiles, self.width, prev_y, new_y, new_x);
            } else {
                apply_vertical_tunnel(&mut self.tiles, self.width, prev_y, new_y, prev_x);
                apply_horizontal_tunnel(&mut self.tiles, self.width, prev_x, new_x, new_y);
            }
        }
        let ghost t2 = self.tiles@;
        let ghost old_rooms = self.rooms@;
        let ghost old_turns = self.horizontal_first@;
        self.rooms.push(room);
        self.horizontal_first = Ghost(self.horizontal_first@.push(horizontal_first));
        proof {
            let rooms = self.rooms@;
            let turns = self.horizontal_first@;
            assert(floor_kept(t0, t2));
            assert(floor_kept(t1, t2));
            lemma_floor_kept(t0, t2, w, old_rooms, old_turns);
            assert forall|k: int, i: int|
                0 <= k < rooms.len() && 0 <= i < t2.len() && #[trigger] in_room(w, rooms[k], i)
                implies t2[i] == FLOOR by {
                if k < old_rooms.len() {
                    assert(rooms[k] == old_rooms[k]);
                }
            }
            if n > 0 {
                let a = old_rooms.last().center_spec();
                let b = room.center_spec();
                assert(corridor_floored(t2, w, a, b, horizontal_first));
            }
            assert forall|k: int| 0 < k < rooms.len() implies corridor_floored(
                t2,
                w,
                #[trigger] rooms[k - 1].center_spec(),
                rooms[k].center_spec(),
                turns[k],
            ) by {
                if k < old_rooms.len() {
                    assert(rooms[k] == old_rooms[k]);
                    assert(rooms[k - 1] == old_rooms[k - 1]);
                    assert(turns[k] == old_turns[k]);
                } else {
                    assert(rooms[k - 1] == old_rooms.last());
                    assert(turns[k] == horizontal_first);
                }
            }
            assert forall|i: int| 0 <= i < t2.len() && #[trigger] t2[i] == FLOOR implies exists|
                k: int,
            | 0 <= k < rooms.len() && #[trigger] carved_for(w, rooms, turns, k, i) by {
                if t0[i] == FLOOR {
                    let k = choose|k: int|
                        0 <= k < old_rooms.len() && #[trigger] carved_for(
                            w,
                            old_rooms,
                            old_turns,
                            k,
                            i,
                        );
                    assert(rooms[k] == old_rooms[k]);
                    assert(turns[k] == old_turns[k]);
                    if k > 0 {
                        assert(rooms[k - 1] == old_rooms[k - 1]);
                    }
                    assert(carved_for(w, rooms, turns, k, i));
                } else {
                    assert(rooms[n as int] == room);
                    assert(turns[n as int] == horizontal_first);
                    if n > 0 {
                        assert(rooms[n - 1] == old_rooms.last());
                    }
                    assert(carved_for(w, rooms, turns, n as int, i));
                }
            }
            assert forall|j: int, k: int|
                0 <= j < rooms.len() && 0 <= k < rooms.len() && j != k implies !(
                #[trigger] rooms[j]).overlaps(#[trigger] rooms[k]) by {
                if j < old_rooms.len() {
                    assert(rooms[j] == old_rooms[j]);
                }
                if k < old_rooms.len() {
                    assert(rooms[k] == old_rooms[k]);
                }
            }
        }
        true
    }

    /// Whether `room` overlaps one of the rooms placed so far.
    fn overlaps_any(&self, room: &Rect) -> (r: bool)
        ensures
            r == exists|k: int| 0 <= k < self.rooms@.len() && room.overlaps(#[trigger] self.rooms@[k]),
    {
        let mut k: usize = 0;
        while k < self.rooms.len()
            invariant
                k <= self.rooms@.len(),
                forall|j: int| 0 <= j < k ==> !room.overlaps(#[trigger] self.rooms@[j]),
            decreases self.rooms@.len() - k,
        {
            if room.intersects_with(&self.rooms[k]) {
                return true;
            }
            k = k + 1;
        }
        false
    }
}


/// The cells of a straight run between two coordinates, both included, in either order.
pub open spec fn between(c: int, a: int, b: int) -> bool {
    min(a, b) <= c <= max(a, b)
}

/// In coordinates: every cell of the L-shaped path from `from` to `to` is
/// floor, where the path goes along the row of `from` and then along the column
/// of `to` (`horizontal_first`), or along the column of `from` and then the row
/// of `to`.
pub open spec fn path_floored(m: DungeonMap, from: (int, int), to: (int, int), horizontal_first: bool) -> bool {
    if horizontal_first {
        &&& forall|x: int| between(x, from.0, to.0) ==> #[trigger] m.tile(x, from.1) == FLOOR
        &&& forall|y: int| between(y, from.1, to.1) ==> #[trigger] m.tile(to.0, y) == FLOOR
    } else {
        &&& forall|y: int| between(y, from.1, to.1) ==> #[trigger] m.tile(from.0, y) == FLOOR
        &&& forall|x: int| between(x, from.0, to.0) ==> #[trigger] m.tile(x, to.1) == FLOOR
    }
}

/// The center of a rectangle that is not empty lies inside it.
pub proof fn lemma_center_inside(r: Rect)
    requires
        r.x1 < r.x2,
        r.y1 < r.y2,
    ensures
        r.contains(r.center_spec().0, r.center_spec().1),
{
}

/// No two rooms of a map overlap.
pub proof fn lemma_rooms_apart(m: DungeonMap, j: int, k: int)
    requires
        m.wf(),
        0 <= j < m.rooms@.len(),
        0 <= k < m.rooms@.len(),
        j != k,
    ensures
        !m.rooms@[j].overlaps(m.rooms@[k]),
{
    assert(!m.rooms@[j].overlaps(m.rooms@[k]));
}

/// Every cell inside a room of a map is a cell of the grid, and floor.
pub proof fn lemma_room_is_floor(m: DungeonMap, k: int, x: int, y: int)
    requires
        m.wf(),
        0 <= k < m.rooms@.len(),
        m.rooms@[k].contains(x, y),
    ensures
        m.in_bounds(x, y),
        m.tile(x, y) == FLOOR,
{
    let w = m.width as int;
    assert(m.rooms@[k].fits_in(w, m.height as int));
    lemma_index_in_grid(w, m.height as int, x, y);
    lemma_mul_is_commutative(w, m.height as int);
    lemma_index_coords(w, y * w + x, x, y);
    assert(in_room(w, m.rooms@[k], y * w + x));
}

/// Every room after the first is joined to the room placed just before it by
/// an L-shaped path of floor cells between their centers, the one recorded for
/// that room, and all the cells of that path lie in the grid.
pub proof fn lemma_corridor_to_previous(m: DungeonMap, k: int)
    requires
        m.wf(),
        0 < k < m.rooms@.len(),
    ensures
        ({
            let (a, b) = (m.rooms@[k - 1].center_spec(), m.rooms@[k].center_spec());
            &&& m.in_bounds(a.0, a.1)
            &&& m.in_bounds(b.0, b.1)
            &&& path_floored(m, a, b, m.horizontal_first@[k])
            &&& path_floored(m, a, b, true) || path_floored(m, a, b, false)
        }),
{
    let w = m.width as int;
    let h = m.height as int;
    let (a, b) = (m.rooms@[k - 1].center_spec(), m.rooms@[k].center_spec());
    assert(m.rooms@[k - 1].fits_in(w, h));
    assert(m.rooms@[k].fits_in(w, h));
    lemma_center_inside(m.rooms@[k - 1]);
    lemma_center_inside(m.rooms@[k]);
    lemma_mul_is_commutative(w, h);
    let hf = m.horizontal_first@[k];
    assert(corridor_floored(m.tiles@, w, a, b, hf));
    assert forall|x: int, y: int|
        (y == (if hf { a.1 } else { b.1 }) && between(x, a.0, b.0)) implies #[trigger] m.tile(x, y)
        == FLOOR by {
        lemma_index_in_grid(w, h, x, y);
        lemma_index_coords(w, y * w + x, x, y);
        assert(on_corridor(w, a, b, hf, y * w + x));
    }
    assert forall|x: int, y: int|
        (x == (if hf { b.0 } else { a.0 }) && between(y, a.1, b.1)) implies #[trigger] m.tile(x, y)
        == FLOOR by {
        lemma_index_in_grid(w, h, x, y);
        lemma_index_coords(w, y * w + x, x, y);
        assert(on_corridor(w, a, b, hf, y * w + x));
    }
    assert(path_floored(m, a, b, hf));
}


/// The Manhattan distance between `(x1, y1)` and `p`.
pub fn distance(x1: usize, y1: usize, p: (usize, usize)) -> (r: usize)
    requires
        abs_diff(x1 as int, p.0 as int) + abs_diff(y1 as int, p.1 as int) <= usize::MAX,
    ensures
        r == abs_diff(x1 as int, p.0 as int) + abs_diff(y1 as int, p.1 as int),
{
    let (x2, y2) = p;
    let dx = if x1 > x2 {
        x1 - x2
    } else {
        x2 - x1
    };
    let dy = if y1 > y2 {
        y1 - y2
    } else {
        y2 - y1
    };
    dx + dy
}

/// The distance between two integers.
pub open spec fn abs_diff(a: int, b: int) -> int {
    if a > b {
        a - b
    } else {
        b - a
    }
}

} // verus!
