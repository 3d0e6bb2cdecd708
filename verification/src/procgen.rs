//! Procedural generation: a seeded linear congruential generator, cellular
//! smoothing of cave grids, room-and-corridor dungeons and generated names.
//!
//! Everything here is deterministic: the same seed gives the same output.
use vstd::prelude::*;
use vstd::arithmetic::div_mod::lemma_add_mod_noop;
use crate::text::push_str;

verus! {

/// The multiplier of the generator.
pub const LCG_MUL: u64 = 6364136223846793005;

/// The increment of the generator.
pub const LCG_INC: u64 = 1442695040888963407;

/// The state that follows `s`.
pub open spec fn lcg_step(s: u64) -> u64 {
    ((s * LCG_MUL + LCG_INC) % 0x1_0000_0000_0000_0000) as u64
}

/// The number drawn from state `s`: the high half of the next state.
pub open spec fn lcg_output(s: u64) -> u32 {
    (lcg_step(s) / 0x1_0000_0000) as u32
}

/// The value that `range(min, max)` draws from state `s`: `min` plus the
/// Euclidean remainder of the drawn number, read as an `i32`, by `max - min`.
pub open spec fn range_value(s: u64, min: i32, max: i32) -> int {
    min + (lcg_output(s) as i32) as int % (max - min)
}

/// The state after `n` draws from `s`.
pub open spec fn lcg_iter(s: u64, n: nat) -> u64
    decreases n,
{
    if n == 0 {
        s
    } else {
        lcg_iter(lcg_step(s), (n - 1) as nat)
    }
}

/// A seeded pseudo-random generator; the same seed gives the same sequence.
pub struct Rng {
    state: u64,
}

impl View for Rng {
    type V = u64;

    closed spec fn view(&self) -> u64 {
        self.state
    }
}

impl Rng {
    pub fn new(seed: u64) -> (r: Self)
        ensures
            r@ == seed,
    {
        Self { state: seed }
    }

    /// Advances the state and returns its high 32 bits.
    pub fn next_u32(&mut self) -> (r: u32)
        ensures
            final(self)@ == lcg_step(old(self)@),
            r == lcg_output(old(self)@),
    {
        let s = self.state;
        let next = s.wrapping_mul(LCG_MUL).wrapping_add(LCG_INC);
        proof {
            let m: int = 0x1_0000_0000_0000_0000;
            assert((s * LCG_MUL) % m + LCG_INC as int % m == (s * LCG_MUL) % m + LCG_INC);
            lemma_add_mod_noop(s * LCG_MUL, LCG_INC as int, m);
            assert(LCG_INC as int % m == LCG_INC);
            assert(next == lcg_step(s));
        }
        self.state = next;
        let hi = next >> 32;
        assert(hi == next / 0x1_0000_0000 && hi < 0x1_0000_0000) by (bit_vector)
            requires
                hi == next >> 32,
        ;
        hi as u32
    }

    /// A value from `min` up to but not including `min + |max - min|`: with
    /// `min < max`, one in `min..max`.
    pub fn range(&mut self, min: i32, max: i32) -> (r: i32)
        requires
            range_ok(old(self)@, min, max),
        ensures
            final(self)@ == lcg_step(old(self)@),
            r == range_value(old(self)@, min, max),
            min <= r < min + abs_diff(min, max),
    {
        let v = self.next_u32() as i32;
        let d = max - min;
        let m = v.checked_rem_euclid(d).unwrap();
        min + m
    }
}

/// `|max - min|`.
pub open spec fn abs_diff(min: i32, max: i32) -> int {
    if max >= min {
        max - min
    } else {
        min - max
    }
}

/// `range(min, max)` from state `s` neither overflows nor divides by zero.
pub open spec fn range_ok(s: u64, min: i32, max: i32) -> bool {
    &&& max != min
    &&& i32::MIN <= max - min <= i32::MAX
    &&& min + abs_diff(min, max) - 1 <= i32::MAX
    &&& !(max - min == -1 && lcg_output(s) as i32 == i32::MIN)
}

/// Two generators in the same state draw the same number and end in the same
/// state: equal seeds give equal sequences.
pub proof fn lemma_rng_deterministic(a: Rng, b: Rng, n: nat)
    requires
        a@ == b@,
    ensures
        lcg_output(a@) == lcg_output(b@),
        lcg_iter(a@, n) == lcg_iter(b@, n),
{
}

// ---------------------------------------------------------------------------
// Caves
// ---------------------------------------------------------------------------

/// The cell at `(x, y)` of a grid `w` cells wide is a wall; cells outside the
/// grid count as walls.
pub open spec fn wall_at(g: Seq<Vec<bool>>, w: int, x: int, y: int) -> bool {
    x < 0 || y < 0 || x >= w || y >= g.len() || g[y]@[x]
}

pub open spec fn b2n(b: bool) -> nat {
    if b {
        1
    } else {
        0
    }
}

/// How many of the eight cells around `(x, y)` are walls.
pub open spec fn wall_neighbors(g: Seq<Vec<bool>>, w: int, x: int, y: int) -> nat {
    b2n(wall_at(g, w, x - 1, y - 1)) + b2n(wall_at(g, w, x, y - 1)) + b2n(
        wall_at(g, w, x + 1, y - 1),
    ) + b2n(wall_at(g, w, x - 1, y)) + b2n(wall_at(g, w, x + 1, y)) + b2n(
        wall_at(g, w, x - 1, y + 1),
    ) + b2n(wall_at(g, w, x, y + 1)) + b2n(wall_at(g, w, x + 1, y + 1))
}

/// Walls among the first `k` of the nine cells around and at `(x, y)`, row by
/// row, the centre not counted.
spec fn walls_before(g: Seq<Vec<bool>>, w: int, x: int, y: int, k: int) -> nat
    decreases k,
{
    if k <= 0 {
        0
    } else {
        let j = k - 1;
        walls_before(g, w, x, y, j) + if j == 4 {
            0
        } else {
            b2n(wall_at(g, w, x + j % 3 - 1, y + j / 3 - 1))
        }
    }
}

/// Rows at least as long as the first: every cell of the first row's width
/// exists in every row.
pub open spec fn grid_ok(g: Seq<Vec<bool>>) -> bool {
    &&& 0 < g.len() <= i32::MAX
    &&& g[0]@.len() <= i32::MAX
    &&& forall|y: int| 0 <= y < g.len() ==> g[0]@.len() <= (#[trigger] g[y])@.len()
}

/// How many of the eight cells around `(x, y)` are walls, counting cells
/// outside the grid as walls.
pub fn count_wall_neighbors(grid: &[Vec<bool>], x: usize, y: usize) -> (count: usize)
    requires
        grid_ok(grid@),
        x < i32::MAX,
        y < i32::MAX,
    ensures
        count == wall_neighbors(grid@, grid@[0]@.len() as int, x as int, y as int),
{
    let mut count: usize = 0;
    let height = grid.len();
    let width = grid[0].len();
    let ghost w = width as int;
    let mut dy: i32 = -1;
    while dy <= 1
        invariant
            grid_ok(grid@),
            height == grid@.len(),
            width == grid@[0]@.len(),
            w == width,
            x < i32::MAX,
            y < i32::MAX,
            -1 <= dy <= 2,
            count == walls_before(grid@, w, x as int, y as int, 3 * (dy + 1)),
            count <= 3 * (dy + 1),
        decreases 2 - dy,
    {
        let mut dx: i32 = -1;
        while dx <= 1
            invariant
                grid_ok(grid@),
                height == grid@.len(),
                width == grid@[0]@.len(),
                w == width,
                x < i32::MAX,
                y < i32::MAX,
                -1 <= dy <= 1,
                -1 <= dx <= 2,
                count == walls_before(grid@, w, x as int, y as int, 3 * (dy + 1) + (dx + 1)),
                count <= 3 * (dy + 1) + (dx + 1),
            decreases 2 - dx,
        {
            let ghost k = 3 * (dy + 1) + (dx + 1);
            assert(k % 3 - 1 == dx && k / 3 - 1 == dy);
            if dx == 0 && dy == 0 {
                dx += 1;
                continue;
            }
            let nx = x as i32 + dx;
            let ny = y as i32 + dy;
            if nx < 0 || ny < 0 || nx >= width as i32 || ny >= height as i32 {
                count += 1;
            } else if grid[ny as usize][nx as usize] {
                assert(grid@[ny as int]@.len() >= width);
                count += 1;
            }
            dx += 1;
        }
        dy += 1;
    }
    proof {
        reveal_with_fuel(walls_before, 10);
    }
    count
}

/// One step of cellular smoothing: a cell becomes a wall exactly when at least
/// five of its eight neighbours are walls. The result has the height of `grid`
/// and the width of its first row.
pub fn smooth_cave(grid: &[Vec<bool>]) -> (r: Vec<Vec<bool>>)
    requires
        grid_ok(grid@),
    ensures
        r@.len() == grid@.len(),
        forall|y: int| 0 <= y < r@.len() ==> (#[trigger] r@[y])@.len() == grid@[0]@.len(),
        forall|y: int, x: int|
            0 <= y < r@.len() && 0 <= x < grid@[0]@.len() ==> #[trigger] r@[y]@[x] == (
            wall_neighbors(grid@, grid@[0]@.len() as int, x, y) >= 5),
{
    let height = grid.len();
    let width = grid[0].len();
    let mut new_grid: Vec<Vec<bool>> = Vec::new();
    let mut y: usize = 0;
    while y < height
        invariant
            grid_ok(grid@),
            height == grid@.len(),
            width == grid@[0]@.len(),
            y <= height,
            new_grid@.len() == y,
            forall|j: int| 0 <= j < y ==> (#[trigger] new_grid@[j])@.len() == width,
            forall|j: int, i: int|
                0 <= j < y && 0 <= i < width ==> #[trigger] new_grid@[j]@[i] == (wall_neighbors(
                    grid@,
                    width as int,
                    i,
                    j,
                ) >= 5),
        decreases height - y,
    {
        let mut row: Vec<bool> = Vec::new();
        let mut x: usize = 0;
        while x < width
            invariant
                grid_ok(grid@),
                height == grid@.len(),
                width == grid@[0]@.len(),
                y < height,
                x <= width,
                row@.len() == x,
                forall|i: int|
                    0 <= i < x ==> #[trigger] row@[i] == (wall_neighbors(
                        grid@,
                        width as int,
                        i,
                        y as int,
                    ) >= 5),
            decreases width - x,
        {
            let neighbors = count_wall_neighbors(grid, x, y);
            row.push(neighbors >= 5);
            x += 1;
        }
        new_grid.push(row);
        y += 1;
    }
    new_grid
}

// ---------------------------------------------------------------------------
// Dungeons
// ---------------------------------------------------------------------------

/// Sets the cells `x0 <= x < x1`, `y0 <= y < y1` of `grid` to open (`false`).
fn fill_rect(grid: &mut Vec<Vec<bool>>, x0: usize, x1: usize, y0: usize, y1: usize)
    requires
        y1 <= old(grid)@.len(),
        forall|y: int| y0 <= y < y1 ==> x1 <= (#[trigger] old(grid)@[y])@.len(),
    ensures
        final(grid)@.len() == old(grid)@.len(),
        forall|y: int|
            0 <= y < final(grid)@.len() ==> (#[trigger] final(grid)@[y])@.len() == old(
                grid,
            )@[y]@.len(),
        forall|y: int, x: int|
            #![trigger final(grid)@[y]@[x]]
            0 <= y < final(grid)@.len() && 0 <= x < final(grid)@[y]@.len() ==> final(grid)@[y]@[x] == (if y0 <= y < y1 && x0 <= x < x1 {
                false
            } else {
                old(grid)@[y]@[x]
            }),
{
    let mut ry = y0;
    while ry < y1
        invariant
            y1 <= grid@.len(),
            grid@.len() == old(grid)@.len(),
            forall|y: int| y0 <= y < y1 ==> x1 <= (#[trigger] old(grid)@[y])@.len(),
            forall|y: int| 0 <= y < grid@.len() ==> (#[trigger] grid@[y])@.len() == old(grid)@[y]@.len(),
            y0 <= ry,
            forall|y: int, x: int|
                0 <= y < grid@.len() && 0 <= x < grid@[y]@.len() ==> #[trigger] grid@[y]@[x] == (if y0 <= y < ry && y < y1 && x0 <= x < x1 {
                    false
                } else {
                    old(grid)@[y]@[x]
                }),
        decreases y1 - ry,
    {
        let mut rx = x0;
        while rx < x1
            invariant
                y0 <= ry < y1,
                y1 <= grid@.len(),
                grid@.len() == old(grid)@.len(),
                forall|y: int| y0 <= y < y1 ==> x1 <= (#[trigger] old(grid)@[y])@.len(),
                forall|y: int| 0 <= y < grid@.len() ==> (#[trigger] grid@[y])@.len() == old(grid)@[y]@.len(),
                x0 <= rx,
                forall|y: int, x: int|
                    0 <= y < grid@.len() && 0 <= x < grid@[y]@.len() ==> #[trigger] grid@[y]@[x] == (if (y0 <= y < ry && x0 <= x < x1) || (y == ry && x0 <= x < rx && x < x1) {
                        false
                    } else {
                        old(grid)@[y]@[x]
                    }),
            decreases x1 - rx,
        {
            let ghost g0 = grid@;
            grid[ry].set(rx, false);
            proof {
                assert forall|y: int| 0 <= y < grid@.len() && y != ry implies grid@[y] == g0[y] by {}
                assert(grid@[ry as int]@ == g0[ry as int]@.update(rx as int, false));
            }
            rx += 1;
        }
        ry += 1;
    }
}

/// A rectangular room; `(x, y)` is its top-left cell.
#[derive(Clone, Copy, Debug, PartialEq, Eq, Structural)]
pub struct Room {
    pub x: usize,
    pub y: usize,
    pub width: usize,
    pub height: usize,
}

pub open spec fn imin(a: int, b: int) -> int {
    if a <= b {
        a
    } else {
        b
    }
}

pub open spec fn imax(a: int, b: int) -> int {
    if a >= b {
        a
    } else {
        b
    }
}

pub open spec fn center_x(r: Room) -> int {
    r.x + r.width / 2
}

pub open spec fn center_y(r: Room) -> int {
    r.y + r.height / 2
}

/// The two rooms share at least one cell.
pub open spec fn rooms_intersect(a: Room, b: Room) -> bool {
    &&& a.x < b.x + b.width
    &&& a.x + a.width > b.x
    &&& a.y < b.y + b.height
    &&& a.y + a.height > b.y
}

/// `(x, y)` is a cell of `r`.
pub open spec fn in_room(r: Room, x: int, y: int) -> bool {
    r.x <= x < r.x + r.width && r.y <= y < r.y + r.height
}

/// `(x, y)` lies on the corridor from room `p` to room `q`: first along the row
/// of `p`'s centre, then along the column of `q`'s centre.
pub open spec fn on_corridor(p: Room, q: Room, x: int, y: int) -> bool {
    ||| y == center_y(p) && imin(center_x(p), center_x(q)) <= x <= imax(center_x(p), center_x(q))
    ||| x == center_x(q) && imin(center_y(p), center_y(q)) <= y <= imax(center_y(p), center_y(q))
}

/// Room `i` of `rooms`, or the corridor that joins it to room `i - 1`, covers
/// `(x, y)`.
pub open spec fn opened_by(rooms: Seq<Room>, i: int, x: int, y: int) -> bool {
    in_room(rooms[i], x, y) || (i > 0 && on_corridor(rooms[i - 1], rooms[i], x, y))
}

/// `(x, y)` is carved out by some room or corridor.
pub open spec fn open_cell(rooms: Seq<Room>, x: int, y: int) -> bool {
    exists|i: int| 0 <= i < rooms.len() && #[trigger] opened_by(rooms, i, x, y)
}

/// Every kept room after the first is joined to the room before it by open
/// cells: the whole row of the earlier room's centre between the two centres,
/// and the whole column of the later room's centre between the two centres,
/// which meet at one corner.
pub proof fn lemma_corridor_open(rooms: Seq<Room>, i: int, x: int, y: int)
    requires
        0 < i < rooms.len(),
        (y == center_y(rooms[i - 1]) && imin(center_x(rooms[i - 1]), center_x(rooms[i])) <= x
            <= imax(center_x(rooms[i - 1]), center_x(rooms[i]))) || (x == center_x(rooms[i])
            && imin(center_y(rooms[i - 1]), center_y(rooms[i])) <= y <= imax(
            center_y(rooms[i - 1]),
            center_y(rooms[i]),
        )),
    ensures
        open_cell(rooms, x, y),
{
    assert(opened_by(rooms, i, x, y));
}

impl Room {
    /// The centre cell, rounding down.
    pub fn center(&self) -> (c: (usize, usize))
        requires
            self.x + self.width / 2 <= usize::MAX,
            self.y + self.height / 2 <= usize::MAX,
        ensures
            c.0 == center_x(*self),
            c.1 == center_y(*self),
    {
        (self.x + self.width / 2, self.y + self.height / 2)
    }

    /// Whether the two rooms share a cell.
    pub fn intersects(&self, other: &Room) -> (r: bool)
        requires
            self.x + self.width <= usize::MAX,
            self.y + self.height <= usize::MAX,
            other.x + other.width <= usize::MAX,
            other.y + other.height <= usize::MAX,
        ensures
            r == rooms_intersect(*self, *other),
    {
        self.x < other.x + other.width && self.x + self.width > other.x && self.y < other.y
            + other.height && self.y + self.height > other.y
    }
}

/// `|max - min|` for room sizes.
pub open spec fn size_span(lo: usize, hi: usize) -> int {
    abs_diff(lo as i32, hi as i32)
}

/// Sizes and map dimensions with which every draw of `generate_dungeon` stays
/// inside the map and inside `i32`.
pub open spec fn dungeon_ok(map_width: usize, map_height: usize, lo: usize, hi: usize) -> bool {
    &&& lo <= i32::MAX
    &&& hi <= i32::MAX
    &&& lo != hi
    &&& map_width <= i32::MAX
    &&& map_height <= i32::MAX
    &&& lo + size_span(lo, hi) + 2 <= map_width
    &&& lo + size_span(lo, hi) + 2 <= map_height
}

/// `range(lo, hi)` with `hi` one below `lo` fails when its draw is `i32::MIN`:
/// none of the size draws of the first `n` rooms from state `s` is.
pub open spec fn size_draws_ok(s: u64, n: nat, lo: usize, hi: usize) -> bool {
    lo == hi + 1 ==> forall|k: nat| k < n ==> #[trigger] good_size_draws(lcg_iter(s, 4 * k))
}

/// Neither of the two draws from state `s` is `i32::MIN`.
pub open spec fn good_size_draws(s: u64) -> bool {
    lcg_output(s) as i32 != i32::MIN && lcg_output(lcg_step(s)) as i32 != i32::MIN
}

/// The room is inside the map with at least one wall cell on its top and left
/// and two on its bottom and right.
pub open spec fn room_inside(r: Room, map_width: int, map_height: int) -> bool {
    1 <= r.x && r.x + r.width + 2 <= map_width && 1 <= r.y && r.y + r.height + 2 <= map_height
}

/// The room drawn from state `s`, and the state after its four draws: width,
/// height, then the left and top coordinates.
pub open spec fn draw_room(s: u64, map_width: usize, map_height: usize, lo: usize, hi: usize) -> (
    Room,
    u64,
) {
    let w = range_value(s, lo as i32, hi as i32);
    let s1 = lcg_step(s);
    let h = range_value(s1, lo as i32, hi as i32);
    let s2 = lcg_step(s1);
    let x = range_value(s2, 1, (map_width - w - 1) as i32);
    let s3 = lcg_step(s2);
    let y = range_value(s3, 1, (map_height - h - 1) as i32);
    (Room { x: x as usize, y: y as usize, width: w as usize, height: h as usize }, lcg_step(s3))
}

/// `r` shares no cell with any room of `rooms`.
pub open spec fn fits(rooms: Seq<Room>, r: Room) -> bool {
    forall|i: int| 0 <= i < rooms.len() ==> !rooms_intersect(#[trigger] rooms[i], r)
}

/// The rooms kept after `n` draws from seed `s`: each drawn room is kept when
/// it shares no cell with the rooms kept before it.
pub open spec fn placed_rooms(
    s: u64,
    n: nat,
    map_width: usize,
    map_height: usize,
    lo: usize,
    hi: usize,
) -> Seq<Room>
    decreases n,
{
    if n == 0 {
        Seq::empty()
    } else {
        let prev = placed_rooms(s, (n - 1) as nat, map_width, map_height, lo, hi);
        let r = draw_room(lcg_iter(s, (4 * (n - 1)) as nat), map_width, map_height, lo, hi).0;
        if fits(prev, r) {
            prev.push(r)
        } else {
            prev
        }
    }
}

proof fn lemma_lcg_iter_step(s: u64, n: nat)
    ensures
        lcg_iter(s, n + 1) == lcg_step(lcg_iter(s, n)),
    decreases n,
{
    reveal_with_fuel(lcg_iter, 2);
    if n > 0 {
        lemma_lcg_iter_step(lcg_step(s), (n - 1) as nat);
        assert(lcg_iter(s, n) == lcg_iter(lcg_step(s), (n - 1) as nat));
    }
}

proof fn lemma_open_cell_push(rooms: Seq<Room>, r: Room, x: int, y: int)
    ensures
        open_cell(rooms.push(r), x, y) == (open_cell(rooms, x, y) || in_room(r, x, y) || (
        rooms.len() > 0 && on_corridor(rooms.last(), r, x, y))),
{
    let rs = rooms.push(r);
    let n = rooms.len() as int;
    if open_cell(rs, x, y) {
        let i = choose|i: int| 0 <= i < rs.len() && #[trigger] opened_by(rs, i, x, y);
        if i < n {
            assert(rs[i] == rooms[i]);
            if i > 0 {
                assert(rs[i - 1] == rooms[i - 1]);
            }
            assert(opened_by(rooms, i, x, y));
        } else {
            assert(rs[i] == r);
            if i > 0 {
                assert(rs[i - 1] == rooms.last());
            }
        }
    }
    if open_cell(rooms, x, y) {
        let i = choose|i: int| 0 <= i < rooms.len() && #[trigger] opened_by(rooms, i, x, y);
        assert(rs[i] == rooms[i]);
        if i > 0 {
            assert(rs[i - 1] == rooms[i - 1]);
        }
        assert(opened_by(rs, i, x, y));
    }
    if in_room(r, x, y) || (rooms.len() > 0 && on_corridor(rooms.last(), r, x, y)) {
        assert(rs[n] == r);
        if n > 0 {
            assert(rs[n - 1] == rooms.last());
        }
        assert(opened_by(rs, n, x, y));
    }
}

/// A `width` by `height` grid of walls (`true`).
fn all_walls(width: usize, height: usize) -> (g: Vec<Vec<bool>>)
    ensures
        g@.len() == height,
        forall|y: int| 0 <= y < height ==> (#[trigger] g@[y])@.len() == width,
        forall|y: int, x: int| 0 <= y < height && 0 <= x < width ==> #[trigger] g@[y]@[x],
{
    let mut g: Vec<Vec<bool>> = Vec::new();
    let mut y: usize = 0;
    while y < height
        invariant
            y <= height,
            g@.len() == y,
            forall|j: int| 0 <= j < y ==> (#[trigger] g@[j])@.len() == width,
            forall|j: int, x: int| 0 <= j < y && 0 <= x < width ==> #[trigger] g@[j]@[x],
        decreases height - y,
    {
        let mut row: Vec<bool> = Vec::new();
        let mut x: usize = 0;
        while x < width
            invariant
                x <= width,
                row@.len() == x,
                forall|i: int| 0 <= i < x ==> #[trigger] row@[i],
            decreases width - x,
        {
            row.push(true);
            x += 1;
        }
        g.push(row);
        y += 1;
    }
    g
}

/// Whether `r` shares a cell with any room of `rooms`.
fn any_intersects(rooms: &Vec<Room>, r: &Room, Ghost(mw): Ghost<int>, Ghost(mh): Ghost<int>) -> (b: bool)
    requires
        mw <= i32::MAX,
        mh <= i32::MAX,
        room_inside(*r, mw, mh),
        forall|i: int| 0 <= i < rooms@.len() ==> room_inside(#[trigger] rooms@[i], mw, mh),
    ensures
        b == !fits(rooms@, *r),
{
    let mut j: usize = 0;
    while j < rooms.len()
        invariant
            mw <= i32::MAX,
            mh <= i32::MAX,
            room_inside(*r, mw, mh),
            forall|i: int| 0 <= i < rooms@.len() ==> room_inside(#[trigger] rooms@[i], mw, mh),
            j <= rooms.len(),
            forall|i: int| 0 <= i < j ==> !rooms_intersect(#[trigger] rooms@[i], *r),
        decreases rooms.len() - j,
    {
        assert(room_inside(rooms@[j as int], mw, mh));
        if rooms[j].intersects(r) {
            return true;
        }
        j += 1;
    }
    false
}

/// Draws one room: width, height, then the left and top coordinates.
fn draw(rng: &mut Rng, map_width: usize, map_height: usize, lo: usize, hi: usize) -> (r: Room)
    requires
        dungeon_ok(map_width, map_height, lo, hi),
        lo == hi + 1 ==> lcg_output(old(rng)@) as i32 != i32::MIN && lcg_output(
            lcg_step(old(rng)@),
        ) as i32 != i32::MIN,
    ensures
        (r, final(rng)@) == draw_room(old(rng)@, map_width, map_height, lo, hi),
        room_inside(r, map_width as int, map_height as int),
{
    let w = rng.range(lo as i32, hi as i32) as usize;
    let h = rng.range(lo as i32, hi as i32) as usize;
    let x = rng.range(1, (map_width - w - 1) as i32) as usize;
    let y = rng.range(1, (map_height - h - 1) as i32) as usize;
    Room { x, y, width: w, height: h }
}

/// Carves room `r` out of the grid and, when there is a previous room, the
/// corridor from it to `r`.
fn carve(
    grid: &mut Vec<Vec<bool>>,
    rooms: &Vec<Room>,
    r: Room,
    Ghost(mw): Ghost<int>,
    Ghost(mh): Ghost<int>,
)
    requires
        0 <= mw <= i32::MAX,
        0 <= mh <= i32::MAX,
        old(grid)@.len() == mh,
        forall|y: int| 0 <= y < mh ==> (#[trigger] old(grid)@[y])@.len() == mw,
        forall|y: int, x: int|
            0 <= y < mh && 0 <= x < mw ==> #[trigger] old(grid)@[y]@[x] == !open_cell(rooms@, x, y),
        forall|a: int| 0 <= a < rooms@.len() ==> room_inside(#[trigger] rooms@[a], mw, mh),
        room_inside(r, mw, mh),
    ensures
        final(grid)@.len() == mh,
        forall|y: int| 0 <= y < mh ==> (#[trigger] final(grid)@[y])@.len() == mw,
        forall|y: int, x: int|
            #![trigger final(grid)@[y]@[x]]
            0 <= y < mh && 0 <= x < mw ==> final(grid)@[y]@[x] == !open_cell(rooms@.push(r), x, y),
{
    let ghost g0 = grid@;
    fill_rect(grid, r.x, r.x + r.width, r.y, r.y + r.height);
    let ghost g1 = grid@;
    if rooms.len() > 0 {
        let prev = rooms[rooms.len() - 1];
        assert(room_inside(prev, mw, mh));
        let (prev_cx, prev_cy) = prev.center();
        let (new_cx, new_cy) = r.center();
        let lo_x = if prev_cx < new_cx { prev_cx } else { new_cx };
        let hi_x = if prev_cx < new_cx { new_cx } else { prev_cx };
        fill_rect(grid, lo_x, hi_x + 1, prev_cy, prev_cy + 1);
        let lo_y = if prev_cy < new_cy { prev_cy } else { new_cy };
        let hi_y = if prev_cy < new_cy { new_cy } else { prev_cy };
        fill_rect(grid, new_cx, new_cx + 1, lo_y, hi_y + 1);
    }
    proof {
        assert forall|yy: int, xx: int|
            0 <= yy < mh && 0 <= xx < mw implies #[trigger] grid@[yy]@[xx] == !open_cell(
            rooms@.push(r),
            xx,
            yy,
        ) by {
            lemma_open_cell_push(rooms@, r, xx, yy);
            assert(g0[yy]@[xx] == !open_cell(rooms@, xx, yy));
            assert(g1[yy]@[xx] == (if in_room(r, xx, yy) {
                false
            } else {
                g0[yy]@[xx]
            }));
            if rooms@.len() > 0 {
                assert(rooms@.last() == rooms@[rooms@.len() - 1]);
            }
        }
    }
}

/// Places up to `max_rooms` rooms: each of `max_rooms` tries draws a room and
/// keeps it when it shares no cell with a kept room, carves it out of a grid of
/// walls (`true` is a wall) and joins it to the previously kept room by a
/// corridor. Returns the kept rooms and the grid, `map_height` rows of
/// `map_width` cells.
pub fn generate_dungeon(
    map_width: usize,
    map_height: usize,
    max_rooms: usize,
    room_min_size: usize,
    room_max_size: usize,
    rng: &mut Rng,
) -> (out: (Vec<Room>, Vec<Vec<bool>>))
    requires
        max_rooms == 0 || dungeon_ok(map_width, map_height, room_min_size, room_max_size),
        size_draws_ok(old(rng)@, max_rooms as nat, room_min_size, room_max_size),
    ensures
        out.0@ == placed_rooms(
            old(rng)@,
            max_rooms as nat,
            map_width,
            map_height,
            room_min_size,
            room_max_size,
        ),
        final(rng)@ == lcg_iter(old(rng)@, (4 * max_rooms) as nat),
        out.0@.len() <= max_rooms,
        forall|i: int, j: int|
            0 <= i < j < out.0@.len() ==> !rooms_intersect(#[trigger] out.0@[i], #[trigger] out.0@[j]),
        forall|i: int|
            0 <= i < out.0@.len() ==> room_inside(
                #[trigger] out.0@[i],
                map_width as int,
                map_height as int,
            ),
        out.1@.len() == map_height,
        forall|y: int| 0 <= y < map_height ==> (#[trigger] out.1@[y])@.len() == map_width,
        forall|y: int, x: int|
            0 <= y < map_height && 0 <= x < map_width ==> #[trigger] out.1@[y]@[x] == !open_cell(
                out.0@,
                x,
                y,
            ),
        forall|i: int, y: int|
            0 < i < out.0@.len() && imin(center_y(out.0@[i - 1]), center_y(out.0@[i])) <= y
                <= imax(center_y(out.0@[i - 1]), center_y(out.0@[i])) ==> !#[trigger] out.1@[y]@[center_x(
                out.0@[i],
            )],
        forall|i: int, x: int|
            0 < i < out.0@.len() && imin(center_x(out.0@[i - 1]), center_x(out.0@[i])) <= x
                <= imax(center_x(out.0@[i - 1]), center_x(out.0@[i])) ==> !#[trigger] out.1@[center_y(
                out.0@[i - 1],
            )]@[x],
{
    let ghost s0 = rng@;
    let ghost mw = map_width as int;
    let ghost mh = map_height as int;
    let mut rooms: Vec<Room> = Vec::new();
    let mut grid = all_walls(map_width, map_height);
    let mut i: usize = 0;
    while i < max_rooms
        invariant
            max_rooms == 0 || dungeon_ok(map_width, map_height, room_min_size, room_max_size),
            size_draws_ok(s0, max_rooms as nat, room_min_size, room_max_size),
            mw == map_width,
            mh == map_height,
            i <= max_rooms,
            rng@ == lcg_iter(s0, (4 * i) as nat),
            rooms@ == placed_rooms(s0, i as nat, map_width, map_height, room_min_size, room_max_size),
            rooms@.len() <= i,
            forall|a: int, b: int|
                0 <= a < b < rooms@.len() ==> !rooms_intersect(#[trigger] rooms@[a], #[trigger] rooms@[b]),
            forall|a: int| 0 <= a < rooms@.len() ==> room_inside(#[trigger] rooms@[a], mw, mh),
            grid@.len() == map_height,
            forall|y: int| 0 <= y < map_height ==> (#[trigger] grid@[y])@.len() == map_width,
            forall|y: int, x: int|
                0 <= y < map_height && 0 <= x < map_width ==> #[trigger] grid@[y]@[x] == !open_cell(
                    rooms@,
                    x,
                    y,
                ),
        decreases max_rooms - i,
    {
        let ghost si = rng@;
        proof {
            if room_min_size == room_max_size + 1 {
                assert(good_size_draws(lcg_iter(s0, 4 * (i as nat))));
            }
        }
        let new_room = draw(rng, map_width, map_height, room_min_size, room_max_size);
        proof {
            lemma_lcg_iter_step(s0, 4 * i as nat);
            lemma_lcg_iter_step(s0, 4 * i as nat + 1);
            lemma_lcg_iter_step(s0, 4 * i as nat + 2);
            lemma_lcg_iter_step(s0, 4 * i as nat + 3);
        }
        let ghost rooms0 = rooms@;
        let intersects = any_intersects(&rooms, &new_room, Ghost(mw), Ghost(mh));
        if !intersects {
            carve(&mut grid, &rooms, new_room, Ghost(mw), Ghost(mh));
            rooms.push(new_room);
            proof {
                assert forall|a: int, b: int|
                    0 <= a < b < rooms@.len() implies !rooms_intersect(
                    #[trigger] rooms@[a],
                    #[trigger] rooms@[b],
                ) by {
                    if b < rooms0.len() {
                        assert(rooms@[a] == rooms0[a] && rooms@[b] == rooms0[b]);
                    } else {
                        assert(rooms@[a] == rooms0[a]);
                        assert(!rooms_intersect(rooms0[a], new_room));
                    }
                }
                assert forall|a: int| 0 <= a < rooms@.len() implies room_inside(
                    #[trigger] rooms@[a],
                    mw,
                    mh,
                ) by {
                    if a < rooms0.len() {
                        assert(rooms@[a] == rooms0[a]);
                    }
                }
            }
        }
        i += 1;
    }
    proof {
        assert forall|i: int, y: int|
            0 < i < rooms@.len() && imin(center_y(rooms@[i - 1]), center_y(rooms@[i])) <= y
                <= imax(center_y(rooms@[i - 1]), center_y(rooms@[i])) implies !#[trigger] grid@[y]@[center_x(
            rooms@[i],
        )] by {
            assert(room_inside(rooms@[i], mw, mh));
            assert(room_inside(rooms@[i - 1], mw, mh));
            lemma_corridor_open(rooms@, i, center_x(rooms@[i]), y);
        }
        assert forall|i: int, x: int|
            0 < i < rooms@.len() && imin(center_x(rooms@[i - 1]), center_x(rooms@[i])) <= x
                <= imax(center_x(rooms@[i - 1]), center_x(rooms@[i])) implies !#[trigger] grid@[center_y(
            rooms@[i - 1],
        )]@[x] by {
            assert(room_inside(rooms@[i], mw, mh));
            assert(room_inside(rooms@[i - 1], mw, mh));
            lemma_corridor_open(rooms@, i, x, center_y(rooms@[i - 1]));
        }
    }
    (rooms, grid)
}

/// Four more draws after the first `4 * k`, the first two of which are not
/// `i32::MIN`, extend the good size draws by one room.
proof fn lemma_draws_extend(s0: u64, k: nat, sk: u64)
    requires
        sk == lcg_iter(s0, 4 * k),
        forall|j: nat| j < k ==> #[trigger] good_size_draws(lcg_iter(s0, 4 * j)),
        good_size_draws(sk),
    ensures
        lcg_iter(s0, 4 * (k + 1)) == lcg_step(lcg_step(lcg_step(lcg_step(sk)))),
        forall|j: nat| j < k + 1 ==> #[trigger] good_size_draws(lcg_iter(s0, 4 * j)),
{
    lemma_lcg_iter_step(s0, 4 * k);
    lemma_lcg_iter_step(s0, 4 * k + 1);
    lemma_lcg_iter_step(s0, 4 * k + 2);
    lemma_lcg_iter_step(s0, 4 * k + 3);
    assert(4 * (k + 1) == 4 * k + 3 + 1);
}

/// Makes the four draws of one room and tells whether its two size draws are
/// good.
fn room_draws(rng: &mut Rng) -> (good: bool)
    ensures
        final(rng)@ == lcg_step(lcg_step(lcg_step(lcg_step(old(rng)@)))),
        good == good_size_draws(old(rng)@),
{
    let a = rng.next_u32();
    let b = rng.next_u32();
    rng.next_u32();
    rng.next_u32();
    a as i32 != i32::MIN && b as i32 != i32::MIN
}

/// Whether `generate_dungeon` accepts these inputs with `rng` in its present
/// state: the sizes and the map fit every draw, and with `room_min_size` one
/// above `room_max_size` no size draw is `i32::MIN`.
pub fn dungeon_inputs_ok(
    rng: &Rng,
    map_width: usize,
    map_height: usize,
    max_rooms: usize,
    room_min_size: usize,
    room_max_size: usize,
) -> (r: bool)
    ensures
        r == ((max_rooms == 0 || dungeon_ok(map_width, map_height, room_min_size, room_max_size))
            && size_draws_ok(rng@, max_rooms as nat, room_min_size, room_max_size)),
{
    let lo = room_min_size;
    let hi = room_max_size;
    if max_rooms > 0 {
        if lo > 0x7fff_ffff || hi > 0x7fff_ffff || lo == hi || map_width > 0x7fff_ffff
            || map_height > 0x7fff_ffff {
            return false;
        }
        let span: u64 = if hi >= lo { (hi - lo) as u64 } else { (lo - hi) as u64 };
        let need: u64 = lo as u64 + span + 2;
        if need > map_width as u64 || need > map_height as u64 {
            return false;
        }
    }
    if hi == usize::MAX || lo != hi + 1 {
        return true;
    }
    let ghost s0 = rng@;
    let mut probe = Rng { state: rng.state };
    assert(lcg_iter(s0, 0) == s0);
    let mut k: usize = 0;
    while k < max_rooms
        invariant
            lo == hi + 1,
            lo == room_min_size,
            hi == room_max_size,
            rng@ == s0,
            max_rooms == 0 || dungeon_ok(map_width, map_height, room_min_size, room_max_size),
            k <= max_rooms,
            probe@ == lcg_iter(s0, 4 * (k as nat)),
            forall|j: nat| j < k ==> #[trigger] good_size_draws(lcg_iter(s0, 4 * j)),
        decreases max_rooms - k,
    {
        let ghost sk = probe@;
        let good = room_draws(&mut probe);
        if !good {
            assert(!good_size_draws(lcg_iter(s0, 4 * (k as nat))));
            return false;
        }
        proof {
            lemma_draws_extend(s0, k as nat, sk);
        }
        k += 1;
    }
    true
}

// ---------------------------------------------------------------------------
// Names
// ---------------------------------------------------------------------------

/// The `k` syllables drawn from state `s`, joined.
pub open spec fn name_parts(s: u64, k: nat, syl: Seq<&str>) -> Seq<char>
    decreases k,
{
    if k == 0 {
        Seq::empty()
    } else {
        syl[range_value(s, 0, syl.len() as i32)]@ + name_parts(lcg_step(s), (k - 1) as nat, syl)
    }
}

/// The name generated from `seed`: two or three syllables drawn after the
/// draw that decides their number.
pub open spec fn generated_name(seed: u64, syl: Seq<&str>) -> Seq<char> {
    name_parts(lcg_step(seed), range_value(seed, 2, 4) as nat, syl)
}

/// The positions of the `k` syllables drawn from state `s` among `n`.
pub open spec fn name_indices(s: u64, k: nat, n: i32) -> Seq<int>
    decreases k,
{
    if k == 0 {
        Seq::empty()
    } else {
        seq![range_value(s, 0, n)] + name_indices(lcg_step(s), (k - 1) as nat, n)
    }
}

/// The syllables at positions `idx`, joined.
pub open spec fn joined(syl: Seq<&str>, idx: Seq<int>) -> Seq<char>
    decreases idx.len(),
{
    if idx.len() == 0 {
        Seq::empty()
    } else {
        syl[idx[0]]@ + joined(syl, idx.drop_first())
    }
}

proof fn lemma_name_parts_indices(s: u64, k: nat, syl: Seq<&str>)
    requires
        0 < syl.len() <= i32::MAX,
    ensures
        name_indices(s, k, syl.len() as i32).len() == k,
        forall|i: int|
            0 <= i < k ==> 0 <= #[trigger] name_indices(s, k, syl.len() as i32)[i] < syl.len(),
        name_parts(s, k, syl) == joined(syl, name_indices(s, k, syl.len() as i32)),
    decreases k,
{
    if k > 0 {
        let n = syl.len() as i32;
        lemma_name_parts_indices(lcg_step(s), (k - 1) as nat, syl);
        let rest = name_indices(lcg_step(s), (k - 1) as nat, n);
        let idx = name_indices(s, k, n);
        assert(idx == seq![range_value(s, 0, n)] + rest);
        assert(idx.drop_first() =~= rest);
        assert forall|i: int| 0 <= i < k implies 0 <= #[trigger] idx[i] < syl.len() by {
            if i > 0 {
                assert(idx[i] == rest[i - 1]);
            }
        }
    }
}

/// A generated name is two or three syllables of the list, joined; being a
/// function of the seed and the list, it is the same on every call.
pub proof fn lemma_generated_name_syllables(seed: u64, syl: Seq<&str>)
    requires
        0 < syl.len() <= i32::MAX,
    ensures
        ({
            let idx = name_indices(lcg_step(seed), range_value(seed, 2, 4) as nat, syl.len() as i32);
            &&& 2 <= idx.len() <= 3
            &&& forall|i: int| 0 <= i < idx.len() ==> 0 <= #[trigger] idx[i] < syl.len()
            &&& generated_name(seed, syl) == joined(syl, idx)
        }),
{
    assert(2 <= range_value(seed, 2, 4) < 4);
    lemma_name_parts_indices(lcg_step(seed), range_value(seed, 2, 4) as nat, syl);
}

/// A name of two or three syllables picked by a generator seeded with `seed`.
pub fn hash_name(seed: u64, syllables: &[&str]) -> (name: String)
    requires
        0 < syllables@.len() <= i32::MAX,
    ensures
        name@ == generated_name(seed, syllables@),
{
    let mut rng = Rng::new(seed);
    let count = rng.range(2, 4);
    let mut out = String::new();
    let mut i: i32 = 0;
    while i < count
        invariant
            0 < syllables@.len() <= i32::MAX,
            2 <= count < 4,
            0 <= i <= count,
            out@ + name_parts(rng@, (count - i) as nat, syllables@) == name_parts(
                lcg_step(seed),
                count as nat,
                syllables@,
            ),
        decreases count - i,
    {
        let ghost s = rng@;
        let ghost before = out@;
        let k = rng.range(0, syllables.len() as i32) as usize;
        push_str(&mut out, syllables[k]);
        proof {
            let rest = name_parts(rng@, (count - i - 1) as nat, syllables@);
            assert(name_parts(s, (count - i) as nat, syllables@) == syllables@[k as int]@ + rest);
            assert(before + (syllables@[k as int]@ + rest) =~= (before + syllables@[k as int]@)
                + rest);
        }
        i += 1;
    }
    assert(out@ + Seq::<char>::empty() =~= out@);
    out
}

} // verus!
