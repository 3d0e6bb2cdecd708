//! Grid pathfinding: positions, a grid map with walls, and A* search with the
//! Manhattan distance as its estimate.
use vstd::prelude::*;
use vstd::set_lib::{set_int_range, lemma_int_range, lemma_len_subset};

verus! {

broadcast use vstd::set::group_set_axioms;

#[derive(Clone, Copy, Debug, PartialEq, Eq, Hash, Structural)]
pub struct GridPos {
    pub x: i32,
    pub y: i32,
}

pub open spec fn abs(v: int) -> int {
    if v < 0 {
        -v
    } else {
        v
    }
}

/// Manhattan distance between two positions.
pub open spec fn manhattan(a: GridPos, b: GridPos) -> int {
    abs(a.x - b.x) + abs(a.y - b.y)
}

/// `a` and `b` are one step apart horizontally or vertically.
pub open spec fn adjacent(a: GridPos, b: GridPos) -> bool {
    manhattan(a, b) == 1
}

/// The position moved by `(dx, dy)`.
pub open spec fn shifted(p: GridPos, dx: int, dy: int) -> GridPos {
    GridPos { x: (p.x + dx) as i32, y: (p.y + dy) as i32 }
}

/// Neither coordinate is at the edge of the `i32` range.
pub open spec fn inner(p: GridPos) -> bool {
    i32::MIN < p.x < i32::MAX && i32::MIN < p.y < i32::MAX
}

impl GridPos {
    pub fn new(x: i32, y: i32) -> (p: Self)
        ensures
            p == (GridPos { x, y }),
    {
        Self { x, y }
    }

    /// Manhattan distance (for movement in four directions).
    pub fn manhattan_distance(&self, other: &GridPos) -> (d: i32)
        requires
            i32::MIN < self.x - other.x <= i32::MAX,
            i32::MIN < self.y - other.y <= i32::MAX,
            manhattan(*self, *other) <= i32::MAX,
        ensures
            d == manhattan(*self, *other),
    {
        let dx = self.x - other.x;
        let dy = self.y - other.y;
        let ax = if dx < 0 { -dx } else { dx };
        let ay = if dy < 0 { -dy } else { dy };
        ax + ay
    }

    /// Right, left, down, up.
    pub fn neighbors_4(&self) -> (v: Vec<GridPos>)
        requires
            inner(*self),
        ensures
            v@ == seq![
                shifted(*self, 1, 0),
                shifted(*self, -1, 0),
                shifted(*self, 0, 1),
                shifted(*self, 0, -1),
            ],
    {
        let mut v = Vec::new();
        v.push(GridPos::new(self.x + 1, self.y));
        v.push(GridPos::new(self.x - 1, self.y));
        v.push(GridPos::new(self.x, self.y + 1));
        v.push(GridPos::new(self.x, self.y - 1));
        assert(v@ =~= seq![
            shifted(*self, 1, 0),
            shifted(*self, -1, 0),
            shifted(*self, 0, 1),
            shifted(*self, 0, -1),
        ]);
        v
    }

    /// The eight surrounding positions, column by column from the left.
    pub fn neighbors_8(&self) -> (v: Vec<GridPos>)
        requires
            inner(*self),
        ensures
            v@ == seq![
                shifted(*self, -1, -1),
                shifted(*self, -1, 0),
                shifted(*self, -1, 1),
                shifted(*self, 0, -1),
                shifted(*self, 0, 1),
                shifted(*self, 1, -1),
                shifted(*self, 1, 0),
                shifted(*self, 1, 1),
            ],
    {
        let mut v = Vec::new();
        let mut dx: i32 = -1;
        while dx <= 1
            invariant
                inner(*self),
                -1 <= dx <= 2,
                v.len() == 3 * (dx + 1) - if dx >= 1 { 1int } else { 0int },
                forall|i: int|
                    0 <= i < v.len() ==> #[trigger] v@[i] == seq![
                        shifted(*self, -1, -1),
                        shifted(*self, -1, 0),
                        shifted(*self, -1, 1),
                        shifted(*self, 0, -1),
                        shifted(*self, 0, 1),
                        shifted(*self, 1, -1),
                        shifted(*self, 1, 0),
                        shifted(*self, 1, 1),
                    ][i],
            decreases 2 - dx,
        {
            let mut dy: i32 = -1;
            let ghost start_len = v.len();
            while dy <= 1
                invariant
                    inner(*self),
                    -1 <= dx <= 1,
                    -1 <= dy <= 2,
                    start_len == 3 * (dx + 1) - if dx >= 1 { 1int } else { 0int },
                    v.len() == start_len + (dy + 1) - if dx == 0 && dy >= 1 { 1int } else { 0int },
                    forall|i: int|
                        0 <= i < v.len() ==> #[trigger] v@[i] == seq![
                            shifted(*self, -1, -1),
                            shifted(*self, -1, 0),
                            shifted(*self, -1, 1),
                            shifted(*self, 0, -1),
                            shifted(*self, 0, 1),
                            shifted(*self, 1, -1),
                            shifted(*self, 1, 0),
                            shifted(*self, 1, 1),
                        ][i],
                decreases 2 - dy,
            {
                if !(dx == 0 && dy == 0) {
                    v.push(GridPos::new(self.x + dx, self.y + dy));
                }
                dy += 1;
            }
            dx += 1;
        }
        assert(v@ =~= seq![
            shifted(*self, -1, -1),
            shifted(*self, -1, 0),
            shifted(*self, -1, 1),
            shifted(*self, 0, -1),
            shifted(*self, 0, 1),
            shifted(*self, 1, -1),
            shifted(*self, 1, 0),
            shifted(*self, 1, 1),
        ]);
        v
    }
}

/// A grid of `width` by `height` cells, some of them walls.
#[derive(Clone, Debug)]
pub struct GridMap {
    pub width: i32,
    pub height: i32,
    pub walls: Vec<GridPos>,
}

/// `p` lies inside a `width` by `height` grid.
pub open spec fn in_bounds(width: int, height: int, p: GridPos) -> bool {
    0 <= p.x < width && 0 <= p.y < height
}

impl GridMap {
    /// `p` is inside the grid and not a wall.
    pub open spec fn walkable(self, p: GridPos) -> bool {
        in_bounds(self.width as int, self.height as int, p) && !self.walls@.contains(p)
    }

    pub fn new(width: i32, height: i32) -> (m: Self)
        ensures
            m.width == width,
            m.height == height,
            m.walls@ == Seq::<GridPos>::empty(),
    {
        Self { width, height, walls: Vec::new() }
    }

    /// Makes `pos` a wall; a wall already there is not added again.
    pub fn add_wall(&mut self, pos: GridPos)
        ensures
            final(self).width == old(self).width,
            final(self).height == old(self).height,
            final(self).walls@ == if old(self).walls@.contains(pos) {
                old(self).walls@
            } else {
                old(self).walls@.push(pos)
            },
            final(self).walls@.to_set() == old(self).walls@.to_set().insert(pos),
            old(self).walls@.no_duplicates() ==> final(self).walls@.no_duplicates(),
    {
        if contains_pos(&self.walls, pos) {
            assert(self.walls@.to_set() =~= old(self).walls@.to_set().insert(pos));
            return;
        }
        let ghost w = self.walls@;
        self.walls.push(pos);
        assert(self.walls@ == w.push(pos));
        assert(self.walls@.to_set() =~= w.to_set().insert(pos)) by {
            assert forall|p: GridPos| self.walls@.contains(p) <==> (w.contains(p) || p == pos) by {
                if self.walls@.contains(p) {
                    let i = choose|i: int| 0 <= i < self.walls@.len() && self.walls@[i] == p;
                    if i < w.len() {
                        assert(w[i] == p);
                    }
                }
                if w.contains(p) {
                    let i = choose|i: int| 0 <= i < w.len() && w[i] == p;
                    assert(self.walls@[i] == p);
                }
                if p == pos {
                    assert(self.walls@[self.walls@.len() - 1] == pos);
                }
            }
        }
        assert(w.no_duplicates() ==> self.walls@.no_duplicates()) by {
            if w.no_duplicates() {
                let c = self.walls@;
                assert forall|a: int, b: int|
                    0 <= a < c.len() && 0 <= b < c.len() && a != b implies c[a] != c[b] by {
                    if a == w.len() as int {
                        assert(c[b] == w[b]);
                        assert(w.contains(w[b]));
                    } else if b == w.len() as int {
                        assert(c[a] == w[a]);
                        assert(w.contains(w[a]));
                    }
                }
            }
        }
    }

    /// Whether `pos` is inside the grid and not a wall.
    pub fn is_walkable(&self, pos: &GridPos) -> (r: bool)
        ensures
            r == self.walkable(*pos),
    {
        if !(pos.x >= 0 && pos.y >= 0 && pos.x < self.width && pos.y < self.height) {
            return false;
        }
        let mut i: usize = 0;
        while i < self.walls.len()
            invariant
                i <= self.walls.len(),
                forall|j: int| 0 <= j < i ==> self.walls@[j] != *pos,
            decreases self.walls.len() - i,
        {
            if self.walls[i] == *pos {
                return false;
            }
            i += 1;
        }
        true
    }

    /// One per step onto a walkable cell, `i32::MAX` otherwise.
    pub fn cost(&self, _from: &GridPos, to: &GridPos) -> (c: i32)
        ensures
            c == (if self.walkable(*to) {
                1
            } else {
                i32::MAX
            }),
    {
        if self.is_walkable(to) {
            1
        } else {
            i32::MAX
        }
    }
}

/// `path` goes one step at a time over walkable cells.
pub open spec fn is_path(map: GridMap, path: Seq<GridPos>) -> bool {
    &&& path.len() >= 1
    &&& forall|i: int| 0 <= i < path.len() ==> map.walkable(#[trigger] path[i])
    &&& forall|i: int| 0 <= i < path.len() - 1 ==> adjacent(#[trigger] path[i], path[i + 1])
}

/// Some path leads from `start` to `goal`.
pub open spec fn reachable(map: GridMap, start: GridPos, goal: GridPos) -> bool {
    exists|path: Seq<GridPos>| is_path(map, path) && path[0] == start && path.last() == goal
}

// ---------------------------------------------------------------------------
// Association lists keyed by position
// ---------------------------------------------------------------------------

pub open spec fn has_key<V>(s: Seq<(GridPos, V)>, p: GridPos) -> bool {
    exists|i: int| 0 <= i < s.len() && (#[trigger] s[i]).0 == p
}

pub open spec fn keys_distinct<V>(s: Seq<(GridPos, V)>) -> bool {
    forall|i: int, j: int|
        0 <= i < s.len() && 0 <= j < s.len() && i != j ==> (#[trigger] s[i]).0 != (
        #[trigger] s[j]).0
}

pub open spec fn value_of<V>(s: Seq<(GridPos, V)>, p: GridPos) -> V {
    s[choose|i: int| 0 <= i < s.len() && (#[trigger] s[i]).0 == p].1
}

proof fn lemma_value_at<V>(s: Seq<(GridPos, V)>, i: int)
    requires
        keys_distinct(s),
        0 <= i < s.len(),
    ensures
        has_key(s, s[i].0),
        value_of(s, s[i].0) == s[i].1,
{
    let j = choose|j: int| 0 <= j < s.len() && (#[trigger] s[j]).0 == s[i].0;
    assert(s[j].0 == s[i].0);
}

fn find_key<V: Copy>(s: &Vec<(GridPos, V)>, p: GridPos) -> (r: Option<usize>)
    requires
        keys_distinct(s@),
    ensures
        match r {
            Some(i) => i < s.len() && s@[i as int].0 == p && has_key(s@, p) && value_of(s@, p)
                == s@[i as int].1,
            None => !has_key(s@, p),
        },
{
    let mut i: usize = 0;
    while i < s.len()
        invariant
            i <= s.len(),
            keys_distinct(s@),
            forall|j: int| 0 <= j < i ==> (#[trigger] s@[j]).0 != p,
        decreases s.len() - i,
    {
        if s[i].0 == p {
            proof {
                lemma_value_at(s@, i as int);
            }
            return Some(i);
        }
        i += 1;
    }
    None
}

/// Sets the value of `p`, adding it when absent.
fn put_key<V: Copy>(s: &mut Vec<(GridPos, V)>, p: GridPos, v: V)
    requires
        keys_distinct(old(s)@),
    ensures
        keys_distinct(final(s)@),
        has_key(final(s)@, p),
        value_of(final(s)@, p) == v,
        forall|q: GridPos| q != p ==> (has_key(final(s)@, q) <==> has_key(old(s)@, q)),
        forall|q: GridPos| q != p && has_key(old(s)@, q) ==> value_of(final(s)@, q) == value_of(
            old(s)@,
            q,
        ),
{
    match find_key(s, p) {
        Some(i) => {
            let ghost s0 = s@;
            s.set(i, (p, v));
            proof {
                assert forall|k: int| 0 <= k < s@.len() implies (#[trigger] s@[k]).0 == s0[k].0 by {
                    if k != i {
                        assert(s@[k] == s0[k]);
                    }
                }
                assert forall|a: int, b: int|
                    0 <= a < s@.len() && 0 <= b < s@.len() && a != b implies (#[trigger] s@[a]).0
                    != (#[trigger] s@[b]).0 by {
                    assert(s@[a].0 == s0[a].0 && s@[b].0 == s0[b].0);
                }
                assert forall|q: GridPos| q != p implies (has_key(s@, q) <==> has_key(s0, q)) by {
                    if has_key(s@, q) {
                        let j = choose|j: int| 0 <= j < s@.len() && (#[trigger] s@[j]).0 == q;
                        assert(s0[j] == s@[j]);
                    }
                    if has_key(s0, q) {
                        let j = choose|j: int| 0 <= j < s0.len() && (#[trigger] s0[j]).0 == q;
                        assert(s0[j] == s@[j]);
                    }
                }
                lemma_value_at(s@, i as int);
                assert forall|q: GridPos| q != p && has_key(s0, q) implies value_of(s@, q)
                    == value_of(s0, q) by {
                    let j = choose|j: int| 0 <= j < s0.len() && (#[trigger] s0[j]).0 == q;
                    lemma_value_at(s0, j);
                    assert(s@[j] == s0[j]);
                    lemma_value_at(s@, j);
                }
            }
        },
        None => {
            let ghost s0 = s@;
            s.push((p, v));
            proof {
                assert forall|q: GridPos| q != p implies (has_key(s@, q) <==> has_key(s0, q)) by {
                    if has_key(s@, q) {
                        let j = choose|j: int| 0 <= j < s@.len() && (#[trigger] s@[j]).0 == q;
                        assert(j < s0.len());
                        assert(s0[j] == s@[j]);
                    }
                    if has_key(s0, q) {
                        let j = choose|j: int| 0 <= j < s0.len() && (#[trigger] s0[j]).0 == q;
                        assert(s0[j] == s@[j]);
                    }
                }
                assert forall|i: int, j: int|
                    0 <= i < s@.len() && 0 <= j < s@.len() && i != j implies (#[trigger] s@[i]).0
                    != (#[trigger] s@[j]).0 by {
                    if i < s0.len() && j < s0.len() {
                        assert(s@[i] == s0[i] && s@[j] == s0[j]);
                    } else if i < s0.len() {
                        assert(s@[i] == s0[i]);
                    } else if j < s0.len() {
                        assert(s@[j] == s0[j]);
                    }
                }
                lemma_value_at(s@, s0.len() as int);
                assert forall|q: GridPos| q != p && has_key(s0, q) implies value_of(s@, q)
                    == value_of(s0, q) by {
                    let j = choose|j: int| 0 <= j < s0.len() && (#[trigger] s0[j]).0 == q;
                    lemma_value_at(s0, j);
                    assert(s@[j] == s0[j]);
                    lemma_value_at(s@, j);
                }
            }
        },
    }
}

fn contains_pos(s: &Vec<GridPos>, p: GridPos) -> (r: bool)
    ensures
        r == s@.contains(p),
{
    let mut i: usize = 0;
    while i < s.len()
        invariant
            i <= s.len(),
            forall|j: int| 0 <= j < i ==> s@[j] != p,
        decreases s.len() - i,
    {
        if s[i] == p {
            return true;
        }
        i += 1;
    }
    false
}

/// Distinct cells of a `w` by `h` grid are at most `w * h`.
proof fn lemma_cells_bound(s: Seq<GridPos>, w: int, h: int)
    requires
        0 <= w,
        0 <= h,
        s.no_duplicates(),
        forall|i: int| 0 <= i < s.len() ==> in_bounds(w, h, #[trigger] s[i]),
    ensures
        s.len() <= w * h,
{
    let t = s.map_values(|p: GridPos| p.y * w + p.x);
    assert forall|i: int| 0 <= i < t.len() implies 0 <= #[trigger] t[i] < w * h by {
        let p = s[i];
        assert(in_bounds(w, h, p));
        assert(0 <= p.y * w + p.x < w * h) by (nonlinear_arith)
            requires
                0 <= p.x < w,
                0 <= p.y < h,
        ;
    }
    assert(t.no_duplicates()) by {
        assert forall|i: int, j: int| 0 <= i < t.len() && 0 <= j < t.len() && i != j implies t[i]
            != t[j] by {
            let a = s[i];
            let b = s[j];
            assert(in_bounds(w, h, a) && in_bounds(w, h, b));
            if t[i] == t[j] {
                assert(a.y == b.y && a.x == b.x) by (nonlinear_arith)
                    requires
                        a.y * w + a.x == b.y * w + b.x,
                        0 <= a.x < w,
                        0 <= b.x < w,
                ;
                assert(a == b);
            }
        }
    }
    t.unique_seq_to_set();
    lemma_int_range(0, w * h);
    assert(t.to_set().subset_of(set_int_range(0, w * h)));
    lemma_len_subset(t.to_set(), set_int_range(0, w * h));
}

/// Some entry of the open list is at `p`.
pub open spec fn has_open(open: Seq<(i64, GridPos)>, p: GridPos) -> bool {
    exists|i: int| 0 <= i < open.len() && (#[trigger] open[i]).1 == p
}

/// Every walkable neighbour of `c` is closed, or reached at a cost at most one
/// more than that of `c`.
#[verifier::opaque]
pub open spec fn expanded(
    map: GridMap,
    closed: Seq<GridPos>,
    gs: Seq<(GridPos, i64)>,
    c: GridPos,
) -> bool {
    forall|n: GridPos|
        #[trigger] adjacent(c, n) && map.walkable(n) ==> closed.contains(n) || (has_key(gs, n)
            && value_of(gs, n) <= value_of(gs, c) + 1)
}

/// Every reached cell other than `start` has a closed parent one step away whose
/// cost is one less.
pub open spec fn parents_ok(
    closed: Seq<GridPos>,
    gs: Seq<(GridPos, i64)>,
    cf: Seq<(GridPos, GridPos)>,
    start: GridPos,
) -> bool {
    &&& has_key(gs, start)
    &&& value_of(gs, start) == 0
    &&& !has_key(cf, start)
    &&& forall|q: GridPos| #[trigger] has_key(gs, q) && q != start ==> has_key(cf, q)
    &&& forall|q: GridPos|
        #[trigger] has_key(cf, q) ==> {
            &&& has_key(gs, q)
            &&& closed.contains(value_of(cf, q))
            &&& adjacent(value_of(cf, q), q)
            &&& value_of(gs, value_of(cf, q)) + 1 == value_of(gs, q)
        }
}

/// The four cells one step from an inner position are exactly its neighbours.
proof fn lemma_adjacent_cases(c: GridPos, n: GridPos)
    requires
        inner(c),
        adjacent(c, n),
    ensures
        n == shifted(c, 1, 0) || n == shifted(c, -1, 0) || n == shifted(c, 0, 1) || n == shifted(
            c,
            0,
            -1,
        ),
{
}

proof fn lemma_shifted_adjacent(c: GridPos)
    requires
        inner(c),
    ensures
        adjacent(c, shifted(c, 1, 0)),
        adjacent(c, shifted(c, -1, 0)),
        adjacent(c, shifted(c, 0, 1)),
        adjacent(c, shifted(c, 0, -1)),
{
}

/// A set that holds the first cell of a path and every walkable neighbour of its
/// members holds the whole path.
proof fn lemma_closed_region(map: GridMap, closed: Seq<GridPos>, path: Seq<GridPos>, k: int)
    requires
        is_path(map, path),
        closed.contains(path[0]),
        forall|c: GridPos, n: GridPos|
            closed.contains(c) && #[trigger] adjacent(c, n) && map.walkable(n) ==> closed.contains(
                n,
            ),
        0 <= k < path.len(),
    ensures
        closed.contains(path[k]),
    decreases k,
{
    if k > 0 {
        lemma_closed_region(map, closed, path, k - 1);
        assert(adjacent(path[k - 1], path[k]));
        assert(map.walkable(path[k]));
    }
}

/// Follows the parent links back from `goal` to `start` and returns the cells
/// from `start` to `goal`.
fn reconstruct(
    map: &GridMap,
    gs: &Vec<(GridPos, i64)>,
    cf: &Vec<(GridPos, GridPos)>,
    Ghost(closed): Ghost<Seq<GridPos>>,
    start: GridPos,
    goal: GridPos,
) -> (path: Vec<GridPos>)
    requires
        keys_distinct(gs@),
        keys_distinct(cf@),
        parents_ok(closed, gs@, cf@, start),
        forall|i: int| 0 <= i < gs@.len() ==> 0 <= (#[trigger] gs@[i]).1,
        forall|i: int| 0 <= i < closed.len() ==> map.walkable(#[trigger] closed[i]),
        forall|i: int| 0 <= i < closed.len() ==> has_key(gs@, #[trigger] closed[i]),
        has_key(gs@, goal),
        map.walkable(goal),
    ensures
        is_path(*map, path@),
        path@[0] == start,
        path@.last() == goal,
        path@.len() == value_of(gs@, goal) + 1,
{
    let mut rev: Vec<GridPos> = Vec::new();
    rev.push(goal);
    let mut node = goal;
    let mut done = false;
    while !done
        invariant
            keys_distinct(gs@),
            keys_distinct(cf@),
            parents_ok(closed, gs@, cf@, start),
            forall|i: int| 0 <= i < gs@.len() ==> 0 <= (#[trigger] gs@[i]).1,
            forall|i: int| 0 <= i < closed.len() ==> map.walkable(#[trigger] closed[i]),
            forall|i: int| 0 <= i < closed.len() ==> has_key(gs@, #[trigger] closed[i]),
            has_key(gs@, node),
            rev@.len() >= 1,
            rev@[0] == goal,
            rev@.last() == node,
            rev@.len() == value_of(gs@, goal) - value_of(gs@, node) + 1,
            forall|i: int| 0 <= i < rev@.len() ==> map.walkable(#[trigger] rev@[i]),
            forall|i: int| 0 <= i < rev@.len() - 1 ==> adjacent(#[trigger] rev@[i + 1], rev@[i]),
            done ==> node == start,
        decreases (if done { 0int } else { value_of(gs@, node) + 1 }),
    {
        proof {
            let j = choose|j: int| 0 <= j < gs@.len() && (#[trigger] gs@[j]).0 == node;
            lemma_value_at(gs@, j);
        }
        match find_key(cf, node) {
            Some(i) => {
                let prev = cf[i].1;
                proof {
                    assert(has_key(cf@, node));
                    assert(closed.contains(prev));
                    let c = choose|c: int| 0 <= c < closed.len() && closed[c] == prev;
                    assert(map.walkable(closed[c]));
                    assert(has_key(gs@, prev));
                    let j = choose|j: int| 0 <= j < gs@.len() && (#[trigger] gs@[j]).0 == prev;
                    lemma_value_at(gs@, j);
                }
                let ghost old_rev = rev@;
                rev.push(prev);
                proof {
                    assert forall|k: int| 0 <= k < rev@.len() - 1 implies adjacent(
                        #[trigger] rev@[k + 1],
                        rev@[k],
                    ) by {
                        if k < old_rev.len() - 1 {
                            assert(rev@[k + 1] == old_rev[k + 1] && rev@[k] == old_rev[k]);
                        } else {
                            assert(rev@[k] == old_rev.last());
                        }
                    }
                    assert forall|k: int| 0 <= k < rev@.len() implies map.walkable(
                        #[trigger] rev@[k],
                    ) by {
                        if k < old_rev.len() {
                            assert(rev@[k] == old_rev[k]);
                        }
                    }
                }
                node = prev;
            },
            None => {
                done = true;
            },
        }
    }
    let n = rev.len();
    let mut path: Vec<GridPos> = Vec::new();
    let mut j = n;
    while j > 0
        invariant
            n == rev@.len(),
            n >= 1,
            j <= n,
            path@.len() == n - j,
            forall|k: int| 0 <= k < path@.len() ==> #[trigger] path@[k] == rev@[n - 1 - k],
        decreases j,
    {
        j -= 1;
        path.push(rev[j]);
    }
    proof {
        assert forall|k: int| 0 <= k < path@.len() - 1 implies adjacent(
            #[trigger] path@[k],
            path@[k + 1],
        ) by {
            assert(path@[k] == rev@[n - 1 - k]);
            assert(path@[k + 1] == rev@[n - 1 - (k + 1)]);
            assert(adjacent(rev@[(n - 2 - k) + 1], rev@[n - 2 - k]));
        }
        assert forall|k: int| 0 <= k < path@.len() implies map.walkable(#[trigger] path@[k]) by {
            assert(path@[k] == rev@[n - 1 - k]);
        }
        assert(path@[0] == rev@[n - 1]);
        assert(path@.last() == rev@[0]);
    }
    path
}

/// Index of an entry with the lowest estimate.
fn min_open(open: &Vec<(i64, GridPos)>) -> (k: usize)
    requires
        open.len() > 0,
    ensures
        k < open.len(),
        forall|i: int| 0 <= i < open.len() ==> open@[k as int].0 <= (#[trigger] open@[i]).0,
{
    let mut k: usize = 0;
    let mut i: usize = 1;
    while i < open.len()
        invariant
            open.len() > 0,
            k < open.len(),
            1 <= i <= open.len(),
            forall|j: int| 0 <= j < i ==> open@[k as int].0 <= (#[trigger] open@[j]).0,
        decreases open.len() - i,
    {
        if open[i].0 < open[k].0 {
            k = i;
        }
        i += 1;
    }
    k
}

/// The fixed facts of a search: a non-empty grid whose distances fit in `i32`
/// (so every cost and estimate fits in `i64`), and two distinct walkable end
/// cells.
spec fn search_setting(map: GridMap, start: GridPos, goal: GridPos) -> bool {
    &&& 0 < map.width
    &&& 0 < map.height
    &&& map.width + map.height <= i32::MAX
    &&& map.width * map.height <= 0x4000_0000_0000_0000
    &&& map.walkable(start)
    &&& map.walkable(goal)
    &&& start != goal
}

/// What the search keeps true between two steps: the closed cells, the costs
/// found so far, the parent links and the open list agree with each other.
#[verifier::opaque]
spec fn search_inv(
    map: GridMap,
    start: GridPos,
    goal: GridPos,
    closed: Seq<GridPos>,
    gs: Seq<(GridPos, i64)>,
    cf: Seq<(GridPos, GridPos)>,
    open: Seq<(i64, GridPos)>,
) -> bool {
    &&& closed.no_duplicates()
    &&& closed.len() <= map.width * map.height
    &&& forall|i: int|
        0 <= i < closed.len() ==> map.walkable(#[trigger] closed[i]) && has_key(gs, closed[i])
    &&& keys_distinct(gs)
    &&& keys_distinct(cf)
    &&& forall|i: int|
        0 <= i < gs.len() ==> map.walkable((#[trigger] gs[i]).0) && 0 <= gs[i].1 <= closed.len()
    &&& parents_ok(closed, gs, cf, start)
    &&& forall|i: int| 0 <= i < open.len() ==> has_key(gs, (#[trigger] open[i]).1)
    &&& forall|q: GridPos| #[trigger] has_key(gs, q) ==> closed.contains(q) || has_open(open, q)
    &&& !closed.contains(goal)
}

proof fn lemma_search_start(map: GridMap, start: GridPos, goal: GridPos, f: i64)
    requires
        search_setting(map, start, goal),
    ensures
        search_inv(
            map,
            start,
            goal,
            Seq::empty(),
            seq![(start, 0i64)],
            Seq::empty(),
            seq![(f, start)],
        ),
{
    reveal(search_inv);
    let gs = seq![(start, 0i64)];
    let open = seq![(f, start)];
    lemma_value_at(gs, 0);
    assert(has_open(open, start)) by {
        assert(open[0].1 == start);
    }
    assert forall|q: GridPos| #[trigger] has_key(gs, q) implies q == start by {}
}

proof fn lemma_skip(
    map: GridMap,
    start: GridPos,
    goal: GridPos,
    closed: Seq<GridPos>,
    gs: Seq<(GridPos, i64)>,
    cf: Seq<(GridPos, GridPos)>,
    open: Seq<(i64, GridPos)>,
    k: int,
)
    requires
        search_inv(map, start, goal, closed, gs, cf, open),
        0 <= k < open.len(),
        closed.contains(open[k].1),
    ensures
        search_inv(map, start, goal, closed, gs, cf, open.remove(k)),
{
    reveal(search_inv);
    let o = open.remove(k);
    assert forall|q: GridPos| #[trigger] has_key(gs, q) implies closed.contains(q) || has_open(
        o,
        q,
    ) by {
        if !closed.contains(q) {
            let j = choose|j: int| 0 <= j < open.len() && (#[trigger] open[j]).1 == q;
            if j < k {
                assert(o[j] == open[j]);
            } else {
                assert(o[j - 1] == open[j]);
            }
        }
    }
    assert forall|i: int| 0 <= i < o.len() implies has_key(gs, (#[trigger] o[i]).1) by {
        if i < k {
            assert(o[i] == open[i]);
        } else {
            assert(o[i] == open[i + 1]);
        }
    }
}

proof fn lemma_close(
    map: GridMap,
    start: GridPos,
    goal: GridPos,
    closed: Seq<GridPos>,
    gs: Seq<(GridPos, i64)>,
    cf: Seq<(GridPos, GridPos)>,
    open: Seq<(i64, GridPos)>,
    k: int,
)
    requires
        search_setting(map, start, goal),
        search_inv(map, start, goal, closed, gs, cf, open),
        0 <= k < open.len(),
        !closed.contains(open[k].1),
    ensures
        ({
            let cur = open[k].1;
            &&& map.walkable(cur)
            &&& has_key(gs, cur)
            &&& value_of(gs, cur) <= closed.len()
            &&& keys_distinct(gs)
            &&& keys_distinct(cf)
            &&& parents_ok(closed, gs, cf, start)
            &&& forall|i: int| 0 <= i < gs.len() ==> 0 <= (#[trigger] gs[i]).1
            &&& forall|i: int| 0 <= i < closed.len() ==> map.walkable(#[trigger] closed[i])
            &&& forall|i: int| 0 <= i < closed.len() ==> has_key(gs, #[trigger] closed[i])
            &&& cur != goal ==> search_inv(
                map,
                start,
                goal,
                closed.push(cur),
                gs,
                cf,
                open.remove(k),
            )
            &&& cur != goal ==> closed.push(cur).len() <= map.width * map.height
        }),
{
    reveal(search_inv);
    let cur = open[k].1;
    let c2 = closed.push(cur);
    let o = open.remove(k);
    let j = choose|j: int| 0 <= j < gs.len() && (#[trigger] gs[j]).0 == cur;
    lemma_value_at(gs, j);
    if cur != goal {
        assert forall|q: GridPos| closed.contains(q) implies c2.contains(q) by {
            let i = choose|i: int| 0 <= i < closed.len() && closed[i] == q;
            assert(c2[i] == q);
        }
        assert(c2[c2.len() - 1] == cur);
        assert forall|i: int| 0 <= i < c2.len() implies map.walkable(#[trigger] c2[i]) && has_key(
            gs,
            c2[i],
        ) by {
            if i < closed.len() {
                assert(c2[i] == closed[i]);
            }
        }
        assert(c2.no_duplicates()) by {
            assert forall|a: int, b: int|
                0 <= a < c2.len() && 0 <= b < c2.len() && a != b implies c2[a] != c2[b] by {
                if a < closed.len() && b < closed.len() {
                    assert(c2[a] == closed[a] && c2[b] == closed[b]);
                } else if a < closed.len() {
                    assert(c2[a] == closed[a]);
                } else if b < closed.len() {
                    assert(c2[b] == closed[b]);
                }
            }
        }
        assert forall|i: int| 0 <= i < c2.len() implies in_bounds(
            map.width as int,
            map.height as int,
            #[trigger] c2[i],
        ) by {
            assert(map.walkable(c2[i]));
        }
        lemma_cells_bound(c2, map.width as int, map.height as int);
        assert forall|q: GridPos| #[trigger] has_key(gs, q) implies c2.contains(q) || has_open(
            o,
            q,
        ) by {
            if !c2.contains(q) {
                let j = choose|j: int| 0 <= j < open.len() && (#[trigger] open[j]).1 == q;
                if j < k {
                    assert(o[j] == open[j]);
                } else if j > k {
                    assert(o[j - 1] == open[j]);
                }
            }
        }
        assert forall|i: int| 0 <= i < o.len() implies has_key(gs, (#[trigger] o[i]).1) by {
            if i < k {
                assert(o[i] == open[i]);
            } else {
                assert(o[i] == open[i + 1]);
            }
        }
        assert forall|q: GridPos| #[trigger] has_key(cf, q) implies c2.contains(value_of(cf, q)) by {
            assert(closed.contains(value_of(cf, q)));
        }
        assert(!c2.contains(goal)) by {
            if c2.contains(goal) {
                let i = choose|i: int| 0 <= i < c2.len() && c2[i] == goal;
                if i < closed.len() {
                    assert(closed[i] == goal);
                }
            }
        }
    }
}

/// Closing more cells and reaching more cells keeps every expanded cell expanded.
proof fn lemma_expanded_grow(
    map: GridMap,
    closed: Seq<GridPos>,
    gs: Seq<(GridPos, i64)>,
    closed2: Seq<GridPos>,
    gs2: Seq<(GridPos, i64)>,
    c: GridPos,
)
    requires
        expanded(map, closed, gs, c),
        forall|q: GridPos| closed.contains(q) ==> closed2.contains(q),
        forall|q: GridPos| has_key(gs, q) ==> has_key(gs2, q),
        forall|q: GridPos| has_key(gs, q) ==> value_of(gs2, q) <= value_of(gs, q),
        value_of(gs2, c) == value_of(gs, c),
    ensures
        expanded(map, closed2, gs2, c),
{
    reveal(expanded);
    assert forall|n: GridPos| #[trigger] adjacent(c, n) && map.walkable(n) implies closed2.contains(n)
        || (has_key(gs2, n) && value_of(gs2, n) <= value_of(gs2, c) + 1) by {
        if closed.contains(n) {
        } else {
            assert(has_key(gs, n));
        }
    }
}

/// No path from `start` to `c` takes fewer than `g` steps.
pub open spec fn no_shorter(map: GridMap, start: GridPos, c: GridPos, g: int) -> bool {
    forall|p: Seq<GridPos>|
        #[trigger] is_path(map, p) && p[0] == start && p.last() == c ==> g + 1 <= p.len()
}

/// Some entry of the open list is at `p` with estimate `f`.
pub open spec fn open_at(open: Seq<(i64, GridPos)>, p: GridPos, f: int) -> bool {
    exists|i: int| 0 <= i < open.len() && (#[trigger] open[i]).1 == p && open[i].0 == f
}

/// What makes the search find shortest paths: closed cells have their least
/// cost, every reached open cell has an entry with its current estimate, and no
/// entry underestimates the current cost of its cell plus the distance left.
#[verifier::opaque]
spec fn opt_inv(
    map: GridMap,
    start: GridPos,
    goal: GridPos,
    closed: Seq<GridPos>,
    gs: Seq<(GridPos, i64)>,
    open: Seq<(i64, GridPos)>,
) -> bool {
    &&& forall|i: int|
        0 <= i < closed.len() ==> no_shorter(
            map,
            start,
            #[trigger] closed[i],
            value_of(gs, closed[i]) as int,
        )
    &&& forall|q: GridPos|
        #[trigger] has_key(gs, q) && !closed.contains(q) ==> open_at(
            open,
            q,
            value_of(gs, q) + manhattan(q, goal),
        )
    &&& forall|i: int|
        0 <= i < open.len() ==> (#[trigger] open[i]).0 >= value_of(gs, open[i].1) + manhattan(
            open[i].1,
            goal,
        )
}

proof fn lemma_opt_start(map: GridMap, start: GridPos, goal: GridPos, f: i64)
    requires
        f == manhattan(start, goal),
    ensures
        opt_inv(map, start, goal, Seq::empty(), seq![(start, 0i64)], seq![(f, start)]),
{
    reveal(opt_inv);
    let gs = seq![(start, 0i64)];
    let open = seq![(f, start)];
    lemma_value_at(gs, 0);
    assert forall|q: GridPos| #[trigger] has_key(gs, q) implies q == start by {}
    assert(open[0].1 == start);
}

/// The first cells of a path form a path.
proof fn lemma_path_prefix(map: GridMap, p: Seq<GridPos>, j: int)
    requires
        is_path(map, p),
        1 <= j <= p.len(),
    ensures
        is_path(map, p.take(j)),
        p.take(j)[0] == p[0],
        p.take(j).last() == p[j - 1],
{
    let t = p.take(j);
    assert forall|i: int| 0 <= i < t.len() implies map.walkable(#[trigger] t[i]) by {
        assert(t[i] == p[i]);
    }
    assert forall|i: int| 0 <= i < t.len() - 1 implies adjacent(#[trigger] t[i], t[i + 1]) by {
        assert(t[i] == p[i] && t[i + 1] == p[i + 1]);
    }
}

/// A path from cell `j` on goes no further than its number of steps.
proof fn lemma_path_manhattan(map: GridMap, p: Seq<GridPos>, j: int)
    requires
        is_path(map, p),
        0 <= j < p.len(),
    ensures
        manhattan(p[j], p.last()) <= p.len() - 1 - j,
    decreases p.len() - j,
{
    if j < p.len() - 1 {
        lemma_path_manhattan(map, p, j + 1);
        assert(adjacent(p[j], p[j + 1]));
    }
}

/// The first cell of `p` from index `i` on that is not closed.
proof fn first_unclosed(closed: Seq<GridPos>, p: Seq<GridPos>, i: int) -> (j: int)
    requires
        0 <= i < p.len(),
        forall|k: int| 0 <= k < i ==> closed.contains(#[trigger] p[k]),
        !closed.contains(p.last()),
    ensures
        i <= j < p.len(),
        !closed.contains(p[j]),
        forall|k: int| 0 <= k < j ==> closed.contains(#[trigger] p[k]),
    decreases p.len() - i,
{
    if !closed.contains(p[i]) {
        i
    } else {
        first_unclosed(closed, p, i + 1)
    }
}

/// The start cell is reached at cost 0.
proof fn lemma_start_cost(
    map: GridMap,
    start: GridPos,
    goal: GridPos,
    closed: Seq<GridPos>,
    gs: Seq<(GridPos, i64)>,
    cf: Seq<(GridPos, GridPos)>,
    open: Seq<(i64, GridPos)>,
)
    requires
        search_inv(map, start, goal, closed, gs, cf, open),
    ensures
        has_key(gs, start),
        value_of(gs, start) == 0,
{
    reveal(search_inv);
}

/// A path `p` to the open cell `cur` with the lowest estimate takes at least
/// the cost of `cur`: it leaves the closed cells at some cell whose estimate is
/// no lower, and the distance left never drops faster than the steps taken.
proof fn lemma_path_not_shorter(
    map: GridMap,
    start: GridPos,
    goal: GridPos,
    closed: Seq<GridPos>,
    gs: Seq<(GridPos, i64)>,
    open: Seq<(i64, GridPos)>,
    k: int,
    p: Seq<GridPos>,
)
    requires
        has_key(gs, start),
        value_of(gs, start) == 0,
        forall|i: int|
            0 <= i < closed.len() ==> no_shorter(
                map,
                start,
                #[trigger] closed[i],
                value_of(gs, closed[i]) as int,
            ),
        forall|q: GridPos|
            #[trigger] has_key(gs, q) && !closed.contains(q) ==> open_at(
                open,
                q,
                value_of(gs, q) + manhattan(q, goal),
            ),
        forall|c: GridPos| #[trigger] closed.contains(c) ==> expanded(map, closed, gs, c),
        0 <= k < open.len(),
        forall|i: int| 0 <= i < open.len() ==> open[k].0 <= (#[trigger] open[i]).0,
        open[k].0 >= value_of(gs, open[k].1) + manhattan(open[k].1, goal),
        !closed.contains(open[k].1),
        is_path(map, p),
        p[0] == start,
        p.last() == open[k].1,
    ensures
        value_of(gs, open[k].1) + 1 <= p.len(),
{
    let cur = open[k].1;
    let j = first_unclosed(closed, p, 0);
    let q = p[j];
    if j > 0 {
        lemma_path_prefix(map, p, j);
        assert(closed.contains(p[j - 1]));
        let i = choose|i: int| 0 <= i < closed.len() && closed[i] == p[j - 1];
        assert(no_shorter(map, start, closed[i], value_of(gs, closed[i]) as int));
        assert(is_path(map, p.take(j)));
        assert(value_of(gs, p[j - 1]) + 1 <= j);
        assert(expanded(map, closed, gs, p[j - 1]));
        assert(adjacent(p[j - 1], p[j]));
        assert(map.walkable(p[j]));
        assert(has_key(gs, q) && value_of(gs, q) <= j) by {
            reveal(expanded);
        }
    }
    assert(open_at(open, q, value_of(gs, q) + manhattan(q, goal)));
    let e = choose|e: int|
        0 <= e < open.len() && (#[trigger] open[e]).1 == q && open[e].0 == value_of(gs, q)
            + manhattan(q, goal);
    assert(open[k].0 <= open[e].0);
    lemma_path_manhattan(map, p, j);
}

/// The open cell with the lowest estimate has its least cost.
proof fn lemma_pop_optimal(
    map: GridMap,
    start: GridPos,
    goal: GridPos,
    closed: Seq<GridPos>,
    gs: Seq<(GridPos, i64)>,
    cf: Seq<(GridPos, GridPos)>,
    open: Seq<(i64, GridPos)>,
    k: int,
)
    requires
        search_inv(map, start, goal, closed, gs, cf, open),
        opt_inv(map, start, goal, closed, gs, open),
        forall|c: GridPos| #[trigger] closed.contains(c) ==> expanded(map, closed, gs, c),
        0 <= k < open.len(),
        forall|i: int| 0 <= i < open.len() ==> open[k].0 <= (#[trigger] open[i]).0,
        !closed.contains(open[k].1),
    ensures
        no_shorter(map, start, open[k].1, value_of(gs, open[k].1) as int),
{
    lemma_start_cost(map, start, goal, closed, gs, cf, open);
    reveal(opt_inv);
    assert(open[k].0 >= value_of(gs, open[k].1) + manhattan(open[k].1, goal));
    assert forall|p: Seq<GridPos>| #[trigger]
        is_path(map, p) && p[0] == start && p.last() == open[k].1 implies value_of(gs, open[k].1)
        + 1 <= p.len() by {
        lemma_path_not_shorter(map, start, goal, closed, gs, open, k, p);
    }
}

proof fn lemma_opt_skip(
    map: GridMap,
    start: GridPos,
    goal: GridPos,
    closed: Seq<GridPos>,
    gs: Seq<(GridPos, i64)>,
    open: Seq<(i64, GridPos)>,
    k: int,
)
    requires
        opt_inv(map, start, goal, closed, gs, open),
        0 <= k < open.len(),
        closed.contains(open[k].1),
    ensures
        opt_inv(map, start, goal, closed, gs, open.remove(k)),
{
    reveal(opt_inv);
    let o = open.remove(k);
    assert forall|q: GridPos| #[trigger] has_key(gs, q) && !closed.contains(q) implies open_at(
        o,
        q,
        value_of(gs, q) + manhattan(q, goal),
    ) by {
        let e = choose|e: int|
            0 <= e < open.len() && (#[trigger] open[e]).1 == q && open[e].0 == value_of(gs, q)
                + manhattan(q, goal);
        if e < k {
            assert(o[e] == open[e]);
        } else {
            assert(o[e - 1] == open[e]);
        }
    }
    assert forall|i: int| 0 <= i < o.len() implies (#[trigger] o[i]).0 >= value_of(gs, o[i].1)
        + manhattan(o[i].1, goal) by {
        if i < k {
            assert(o[i] == open[i]);
        } else {
            assert(o[i] == open[i + 1]);
        }
    }
}

proof fn lemma_opt_close(
    map: GridMap,
    start: GridPos,
    goal: GridPos,
    closed: Seq<GridPos>,
    gs: Seq<(GridPos, i64)>,
    cf: Seq<(GridPos, GridPos)>,
    open: Seq<(i64, GridPos)>,
    k: int,
)
    requires
        search_inv(map, start, goal, closed, gs, cf, open),
        opt_inv(map, start, goal, closed, gs, open),
        forall|c: GridPos| #[trigger] closed.contains(c) ==> expanded(map, closed, gs, c),
        0 <= k < open.len(),
        forall|i: int| 0 <= i < open.len() ==> open[k].0 <= (#[trigger] open[i]).0,
        !closed.contains(open[k].1),
    ensures
        opt_inv(map, start, goal, closed.push(open[k].1), gs, open.remove(k)),
        no_shorter(map, start, open[k].1, value_of(gs, open[k].1) as int),
{
    lemma_pop_optimal(map, start, goal, closed, gs, cf, open, k);
    reveal(opt_inv);
    let cur = open[k].1;
    let c2 = closed.push(cur);
    let o = open.remove(k);
    assert forall|i: int| 0 <= i < c2.len() implies no_shorter(
        map,
        start,
        #[trigger] c2[i],
        value_of(gs, c2[i]) as int,
    ) by {
        if i < closed.len() {
            assert(c2[i] == closed[i]);
        }
    }
    assert forall|q: GridPos| #[trigger] has_key(gs, q) && !c2.contains(q) implies open_at(
        o,
        q,
        value_of(gs, q) + manhattan(q, goal),
    ) by {
        assert(q != cur) by {
            assert(c2[c2.len() - 1] == cur);
        }
        assert(!closed.contains(q)) by {
            if closed.contains(q) {
                let i = choose|i: int| 0 <= i < closed.len() && closed[i] == q;
                assert(c2[i] == q);
            }
        }
        let e = choose|e: int|
            0 <= e < open.len() && (#[trigger] open[e]).1 == q && open[e].0 == value_of(gs, q)
                + manhattan(q, goal);
        if e < k {
            assert(o[e] == open[e]);
        } else {
            assert(o[e - 1] == open[e]);
        }
    }
    assert forall|i: int| 0 <= i < o.len() implies (#[trigger] o[i]).0 >= value_of(gs, o[i].1)
        + manhattan(o[i].1, goal) by {
        if i < k {
            assert(o[i] == open[i]);
        } else {
            assert(o[i] == open[i + 1]);
        }
    }
}

/// Giving the open cell `n` a lower cost, with an entry for its new estimate,
/// keeps the search optimal.
proof fn lemma_opt_relax(
    map: GridMap,
    start: GridPos,
    goal: GridPos,
    closed: Seq<GridPos>,
    gs0: Seq<(GridPos, i64)>,
    open0: Seq<(i64, GridPos)>,
    gs1: Seq<(GridPos, i64)>,
    open1: Seq<(i64, GridPos)>,
    n: GridPos,
    g: int,
)
    requires
        opt_inv(map, start, goal, closed, gs0, open0),
        forall|i: int| 0 <= i < closed.len() ==> has_key(gs0, #[trigger] closed[i]),
        forall|i: int| 0 <= i < open0.len() ==> has_key(gs0, (#[trigger] open0[i]).1),
        !closed.contains(n),
        has_key(gs0, n) ==> g < value_of(gs0, n),
        has_key(gs1, n),
        value_of(gs1, n) == g,
        forall|q: GridPos| q != n ==> (has_key(gs1, q) <==> has_key(gs0, q)),
        forall|q: GridPos| q != n && has_key(gs0, q) ==> value_of(gs1, q) == value_of(gs0, q),
        open1.len() == open0.len() + 1,
        forall|i: int| 0 <= i < open0.len() ==> open1[i] == open0[i],
        open1[open0.len() as int].1 == n,
        open1[open0.len() as int].0 == g + manhattan(n, goal),
    ensures
        opt_inv(map, start, goal, closed, gs1, open1),
{
    reveal(opt_inv);
    assert forall|i: int| 0 <= i < closed.len() implies no_shorter(
        map,
        start,
        #[trigger] closed[i],
        value_of(gs1, closed[i]) as int,
    ) by {
        assert(closed[i] != n);
        assert(no_shorter(map, start, closed[i], value_of(gs0, closed[i]) as int));
    }
    assert forall|q: GridPos| #[trigger] has_key(gs1, q) && !closed.contains(q) implies open_at(
        open1,
        q,
        value_of(gs1, q) + manhattan(q, goal),
    ) by {
        if q == n {
            assert(open1[open0.len() as int].1 == n);
        } else {
            assert(open_at(open0, q, value_of(gs0, q) + manhattan(q, goal)));
            let e = choose|e: int|
                0 <= e < open0.len() && (#[trigger] open0[e]).1 == q && open0[e].0 == value_of(
                    gs0,
                    q,
                ) + manhattan(q, goal);
            assert(open1[e] == open0[e]);
        }
    }
    assert forall|i: int| 0 <= i < open1.len() implies (#[trigger] open1[i]).0 >= value_of(
        gs1,
        open1[i].1,
    ) + manhattan(open1[i].1, goal) by {
        if i < open0.len() {
            assert(open1[i] == open0[i]);
            assert(open0[i].0 >= value_of(gs0, open0[i].1) + manhattan(open0[i].1, goal));
        }
    }
}

/// Looks at the neighbour `n` of the closed cell `cur`: when `n` is walkable and
/// not closed, and the way through `cur` is cheaper than any known so far, `n`
/// gets `cur` as its parent, the new cost, and an entry in the open list.
fn relax(
    map: &GridMap,
    Ghost(start): Ghost<GridPos>,
    goal: GridPos,
    closed: &Vec<GridPos>,
    gs: &mut Vec<(GridPos, i64)>,
    cf: &mut Vec<(GridPos, GridPos)>,
    open: &mut Vec<(i64, GridPos)>,
    cur: GridPos,
    cg: i64,
    n: GridPos,
)
    requires
        search_setting(*map, start, goal),
        search_inv(*map, start, goal, closed@, old(gs)@, old(cf)@, old(open)@),
        opt_inv(*map, start, goal, closed@, old(gs)@, old(open)@),
        closed@.contains(cur),
        has_key(old(gs)@, cur),
        value_of(old(gs)@, cur) == cg,
        cg < closed@.len(),
        adjacent(cur, n),
    ensures
        search_inv(*map, start, goal, closed@, final(gs)@, final(cf)@, final(open)@),
        opt_inv(*map, start, goal, closed@, final(gs)@, final(open)@),
        forall|q: GridPos| has_key(old(gs)@, q) ==> has_key(final(gs)@, q),
        has_key(final(gs)@, cur),
        value_of(final(gs)@, cur) == cg,
        map.walkable(n) ==> closed@.contains(n) || (has_key(final(gs)@, n) && value_of(
            final(gs)@,
            n,
        ) <= cg + 1),
        forall|q: GridPos| has_key(old(gs)@, q) ==> value_of(final(gs)@, q) <= value_of(old(gs)@, q),
        forall|q: GridPos| closed@.contains(q) ==> value_of(final(gs)@, q) == value_of(old(gs)@, q),
{
    proof {
        reveal(search_inv);
    }
    if map.is_walkable(&n) && !contains_pos(closed, n) {
        let tentative = cg + map.cost(&cur, &n) as i64;
        let known = match find_key(gs, n) {
            Some(i) => gs[i].1,
            None => i64::MAX,
        };
        if tentative < known {
            let ghost gs0 = gs@;
            let ghost cf0 = cf@;
            let ghost open0 = open@;
            put_key(cf, n, cur);
            put_key(gs, n, tentative);
            proof {
                let j = choose|j: int| 0 <= j < closed@.len() && closed@[j] == cur;
                assert(map.walkable(closed@[j]));
                assert(map.walkable(goal));
            }
            let f = tentative + n.manhattan_distance(&goal) as i64;
            open.push((f, n));
            proof {
                assert(open@[open@.len() - 1].1 == n);
                assert forall|i: int| 0 <= i < open0.len() implies open@[i] == open0[i] by {}
                lemma_opt_relax(
                    *map,
                    start,
                    goal,
                    closed@,
                    gs0,
                    open0,
                    gs@,
                    open@,
                    n,
                    tentative as int,
                );
                assert forall|i: int| 0 <= i < gs@.len() implies map.walkable((#[trigger] gs@[i]).0)
                    && 0 <= gs@[i].1 <= closed@.len() by {
                    lemma_value_at(gs@, i);
                    let q = gs@[i].0;
                    if q != n {
                        let j = choose|j: int| 0 <= j < gs0.len() && (#[trigger] gs0[j]).0 == q;
                        lemma_value_at(gs0, j);
                    }
                }
                assert forall|i: int| 0 <= i < open@.len() implies has_key(
                    gs@,
                    (#[trigger] open@[i]).1,
                ) by {
                    if i < open0.len() {
                        assert(open@[i] == open0[i]);
                    }
                }
                assert forall|q: GridPos| #[trigger] has_key(gs@, q) implies closed@.contains(q)
                    || has_open(open@, q) by {
                    if q != n && !closed@.contains(q) {
                        assert(has_open(open0, q));
                        let j = choose|j: int| 0 <= j < open0.len() && (#[trigger] open0[j]).1 == q;
                        assert(open@[j] == open0[j]);
                    }
                }
                assert forall|q: GridPos| #[trigger] has_key(cf@, q) implies {
                    &&& has_key(gs@, q)
                    &&& closed@.contains(value_of(cf@, q))
                    &&& adjacent(value_of(cf@, q), q)
                    &&& value_of(gs@, value_of(cf@, q)) + 1 == value_of(gs@, q)
                } by {
                    if q != n {
                        assert(has_key(cf0, q));
                        assert(closed@.contains(value_of(cf0, q)));
                        assert(has_key(gs0, value_of(cf0, q)));
                    }
                }
                assert forall|i: int| 0 <= i < closed@.len() implies map.walkable(
                    #[trigger] closed@[i],
                ) && has_key(gs@, closed@[i]) by {}
                assert forall|q: GridPos| #[trigger] has_key(gs@, q) && q != start implies has_key(
                    cf@,
                    q,
                ) by {}
            }
        }
    }
}

/// Looks at the four neighbours of the closed cell `cur`; afterwards every
/// walkable neighbour of `cur` is closed or reached.
fn expand(
    map: &GridMap,
    Ghost(start): Ghost<GridPos>,
    goal: GridPos,
    closed: &Vec<GridPos>,
    gs: &mut Vec<(GridPos, i64)>,
    cf: &mut Vec<(GridPos, GridPos)>,
    open: &mut Vec<(i64, GridPos)>,
    cur: GridPos,
)
    requires
        search_setting(*map, start, goal),
        search_inv(*map, start, goal, closed@, old(gs)@, old(cf)@, old(open)@),
        opt_inv(*map, start, goal, closed@, old(gs)@, old(open)@),
        closed@.contains(cur),
        map.walkable(cur),
        has_key(old(gs)@, cur),
        value_of(old(gs)@, cur) < closed@.len(),
        keys_distinct(old(gs)@),
    ensures
        search_inv(*map, start, goal, closed@, final(gs)@, final(cf)@, final(open)@),
        opt_inv(*map, start, goal, closed@, final(gs)@, final(open)@),
        forall|q: GridPos| has_key(old(gs)@, q) ==> has_key(final(gs)@, q),
        forall|q: GridPos| has_key(old(gs)@, q) ==> value_of(final(gs)@, q) <= value_of(old(gs)@, q),
        forall|q: GridPos| closed@.contains(q) ==> value_of(final(gs)@, q) == value_of(old(gs)@, q),
        expanded(*map, closed@, final(gs)@, cur),
{
    let cg = match find_key(gs, cur) {
        Some(i) => gs[i].1,
        None => 0,
    };
    let ghost gs_in = gs@;
    let nbrs = cur.neighbors_4();
    let mut t: usize = 0;
    while t < 4
        invariant
            search_setting(*map, start, goal),
            search_inv(*map, start, goal, closed@, gs@, cf@, open@),
            opt_inv(*map, start, goal, closed@, gs@, open@),
            map.walkable(cur),
            inner(cur),
            t <= 4,
            nbrs@ == seq![
                shifted(cur, 1, 0),
                shifted(cur, -1, 0),
                shifted(cur, 0, 1),
                shifted(cur, 0, -1),
            ],
            closed@.contains(cur),
            has_key(gs@, cur),
            value_of(gs@, cur) == cg,
            cg < closed@.len(),
            forall|q: GridPos| has_key(gs_in, q) ==> has_key(gs@, q),
            forall|q: GridPos| has_key(gs_in, q) ==> value_of(gs@, q) <= value_of(gs_in, q),
            forall|q: GridPos| closed@.contains(q) ==> value_of(gs@, q) == value_of(gs_in, q),
            forall|j: int|
                0 <= j < t && map.walkable(#[trigger] nbrs@[j]) ==> closed@.contains(nbrs@[j])
                    || (has_key(gs@, nbrs@[j]) && value_of(gs@, nbrs@[j]) <= cg + 1),
        decreases 4 - t,
    {
        proof {
            lemma_shifted_adjacent(cur);
        }
        relax(map, Ghost(start), goal, closed, gs, cf, open, cur, cg, nbrs[t]);
        t += 1;
    }
    proof {
        reveal(expanded);
        assert forall|m: GridPos|
            #[trigger] adjacent(cur, m) && map.walkable(m) implies closed@.contains(m) || (has_key(
            gs@,
            m,
        ) && value_of(gs@, m) <= value_of(gs@, cur) + 1) by {
            lemma_adjacent_cases(cur, m);
            if m == shifted(cur, 1, 0) {
                assert(nbrs@[0] == m);
            } else if m == shifted(cur, -1, 0) {
                assert(nbrs@[1] == m);
            } else if m == shifted(cur, 0, 1) {
                assert(nbrs@[2] == m);
            } else {
                assert(nbrs@[3] == m);
            }
        }
    }
}

/// A* search from `start` to `goal` over the walkable cells of `map`, one step
/// at a time in four directions. Returns the cells from `start` to `goal`, both
/// included, or `None` when no path exists.
pub fn a_star(map: &GridMap, start: GridPos, goal: GridPos) -> (r: Option<Vec<GridPos>>)
    requires
        map.width <= 0 || map.height <= 0 || map.width + map.height <= i32::MAX,
    ensures
        match r {
            Some(path) => is_path(*map, path@) && path@[0] == start && path@.last() == goal
                && no_shorter(*map, start, goal, path@.len() - 1),
            None => !reachable(*map, start, goal),
        },
{
    if !map.is_walkable(&start) || !map.is_walkable(&goal) {
        proof {
            assert forall|path: Seq<GridPos>|
                is_path(*map, path) && path[0] == start implies path.last() != goal by {
                assert(map.walkable(path[0]));
                assert(map.walkable(path[path.len() - 1]));
            }
        }
        return None;
    }
    if start == goal {
        let mut v = Vec::new();
        v.push(start);
        return Some(v);
    }
    let ghost w = map.width as int;
    let ghost h = map.height as int;
    proof {
        assert(map.width * map.height <= 0x4000_0000_0000_0000) by (nonlinear_arith)
            requires
                0 < map.width <= i32::MAX,
                0 < map.height <= i32::MAX,
        ;
    }
    let mut open: Vec<(i64, GridPos)> = Vec::new();
    let mut cf: Vec<(GridPos, GridPos)> = Vec::new();
    let mut gs: Vec<(GridPos, i64)> = Vec::new();
    let mut closed: Vec<GridPos> = Vec::new();
    gs.push((start, 0));
    let f0 = start.manhattan_distance(&goal) as i64;
    open.push((f0, start));
    proof {
        lemma_search_start(*map, start, goal, f0);
        lemma_opt_start(*map, start, goal, f0);
        assert(gs@ =~= seq![(start, 0i64)]);
        assert(open@ =~= seq![(f0, start)]);
        assert(closed@ =~= Seq::<GridPos>::empty());
        assert(cf@ =~= Seq::<(GridPos, GridPos)>::empty());
    }
    while open.len() > 0
        invariant
            search_setting(*map, start, goal),
            w == map.width && h == map.height,
            search_inv(*map, start, goal, closed@, gs@, cf@, open@),
            opt_inv(*map, start, goal, closed@, gs@, open@),
            closed@.len() <= w * h,
            forall|c: GridPos| #[trigger] closed@.contains(c) ==> expanded(*map, closed@, gs@, c),
        decreases w * h - closed@.len(), open@.len(),
    {
        let k = min_open(&open);
        let ghost open0 = open@;
        let (_f, cur) = open.remove(k);
        if contains_pos(&closed, cur) {
            proof {
                lemma_skip(*map, start, goal, closed@, gs@, cf@, open0, k as int);
                lemma_opt_skip(*map, start, goal, closed@, gs@, open0, k as int);
            }
            continue;
        }
        proof {
            lemma_close(*map, start, goal, closed@, gs@, cf@, open0, k as int);
            lemma_opt_close(*map, start, goal, closed@, gs@, cf@, open0, k as int);
        }
        let ghost closed0 = closed@;
        closed.push(cur);
        if cur == goal {
            return Some(reconstruct(map, &gs, &cf, Ghost(closed0), start, goal));
        }
        proof {
            assert(closed@ == closed0.push(cur));
            assert forall|q: GridPos| closed0.contains(q) implies closed@.contains(q) by {
                let i = choose|i: int| 0 <= i < closed0.len() && closed0[i] == q;
                assert(closed@[i] == q);
            }
            assert(closed@[closed@.len() - 1] == cur);
            assert forall|c: GridPos| #[trigger] closed@.contains(c) && c != cur implies expanded(
                *map,
                closed@,
                gs@,
                c,
            ) by {
                let i = choose|i: int| 0 <= i < closed@.len() && closed@[i] == c;
                assert(i < closed0.len());
                assert(closed0[i] == c);
                assert(closed0.contains(c));
                lemma_expanded_grow(*map, closed0, gs@, closed@, gs@, c);
            }
        }
        let ghost gs1 = gs@;
        expand(map, Ghost(start), goal, &closed, &mut gs, &mut cf, &mut open, cur);
        proof {
            assert forall|c: GridPos| #[trigger] closed@.contains(c) implies expanded(
                *map,
                closed@,
                gs@,
                c,
            ) by {
                if c != cur {
                    lemma_expanded_grow(*map, closed@, gs1, closed@, gs@, c);
                }
            }
        }
    }
    proof {
        reveal(search_inv);
        reveal(expanded);
        assert forall|c: GridPos, m: GridPos|
            closed@.contains(c) && #[trigger] adjacent(c, m) && map.walkable(m) implies closed@.contains(
            m,
        ) by {
            assert(expanded(*map, closed@, gs@, c));
            if has_key(gs@, m) {
                assert(!has_open(open@, m));
            }
        }
        assert(closed@.contains(start)) by {
            assert(!has_open(open@, start));
        }
        assert forall|path: Seq<GridPos>|
            is_path(*map, path) && path[0] == start implies path.last() != goal by {
            lemma_closed_region(*map, closed@, path, path.len() - 1);
        }
    }
    None
}

} // verus!
