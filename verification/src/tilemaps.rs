//! Tilemaps: tile coordinates and a tilemap stored in square chunks that are
//! created when a tile in them is first set.
use vstd::prelude::*;
use std::collections::HashMap;

verus! {

broadcast use vstd::std_specs::hash::group_hash_axioms;

/// The position of a tile.
#[derive(Clone, Copy, Debug, PartialEq, Eq, Hash, Structural)]
pub struct TileCoord {
    pub x: i32,
    pub y: i32,
}

/// The tile moved by `(dx, dy)`.
pub open spec fn tile_shifted(p: TileCoord, dx: int, dy: int) -> TileCoord {
    TileCoord { x: (p.x + dx) as i32, y: (p.y + dy) as i32 }
}

/// Neither coordinate is at the edge of the `i32` range.
pub open spec fn tile_inner(p: TileCoord) -> bool {
    i32::MIN < p.x < i32::MAX && i32::MIN < p.y < i32::MAX
}

pub open spec fn iabs(v: int) -> int {
    if v < 0 {
        -v
    } else {
        v
    }
}

/// The Chebyshev distance: the larger of the two coordinate differences.
pub open spec fn chebyshev(a: TileCoord, b: TileCoord) -> int {
    let dx = iabs(a.x - b.x);
    let dy = iabs(a.y - b.y);
    if dx >= dy {
        dx
    } else {
        dy
    }
}

impl TileCoord {
    pub fn new(x: i32, y: i32) -> (t: Self)
        ensures
            t == (TileCoord { x, y }),
    {
        Self { x, y }
    }

    /// Right, left, down, up.
    pub fn neighbors_4(&self) -> (v: Vec<TileCoord>)
        requires
            tile_inner(*self),
        ensures
            v@ == seq![
                tile_shifted(*self, 1, 0),
                tile_shifted(*self, -1, 0),
                tile_shifted(*self, 0, 1),
                tile_shifted(*self, 0, -1),
            ],
    {
        let mut v = Vec::new();
        v.push(TileCoord::new(self.x + 1, self.y));
        v.push(TileCoord::new(self.x - 1, self.y));
        v.push(TileCoord::new(self.x, self.y + 1));
        v.push(TileCoord::new(self.x, self.y - 1));
        assert(v@ =~= seq![
            tile_shifted(*self, 1, 0),
            tile_shifted(*self, -1, 0),
            tile_shifted(*self, 0, 1),
            tile_shifted(*self, 0, -1),
        ]);
        v
    }

    /// The eight surrounding tiles, column by column from the left.
    pub fn neighbors_8(&self) -> (v: Vec<TileCoord>)
        requires
            tile_inner(*self),
        ensures
            v@ == seq![
                tile_shifted(*self, -1, -1),
                tile_shifted(*self, -1, 0),
                tile_shifted(*self, -1, 1),
                tile_shifted(*self, 0, -1),
                tile_shifted(*self, 0, 1),
                tile_shifted(*self, 1, -1),
                tile_shifted(*self, 1, 0),
                tile_shifted(*self, 1, 1),
            ],
    {
        let ghost all = seq![
            tile_shifted(*self, -1, -1),
            tile_shifted(*self, -1, 0),
            tile_shifted(*self, -1, 1),
            tile_shifted(*self, 0, -1),
            tile_shifted(*self, 0, 1),
            tile_shifted(*self, 1, -1),
            tile_shifted(*self, 1, 0),
            tile_shifted(*self, 1, 1),
        ];
        let mut v = Vec::new();
        let mut dx: i32 = -1;
        while dx <= 1
            invariant
                tile_inner(*self),
                all.len() == 8,
                all == seq![
                    tile_shifted(*self, -1, -1),
                    tile_shifted(*self, -1, 0),
                    tile_shifted(*self, -1, 1),
                    tile_shifted(*self, 0, -1),
                    tile_shifted(*self, 0, 1),
                    tile_shifted(*self, 1, -1),
                    tile_shifted(*self, 1, 0),
                    tile_shifted(*self, 1, 1),
                ],
                -1 <= dx <= 2,
                v.len() == 3 * (dx + 1) - if dx >= 1 {
                    1int
                } else {
                    0int
                },
                forall|i: int| 0 <= i < v.len() ==> #[trigger] v@[i] == all[i],
            decreases 2 - dx,
        {
            let mut dy: i32 = -1;
            let ghost start_len = v.len();
            while dy <= 1
                invariant
                    tile_inner(*self),
                    all.len() == 8,
                    all == seq![
                        tile_shifted(*self, -1, -1),
                        tile_shifted(*self, -1, 0),
                        tile_shifted(*self, -1, 1),
                        tile_shifted(*self, 0, -1),
                        tile_shifted(*self, 0, 1),
                        tile_shifted(*self, 1, -1),
                        tile_shifted(*self, 1, 0),
                        tile_shifted(*self, 1, 1),
                    ],
                    -1 <= dx <= 1,
                    -1 <= dy <= 2,
                    start_len == 3 * (dx + 1) - if dx >= 1 {
                        1int
                    } else {
                        0int
                    },
                    v.len() == start_len + (dy + 1) - if dx == 0 && dy >= 1 {
                        1int
                    } else {
                        0int
                    },
                    forall|i: int| 0 <= i < v.len() ==> #[trigger] v@[i] == all[i],
                decreases 2 - dy,
            {
                if dx != 0 || dy != 0 {
                    v.push(TileCoord::new(self.x + dx, self.y + dy));
                }
                dy += 1;
            }
            dx += 1;
        }
        assert(v@ =~= all);
        v
    }

    /// The larger of the horizontal and vertical distances.
    pub fn chebyshev_distance(&self, other: &TileCoord) -> (d: i32)
        requires
            i32::MIN < self.x - other.x <= i32::MAX,
            i32::MIN < self.y - other.y <= i32::MAX,
        ensures
            d == chebyshev(*self, *other),
    {
        let dx = self.x - other.x;
        let dy = self.y - other.y;
        let ax = if dx < 0 { -dx } else { dx };
        let ay = if dy < 0 { -dy } else { dy };
        if ax >= ay {
            ax
        } else {
            ay
        }
    }
}

/// The key under which chunk `(cx, cy)` is stored.
pub open spec fn pack_key(cx: int, cy: int) -> int {
    cx * 0x1_0000_0000 + (cy - i32::MIN)
}

/// A tilemap stored in square chunks of `chunk_size` by `chunk_size` tile ids;
/// a chunk is created, filled with 0, when one of its tiles is first set.
/// Chunk `(cx, cy)` is stored under the key `cx * 2^32 + (cy - i32::MIN)`.
pub struct ChunkedTilemap {
    pub chunk_size: i32,
    pub tiles: HashMap<i64, Vec<u32>>,
}

impl ChunkedTilemap {
    /// The chunk that holds `c`, by its column and row.
    pub open spec fn chunk_of(self, c: TileCoord) -> (int, int) {
        (c.x as int / self.chunk_size as int, c.y as int / self.chunk_size as int)
    }

    /// The position of `c` inside its chunk, row by row.
    pub open spec fn index_in_chunk(self, c: TileCoord) -> int {
        (c.y as int % self.chunk_size as int) * self.chunk_size + (c.x as int % self.chunk_size as int)
    }

    /// The key of the chunk that holds `c`.
    pub open spec fn key_of(self, c: TileCoord) -> i64 {
        pack_key(self.chunk_of(c).0, self.chunk_of(c).1) as i64
    }

    /// The chunk size is positive, a chunk's tiles can be counted in `usize`,
    /// and every chunk holds one id per tile.
    pub open spec fn wf(self) -> bool {
        &&& 0 < self.chunk_size
        &&& self.chunk_size * self.chunk_size <= usize::MAX
        &&& forall|k: i64| #[trigger]
            self.tiles@.contains_key(k) ==> self.tiles@[k]@.len() == self.chunk_size
                * self.chunk_size
    }

    /// The id of tile `c`: 0 when its chunk was never created.
    pub open spec fn tile(self, c: TileCoord) -> u32 {
        let k = self.key_of(c);
        if self.tiles@.contains_key(k) {
            self.tiles@[k]@[self.index_in_chunk(c)]
        } else {
            0
        }
    }

    pub fn new(chunk_size: i32) -> (m: Self)
        ensures
            m.chunk_size == chunk_size,
            m.tiles@ == Map::<i64, Vec<u32>>::empty(),
    {
        Self { chunk_size, tiles: HashMap::new() }
    }

    fn chunk_key(&self, coord: &TileCoord) -> (k: i64)
        requires
            0 < self.chunk_size,
        ensures
            k == self.key_of(*coord),
    {
        proof {
            lemma_div_bounds(coord.x as int, self.chunk_size as int);
            lemma_div_bounds(coord.y as int, self.chunk_size as int);
        }
        let cx = coord.x.checked_div_euclid(self.chunk_size).unwrap();
        let cy = coord.y.checked_div_euclid(self.chunk_size).unwrap();
        (cx as i64) * 0x1_0000_0000i64 + ((cy as i64) - (i32::MIN as i64))
    }

    fn local_index(&self, coord: &TileCoord) -> (i: usize)
        requires
            0 < self.chunk_size,
            self.chunk_size * self.chunk_size <= usize::MAX,
        ensures
            i == self.index_in_chunk(*coord),
            i < self.chunk_size * self.chunk_size,
    {
        let lx = coord.x.checked_rem_euclid(self.chunk_size).unwrap() as usize;
        let ly = coord.y.checked_rem_euclid(self.chunk_size).unwrap() as usize;
        let cs = self.chunk_size as usize;
        proof {
            lemma_local_bound(ly as int, lx as int, cs as int);
        }
        ly * cs + lx
    }

    /// Sets tile `coord` to `tile_id`, creating its chunk when needed; every
    /// other tile keeps its id.
    pub fn set_tile(&mut self, coord: TileCoord, tile_id: u32)
        requires
            old(self).wf(),
            old(self).chunk_size * old(self).chunk_size <= i32::MAX,
        ensures
            final(self).wf(),
            final(self).chunk_size == old(self).chunk_size,
            final(self).tiles@.dom() == old(self).tiles@.dom().insert(old(self).key_of(coord)),
            forall|c: TileCoord|
                #[trigger] final(self).tile(c) == if c == coord {
                    tile_id
                } else {
                    old(self).tile(c)
                },
    {
        let key = self.chunk_key(&coord);
        let idx = self.local_index(&coord);
        let chunk_size_sq = (self.chunk_size * self.chunk_size) as usize;
        let ghost m0 = self.tiles@;
        let mut chunk = match self.tiles.remove(&key) {
            Some(c) => c,
            None => zeros(chunk_size_sq),
        };
        chunk.set(idx, tile_id);
        self.tiles.insert(key, chunk);
        proof {
            assert(self.tiles@ == m0.insert(key, chunk));
            assert forall|c: TileCoord| #[trigger] self.tile(c) == if c == coord {
                tile_id
            } else {
                old(self).tile(c)
            } by {
                let d = self.chunk_size as int;
                lemma_div_bounds(c.x as int, d);
                lemma_div_bounds(c.y as int, d);
                lemma_local_bound(c.y as int % d, c.x as int % d, d);
                assert(old(self).key_of(c) == self.key_of(c));
                assert(old(self).index_in_chunk(c) == self.index_in_chunk(c));
                if self.key_of(c) == key {
                    if c != coord {
                        lemma_same_chunk(*self, c, coord);
                    }
                    if m0.contains_key(key) {
                        assert(m0[key]@.len() == d * d);
                    }
                }
            }
            assert(self.tiles@.dom() =~= m0.dom().insert(key));
        }
    }

    /// The id of tile `coord`; 0 when its chunk was never created.
    pub fn get_tile(&self, coord: &TileCoord) -> (id: u32)
        requires
            self.wf(),
        ensures
            id == self.tile(*coord),
    {
        let key = self.chunk_key(coord);
        let idx = self.local_index(coord);
        match self.tiles.get(&key) {
            Some(chunk) => chunk[idx],
            None => 0,
        }
    }

    /// Number of chunks created.
    pub fn chunk_count(&self) -> (n: usize)
        ensures
            n == self.tiles@.len(),
    {
        self.tiles.len()
    }
}

/// A chunk of `n` tiles, all 0.
fn zeros(n: usize) -> (v: Vec<u32>)
    ensures
        v@.len() == n,
        forall|i: int| 0 <= i < n ==> v@[i] == 0,
{
    let mut v: Vec<u32> = Vec::new();
    let mut i: usize = 0;
    while i < n
        invariant
            i <= n,
            v@.len() == i,
            forall|j: int| 0 <= j < i ==> v@[j] == 0,
        decreases n - i,
    {
        v.push(0);
        i += 1;
    }
    v
}

proof fn lemma_div_bounds(x: int, d: int)
    requires
        i32::MIN <= x <= i32::MAX,
        0 < d,
    ensures
        i32::MIN <= x / d <= i32::MAX,
        0 <= x % d < d,
        x == (x / d) * d + x % d,
{
    assert(i32::MIN <= x / d <= i32::MAX) by (nonlinear_arith)
        requires
            i32::MIN <= x <= i32::MAX,
            0 < d,
    ;
}

proof fn lemma_local_bound(ly: int, lx: int, cs: int)
    requires
        0 <= ly < cs,
        0 <= lx < cs,
    ensures
        ly * cs + lx < cs * cs,
{
    assert(ly * cs + lx < cs * cs) by (nonlinear_arith)
        requires
            0 <= ly < cs,
            0 <= lx < cs,
    ;
}

/// Two tiles in the same chunk at the same index are the same tile.
proof fn lemma_same_chunk(m: ChunkedTilemap, a: TileCoord, b: TileCoord)
    requires
        0 < m.chunk_size,
        m.key_of(a) == m.key_of(b),
        a != b,
    ensures
        m.index_in_chunk(a) != m.index_in_chunk(b),
{
    let d = m.chunk_size as int;
    lemma_div_bounds(a.x as int, d);
    lemma_div_bounds(a.y as int, d);
    lemma_div_bounds(b.x as int, d);
    lemma_div_bounds(b.y as int, d);
    let (acx, acy) = m.chunk_of(a);
    let (bcx, bcy) = m.chunk_of(b);
    assert(acx == bcx && acy == bcy) by (nonlinear_arith)
        requires
            acx * 0x1_0000_0000 + (acy - i32::MIN) == bcx * 0x1_0000_0000 + (bcy - i32::MIN),
            i32::MIN <= acy <= i32::MAX,
            i32::MIN <= bcy <= i32::MAX,
    ;
    let alx = a.x as int % d;
    let aly = a.y as int % d;
    let blx = b.x as int % d;
    let bly = b.y as int % d;
    if aly * d + alx == bly * d + blx {
        assert(aly == bly && alx == blx) by (nonlinear_arith)
            requires
                aly * d + alx == bly * d + blx,
                0 <= alx < d,
                0 <= blx < d,
        ;
        assert(a.x == b.x && a.y == b.y);
    }
}

} // verus!
