//! Lighting on a tile grid: the tiles a light of a given radius reaches.
use vstd::prelude::*;

verus! {

/// Colour temperatures in Kelvin; the conversion to colours is done where
/// floating point is available.
pub struct ColorTemperature;

/// The offset `(dx, dy)` lies within distance `r` of the centre.
pub open spec fn in_disc(dx: int, dy: int, r: int) -> bool {
    dx * dx + dy * dy <= r * r
}

/// The tiles of row `dy` (relative to `c`) among the first `m` columns from
/// `-r`, that lie within distance `r`.
pub open spec fn row_points(c: (i32, i32), r: int, dy: int, m: nat) -> Seq<(i32, i32)>
    decreases m,
{
    if m == 0 {
        Seq::empty()
    } else {
        let dx = -r + m - 1;
        row_points(c, r, dy, (m - 1) as nat) + if in_disc(dx, dy, r) {
            seq![((c.0 + dx) as i32, (c.1 + dy) as i32)]
        } else {
            Seq::empty()
        }
    }
}

/// The tiles within distance `r` of `c` in the first `m` rows from `-r`, row by
/// row, each row from left to right.
pub open spec fn disc_points(c: (i32, i32), r: int, m: nat) -> Seq<(i32, i32)>
    decreases m,
{
    if m == 0 {
        Seq::empty()
    } else {
        disc_points(c, r, (m - 1) as nat) + row_points(c, r, -r + m - 1, (2 * r + 1) as nat)
    }
}

/// The tiles within Euclidean distance `radius` of `center`, row by row from the
/// top, each row from the left.
pub fn visible_tiles(center: (i32, i32), radius: i32) -> (tiles: Vec<(i32, i32)>)
    requires
        radius < 0 || 2 * radius * radius <= i32::MAX,
        radius < 0 || (i32::MIN <= center.0 - radius && center.0 + radius <= i32::MAX),
        radius < 0 || (i32::MIN <= center.1 - radius && center.1 + radius <= i32::MAX),
    ensures
        radius < 0 ==> tiles@.len() == 0,
        radius >= 0 ==> tiles@ == disc_points(center, radius as int, (2 * radius + 1) as nat),
        radius >= 0 ==> forall|t: (i32, i32)| #[trigger]
            tiles@.contains(t) <==> in_disc(t.0 - center.0, t.1 - center.1, radius as int),
{
    let mut tiles: Vec<(i32, i32)> = Vec::new();
    if radius < 0 {
        return tiles;
    }
    let ghost r = radius as int;
    proof {
        assert(radius * radius + radius * radius <= i32::MAX && radius <= 46340) by (nonlinear_arith)
            requires
                2 * radius * radius <= i32::MAX,
                0 <= radius,
        ;
    }
    let mut dy: i32 = -radius;
    while dy <= radius
        invariant
            0 <= radius,
            r == radius,
            radius * radius + radius * radius <= i32::MAX,
            radius <= 46340,
            i32::MIN <= center.0 - radius && center.0 + radius <= i32::MAX,
            i32::MIN <= center.1 - radius && center.1 + radius <= i32::MAX,
            -radius <= dy <= radius + 1,
            tiles@ == disc_points(center, r, (dy + radius) as nat),
        decreases radius + 1 - dy,
    {
        let ghost before = tiles@;
        let mut dx: i32 = -radius;
        while dx <= radius
            invariant
                0 <= radius,
                r == radius,
                radius * radius + radius * radius <= i32::MAX,
                radius <= 46340,
                i32::MIN <= center.0 - radius && center.0 + radius <= i32::MAX,
                i32::MIN <= center.1 - radius && center.1 + radius <= i32::MAX,
                -radius <= dy <= radius,
                -radius <= dx <= radius + 1,
                tiles@ == before + row_points(center, r, dy as int, (dx + radius) as nat),
            decreases radius + 1 - dx,
        {
            proof {
                assert(0 <= dx * dx <= radius * radius && 0 <= dy * dy <= radius * radius)
                    by (nonlinear_arith)
                    requires
                        -radius <= dx <= radius,
                        -radius <= dy <= radius,
                ;
                assert(dx * dx + dy * dy <= i32::MAX);
            }
            let ghost prev = tiles@;
            if dx * dx + dy * dy <= radius * radius {
                tiles.push((center.0 + dx, center.1 + dy));
            }
            assert(tiles@ =~= before + row_points(center, r, dy as int, (dx + radius + 1) as nat));
            dx += 1;
        }
        assert(tiles@ =~= disc_points(center, r, (dy + radius + 1) as nat));
        dy += 1;
    }
    proof {
        assert forall|t: (i32, i32)| #[trigger]
            tiles@.contains(t) <==> in_disc(t.0 - center.0, t.1 - center.1, r) by {
            lemma_visible_tiles_members(center, radius, t);
        }
    }
    tiles
}

/// The tile `t` in row `dy` is among the first `m` columns of that row
/// exactly when its column offset is among them and it lies within the disc.
proof fn lemma_row_points_members(c: (i32, i32), r: int, dy: int, m: nat, t: (i32, i32))
    requires
        0 <= r,
        -r <= dy <= r,
        m <= 2 * r + 1,
        i32::MIN <= c.0 - r && c.0 + r <= i32::MAX,
        i32::MIN <= c.1 - r && c.1 + r <= i32::MAX,
    ensures
        row_points(c, r, dy, m).contains(t) <==> (t.1 == c.1 + dy && -r <= t.0 - c.0 < -r + m
            && in_disc(t.0 - c.0, dy, r)),
    decreases m,
{
    broadcast use vstd::seq_lib::lemma_seq_concat_contains_all_elements;
    broadcast use vstd::seq_lib::lemma_seq_empty_contains_nothing;

    if m > 0 {
        lemma_row_points_members(c, r, dy, (m - 1) as nat, t);
        let dx = -r + m - 1;
        if in_disc(dx, dy, r) {
            let p = ((c.0 + dx) as i32, (c.1 + dy) as i32);
            assert(seq![p].contains(t) <==> t == p) by {
                if t == p {
                    assert(seq![p][0] == t);
                }
            }
        }
    }
}

/// The tile `t` is among the first `m` rows of the disc exactly when its row
/// offset is among them and it lies within the disc.
proof fn lemma_disc_points_members(c: (i32, i32), r: int, m: nat, t: (i32, i32))
    requires
        0 <= r,
        m <= 2 * r + 1,
        i32::MIN <= c.0 - r && c.0 + r <= i32::MAX,
        i32::MIN <= c.1 - r && c.1 + r <= i32::MAX,
    ensures
        disc_points(c, r, m).contains(t) <==> (-r <= t.1 - c.1 < -r + m && -r <= t.0 - c.0 <= r
            && in_disc(t.0 - c.0, t.1 - c.1, r)),
    decreases m,
{
    broadcast use vstd::seq_lib::lemma_seq_concat_contains_all_elements;
    broadcast use vstd::seq_lib::lemma_seq_empty_contains_nothing;

    if m > 0 {
        lemma_disc_points_members(c, r, (m - 1) as nat, t);
        lemma_row_points_members(c, r, -r + m - 1, (2 * r + 1) as nat, t);
    }
}

/// A tile lies within distance `r` of the centre only when each of its offsets
/// is at most `r`.
proof fn lemma_in_disc_bounds(dx: int, dy: int, r: int)
    requires
        0 <= r,
        in_disc(dx, dy, r),
    ensures
        -r <= dx <= r,
        -r <= dy <= r,
{
    assert(0 <= dy * dy && 0 <= dx * dx) by (nonlinear_arith);
    assert(dx * dx <= r * r ==> -r <= dx <= r) by (nonlinear_arith)
        requires
            0 <= r,
    ;
    assert(dy * dy <= r * r ==> -r <= dy <= r) by (nonlinear_arith)
        requires
            0 <= r,
    ;
}

/// A light of radius `radius` at `center` reaches a tile exactly when the tile
/// lies within Euclidean distance `radius` of the centre.
pub proof fn lemma_visible_tiles_members(center: (i32, i32), radius: i32, t: (i32, i32))
    requires
        0 <= radius,
        i32::MIN <= center.0 - radius && center.0 + radius <= i32::MAX,
        i32::MIN <= center.1 - radius && center.1 + radius <= i32::MAX,
    ensures
        disc_points(center, radius as int, (2 * radius + 1) as nat).contains(t) <==> in_disc(
            t.0 - center.0,
            t.1 - center.1,
            radius as int,
        ),
{
    lemma_disc_points_members(center, radius as int, (2 * radius + 1) as nat, t);
    if in_disc(t.0 - center.0, t.1 - center.1, radius as int) {
        lemma_in_disc_bounds(t.0 - center.0, t.1 - center.1, radius as int);
    }
}

} // verus!
