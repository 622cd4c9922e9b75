use vstd::prelude::*;
use crate::components::Point;
use crate::map::{GameMap, TileType, in_bounds, idx_of, MAP_WIDTH, MAP_HEIGHT};

verus! {

/// Whether `(x, y)` is a floor cell of `grid`.
pub open spec fn floor_at(grid: Seq<TileType>, x: int, y: int) -> bool {
    in_bounds(x, y) && grid[idx_of(x, y)] == TileType::Floor
}

pub open spec fn abs_int(a: int) -> int {
    if a < 0 { -a } else { a }
}

/// Number of steps on the line from `o` to `t`: the larger of the two offsets.
pub open spec fn line_len(ox: int, oy: int, tx: int, ty: int) -> int {
    let dx = abs_int(tx - ox);
    let dy = abs_int(ty - oy);
    if dx >= dy { dx } else { dy }
}

/// Offset after `k` of `n` steps along an axis that moves `d` in all: the
/// nearest whole cell to `d * k / n`, halves rounded up.
pub open spec fn line_offset(d: int, k: int, n: int) -> int {
    (2 * d * k + n + 2 * n * n) / (2 * n) - n
}

/// Nothing but floor lies strictly between `(ox, oy)` and `(tx, ty)`.
pub open spec fn clear_line(grid: Seq<TileType>, ox: int, oy: int, tx: int, ty: int) -> bool {
    let n = line_len(ox, oy, tx, ty);
    forall|k: int| 1 <= k < n ==> #[trigger] floor_at(grid,
        ox + line_offset(tx - ox, k, n), oy + line_offset(ty - oy, k, n))
}

pub open spec fn within_range(ox: int, oy: int, range: int, tx: int, ty: int) -> bool {
    (tx - ox) * (tx - ox) + (ty - oy) * (ty - oy) <= range * range
}

/// A viewer at `(ox, oy)` with sight `range` sees the floor cell `(tx, ty)`:
/// it is within that distance and the line to it is clear.
pub open spec fn sees(grid: Seq<TileType>, ox: int, oy: int, range: int, tx: int, ty: int) -> bool {
    &&& 0 <= range
    &&& floor_at(grid, tx, ty)
    &&& within_range(ox, oy, range, tx, ty)
    &&& clear_line(grid, ox, oy, tx, ty)
}

/// `tiles` holds exactly the cells that a viewer at `(ox, oy)` with sight
/// `range` sees.
pub open spec fn is_field_of_view(tiles: Seq<Point>, grid: Seq<TileType>, ox: int, oy: int, range: int) -> bool {
    &&& forall|i: int| 0 <= i < tiles.len() ==>
        sees(grid, ox, oy, range, (#[trigger] tiles[i]).x as int, tiles[i].y as int)
    &&& forall|x: int, y: int| #[trigger] sees(grid, ox, oy, range, x, y)
        ==> tiles.contains(Point { x: x as i32, y: y as i32 })
}

proof fn lemma_offset_bounds(d: int, k: int, n: int)
    requires
        1 <= n <= 100,
        -n <= d <= n,
        0 <= k <= n,
    ensures
        -(n * n) <= d * k <= n * n,
        n <= n * n <= 10000,
        2 * d * k == 2 * (d * k),
        2 * n * n == 2 * (n * n),
{
    assert(2 * n * n == 2 * (n * n)) by (nonlinear_arith);
    assert(-(n * n) <= d * k <= n * n) by (nonlinear_arith)
        requires -n <= d <= n, 0 <= k <= n, 1 <= n;
    assert(n <= n * n) by (nonlinear_arith) requires 1 <= n;
    assert(n * n <= 10000) by (nonlinear_arith) requires 1 <= n <= 100;
    assert(2 * d * k == 2 * (d * k)) by (nonlinear_arith);
}

/// The cell `k` steps along the line from `(ox, oy)` towards `(tx, ty)`.
fn line_point(ox: i32, oy: i32, tx: i32, ty: i32, k: i32, n: i32) -> (r: (i32, i32))
    requires
        in_bounds(ox as int, oy as int),
        in_bounds(tx as int, ty as int),
        n == line_len(ox as int, oy as int, tx as int, ty as int),
        1 <= k < n,
    ensures
        r.0 as int == ox + line_offset(tx - ox, k as int, n as int),
        r.1 as int == oy + line_offset(ty - oy, k as int, n as int),
{
    let dx: i64 = (tx - ox) as i64;
    let dy: i64 = (ty - oy) as i64;
    let n64: i64 = n as i64;
    let k64: i64 = k as i64;
    proof {
        lemma_offset_bounds(dx as int, k as int, n as int);
        lemma_offset_bounds(dy as int, k as int, n as int);
    }
    let num_x: i64 = 2 * (dx * k64) + n64 + 2 * (n64 * n64);
    let num_y: i64 = 2 * (dy * k64) + n64 + 2 * (n64 * n64);
    let qx: u64 = (num_x as u64) / ((2 * n64) as u64);
    let qy: u64 = (num_y as u64) / ((2 * n64) as u64);
    proof {
        assert(qx <= num_x as u64);
        assert(qy <= num_y as u64);
        assert(qx as int == (2 * (dx as int) * (k as int) + n + 2 * (n as int) * (n as int)) / (2 * (n as int)));
    }
    ((ox as i64 + (qx as i64) - n64) as i32, (oy as i64 + (qy as i64) - n64) as i32)
}

/// Whether only floor lies strictly between `(ox, oy)` and `(tx, ty)`.
fn line_is_clear(map: &GameMap, ox: i32, oy: i32, tx: i32, ty: i32) -> (r: bool)
    requires
        map.wf(),
        in_bounds(ox as int, oy as int),
        in_bounds(tx as int, ty as int),
    ensures
        r == clear_line(map.tiles@, ox as int, oy as int, tx as int, ty as int),
{
    let dx: i32 = if tx >= ox { tx - ox } else { ox - tx };
    let dy: i32 = if ty >= oy { ty - oy } else { oy - ty };
    let n: i32 = if dx >= dy { dx } else { dy };
    let mut k: i32 = 1;
    while k < n
        invariant
            map.wf(),
            in_bounds(ox as int, oy as int),
            in_bounds(tx as int, ty as int),
            n == line_len(ox as int, oy as int, tx as int, ty as int),
            1 <= k,
            k <= n || n <= 1,
            forall|j: int| 1 <= j < k ==> #[trigger] floor_at(map.tiles@,
                ox + line_offset(tx - ox, j, n as int), oy + line_offset(ty - oy, j, n as int)),
        decreases n - k,
    {
        let (px, py) = line_point(ox, oy, tx, ty, k, n);
        if map.tile_at(px, py) != TileType::Floor {
            assert(!floor_at(map.tiles@, ox + line_offset(tx - ox, k as int, n as int),
                oy + line_offset(ty - oy, k as int, n as int)));
            return false;
        }
        k = k + 1;
    }
    true
}

/// Every cell that a viewer at `(ox, oy)` with sight `range` sees: floor
/// within that distance with only floor on the line to it.
pub fn field_of_view(map: &GameMap, ox: i32, oy: i32, range: i32) -> (r: Vec<Point>)
    requires
        map.wf(),
        in_bounds(ox as int, oy as int),
    ensures
        is_field_of_view(r@, map.tiles@, ox as int, oy as int, range as int),
        r@.no_duplicates(),
{
    let mut r: Vec<Point> = Vec::new();
    if range < 0 {
        return r;
    }
    assert((range as i64) * (range as i64) <= 0x4000_0000_0000_0000) by (nonlinear_arith)
        requires 0 <= range <= 0x7fff_ffff;
    let range2: i64 = (range as i64) * (range as i64);
    let mut y: i32 = 0;
    while y < MAP_HEIGHT
        invariant
            map.wf(),
            in_bounds(ox as int, oy as int),
            0 <= range,
            range2 == range * range,
            0 <= y <= MAP_HEIGHT,
            r@.no_duplicates(),
            forall|i: int| 0 <= i < r@.len() ==> (#[trigger] r@[i]).y < y,
            forall|i: int| 0 <= i < r@.len() ==>
                sees(map.tiles@, ox as int, oy as int, range as int, (#[trigger] r@[i]).x as int, r@[i].y as int),
            forall|a: int, b: int| b < y && #[trigger] sees(map.tiles@, ox as int, oy as int, range as int, a, b)
                ==> r@.contains(Point { x: a as i32, y: b as i32 }),
        decreases MAP_HEIGHT - y,
    {
        let mut x: i32 = 0;
        while x < MAP_WIDTH
            invariant
                map.wf(),
                in_bounds(ox as int, oy as int),
                0 <= range,
                range2 == range * range,
                0 <= y < MAP_HEIGHT,
                0 <= x <= MAP_WIDTH,
                r@.no_duplicates(),
                forall|i: int| 0 <= i < r@.len() ==> (#[trigger] r@[i]).y < y || (r@[i].y == y && r@[i].x < x),
                forall|i: int| 0 <= i < r@.len() ==>
                    sees(map.tiles@, ox as int, oy as int, range as int, (#[trigger] r@[i]).x as int, r@[i].y as int),
                forall|a: int, b: int| (b < y || (b == y && a < x))
                    && #[trigger] sees(map.tiles@, ox as int, oy as int, range as int, a, b)
                    ==> r@.contains(Point { x: a as i32, y: b as i32 }),
            decreases MAP_WIDTH - x,
        {
            let ddx: i64 = (x - ox) as i64;
            let ddy: i64 = (y - oy) as i64;
            proof {
                assert(ddx * ddx <= 6400) by (nonlinear_arith) requires -80 <= ddx <= 80;
                assert(ddy * ddy <= 6400) by (nonlinear_arith) requires -80 <= ddy <= 80;
                assert(0 <= ddx * ddx) by (nonlinear_arith);
                assert(0 <= ddy * ddy) by (nonlinear_arith);
            }
            if ddx * ddx + ddy * ddy <= range2 && map.tile_at(x, y) == TileType::Floor
                && line_is_clear(map, ox, oy, x, y) {
                let ghost before = r@;
                r.push(Point { x, y });
                proof {
                    assert(r@[before.len() as int] == Point { x, y });
                    assert forall|i: int, j: int| 0 <= i < r@.len() && 0 <= j < r@.len() && i != j
                        implies r@[i] != r@[j] by {
                        if i < before.len() && j < before.len() {
                            assert(before[i] != before[j]);
                        } else if i < before.len() {
                            assert(r@[i] == before[i]);
                        } else {
                            assert(r@[j] == before[j]);
                        }
                    }
                    assert forall|a: int, b: int| (b < y || (b == y && a <= x))
                        && #[trigger] sees(map.tiles@, ox as int, oy as int, range as int, a, b)
                        implies r@.contains(Point { x: a as i32, y: b as i32 }) by {
                        if b == y && a == x {
                            assert(r@[before.len() as int] == Point { x: a as i32, y: b as i32 });
                        } else {
                            let i = choose|i: int| 0 <= i < before.len()
                                && before[i] == Point { x: a as i32, y: b as i32 };
                            assert(r@[i] == before[i]);
                        }
                    }
                }
            }
            x = x + 1;
        }
        y = y + 1;
    }
    proof {
        assert forall|a: int, b: int| #[trigger] sees(map.tiles@, ox as int, oy as int, range as int, a, b)
            implies r@.contains(Point { x: a as i32, y: b as i32 }) by {
            assert(in_bounds(a, b));
        }
    }
    r
}

/// Shrinking the sight range never adds a cell: with the map and the viewer
/// fixed, whatever is seen with range `r1` is also seen with any `r2 >= r1`.
pub proof fn lemma_view_monotone_in_range(
    grid: Seq<TileType>,
    ox: int,
    oy: int,
    r1: int,
    r2: int,
    small: Seq<Point>,
    large: Seq<Point>,
)
    requires
        r1 <= r2,
        is_field_of_view(small, grid, ox, oy, r1),
        is_field_of_view(large, grid, ox, oy, r2),
    ensures
        forall|i: int| 0 <= i < small.len() ==> large.contains(#[trigger] small[i]),
{
    assert forall|i: int| 0 <= i < small.len() implies large.contains(#[trigger] small[i]) by {
        let (x, y) = (small[i].x as int, small[i].y as int);
        assert(sees(grid, ox, oy, r1, x, y));
        assert(r1 * r1 <= r2 * r2) by (nonlinear_arith) requires 0 <= r1 <= r2;
        assert(sees(grid, ox, oy, r2, x, y));
        assert(Point { x: x as i32, y: y as i32 } == small[i]);
    }
}

/// Once the range reaches the grid's diagonal, a larger one sees nothing more:
/// the two fields of view hold the same cells.
pub proof fn lemma_view_stops_growing(
    grid: Seq<TileType>,
    ox: int,
    oy: int,
    r1: int,
    r2: int,
    first: Seq<Point>,
    second: Seq<Point>,
)
    requires
        in_bounds(ox, oy),
        0 <= r1 <= r2,
        (MAP_WIDTH - 1) * (MAP_WIDTH - 1) + (MAP_HEIGHT - 1) * (MAP_HEIGHT - 1) <= r1 * r1,
        is_field_of_view(first, grid, ox, oy, r1),
        is_field_of_view(second, grid, ox, oy, r2),
    ensures
        forall|i: int| 0 <= i < first.len() ==> second.contains(#[trigger] first[i]),
        forall|i: int| 0 <= i < second.len() ==> first.contains(#[trigger] second[i]),
{
    lemma_view_monotone_in_range(grid, ox, oy, r1, r2, first, second);
    assert forall|i: int| 0 <= i < second.len() implies first.contains(#[trigger] second[i]) by {
        let (x, y) = (second[i].x as int, second[i].y as int);
        assert(sees(grid, ox, oy, r2, x, y));
        assert((x - ox) * (x - ox) <= (MAP_WIDTH - 1) * (MAP_WIDTH - 1)) by (nonlinear_arith)
            requires -(MAP_WIDTH - 1) <= x - ox <= MAP_WIDTH - 1;
        assert((y - oy) * (y - oy) <= (MAP_HEIGHT - 1) * (MAP_HEIGHT - 1)) by (nonlinear_arith)
            requires -(MAP_HEIGHT - 1) <= y - oy <= MAP_HEIGHT - 1;
        assert(sees(grid, ox, oy, r1, x, y));
        assert(Point { x: x as i32, y: y as i32 } == second[i]);
    }
}

} // verus!
