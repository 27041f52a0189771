use vstd::prelude::*;

use crate::map::{lemma_index_in_range, GridMap, Point, WALL};

verus! {

/// `v` without its sign.
pub open spec fn magnitude(v: int) -> int {
    if v < 0 {
        -v
    } else {
        v
    }
}

/// The number of steps of the sight line over the offset `(dx, dy)`.
pub open spec fn reach(dx: int, dy: int) -> int {
    if magnitude(dx) >= magnitude(dy) {
        magnitude(dx)
    } else {
        magnitude(dy)
    }
}

/// How far along one axis the sight line has come after `k` of its `n`
/// steps, where the whole line covers `d` along that axis: `k * d / n`,
/// rounded to the nearest whole number, a half away from zero.
pub open spec fn advance(k: int, d: int, n: int) -> int {
    if d >= 0 {
        (2 * k * d + n) / (2 * n)
    } else {
        -((2 * k * (-d) + n) / (2 * n))
    }
}

/// The cell that the sight line from `(ox, oy)` to `(tx, ty)` crosses at
/// step `k`. Step 0 is the origin and the last step is the target.
pub open spec fn sight_cell(ox: int, oy: int, tx: int, ty: int, k: int) -> (int, int) {
    let n = reach(tx - ox, ty - oy);
    if n == 0 {
        (ox, oy)
    } else {
        (ox + advance(k, tx - ox, n), oy + advance(k, ty - oy, n))
    }
}

/// `(x, y)` stops sight: it holds a wall, or lies outside the grid.
pub open spec fn stops_sight(map: &GridMap, x: int, y: int) -> bool {
    !map.in_bounds(x, y) || map.glyph_map@[map.index_of(x, y)] == WALL
}

/// No cell strictly between the origin and the target on the sight line
/// stops sight.
pub open spec fn clear_between(map: &GridMap, ox: int, oy: int, tx: int, ty: int) -> bool {
    forall|k: int|
        0 < k < reach(tx - ox, ty - oy) ==> {
            let c = #[trigger] sight_cell(ox, oy, tx, ty, k);
            !stops_sight(map, c.0, c.1)
        }
}

/// The target is no further than `range` from the origin, in a straight line.
pub open spec fn within_range(ox: int, oy: int, tx: int, ty: int, range: int) -> bool {
    range >= 0 && (tx - ox) * (tx - ox) + (ty - oy) * (ty - oy) <= range * range
}

/// The cell `target` is seen from `origin` at sight range `range`: it is a
/// cell of the grid, within range, with nothing between that stops sight.
pub open spec fn sees(map: &GridMap, origin: Point, range: int, target: Point) -> bool {
    &&& map.in_bounds(target.x as int, target.y as int)
    &&& within_range(origin.x as int, origin.y as int, target.x as int, target.y as int, range)
    &&& clear_between(map, origin.x as int, origin.y as int, target.x as int, target.y as int)
}

/// The sight line starts at the origin, ends at the target, and in between
/// never runs further along an axis than the target lies.
pub proof fn lemma_advance_bounds(k: int, d: int, n: int)
    requires
        0 <= k <= n,
        0 < n,
        magnitude(d) <= n,
    ensures
        magnitude(advance(k, d, n)) <= magnitude(d),
        d >= 0 ==> advance(k, d, n) >= 0,
        d <= 0 ==> advance(k, d, n) <= 0,
        k == 0 ==> advance(k, d, n) == 0,
        k == n ==> advance(k, d, n) == d,
{
    let a = magnitude(d);
    let q = (2 * k * a + n) / (2 * n);
    assert(0 <= 2 * k * a) by (nonlinear_arith)
        requires
            0 <= k,
            0 <= a,
    ;
    assert(2 * k * a <= 2 * n * a) by (nonlinear_arith)
        requires
            0 <= k <= n,
            0 <= a,
    ;
    vstd::arithmetic::div_mod::lemma_fundamental_div_mod(2 * k * a + n, 2 * n);
    vstd::arithmetic::div_mod::lemma_mod_bound(2 * k * a + n, 2 * n);
    let r = (2 * k * a + n) % (2 * n);
    assert(2 * n * q + r == 2 * k * a + n);
    assert(q >= 0) by (nonlinear_arith)
        requires
            2 * n * q + r == 2 * k * a + n,
            0 <= r < 2 * n,
            0 <= 2 * k * a,
            0 < n,
    ;
    assert(q <= a) by (nonlinear_arith)
        requires
            2 * n * q + r == 2 * k * a + n,
            0 <= r,
            2 * k * a <= 2 * n * a,
            0 < n,
    ;
    if k == 0 {
        assert(2 * k * a == 0) by (nonlinear_arith)
            requires
                k == 0,
        ;
        assert(q == 0) by (nonlinear_arith)
            requires
                2 * n * q + r == n,
                0 <= r,
                q >= 0,
                0 < n,
        ;
    }
    if k == n {
        assert(q == a) by (nonlinear_arith)
            requires
                2 * n * q + r == 2 * n * a + n,
                0 <= r < 2 * n,
                0 < n,
        ;
    }
    if d >= 0 {
        assert(2 * k * d == 2 * k * a);
    } else {
        assert(2 * k * (-d) == 2 * k * a);
    }
}

/// `advance(k, d, n)`, computed.
fn advance_by(k: u64, d: i64, n: u64) -> (step: i64)
    requires
        k <= n,
        0 < n <= i32::MAX,
        magnitude(d as int) <= n,
    ensures
        step == advance(k as int, d as int, n as int),
        magnitude(step as int) <= magnitude(d as int),
{
    proof {
        lemma_advance_bounds(k as int, d as int, n as int);
    }
    let a: u64 = if d < 0 {
        (-d) as u64
    } else {
        d as u64
    };
    assert(2 * k * a <= 0x7fff_fffe_0000_0002) by (nonlinear_arith)
        requires
            k <= 0x7fff_ffff,
            a <= 0x7fff_ffff,
    ;
    let q: u64 = (2 * k * a + n) / (2 * n);
    if d < 0 {
        -(q as i64)
    } else {
        q as i64
    }
}

/// Whether nothing between `origin` and `target` stops sight.
fn line_is_clear(map: &GridMap, origin: Point, target: Point) -> (clear: bool)
    requires
        map.shaped(),
        magnitude(target.x - origin.x) <= i32::MAX,
        magnitude(target.y - origin.y) <= i32::MAX,
    ensures
        clear == clear_between(
            map,
            origin.x as int,
            origin.y as int,
            target.x as int,
            target.y as int,
        ),
{
    let dx: i64 = target.x as i64 - origin.x as i64;
    let dy: i64 = target.y as i64 - origin.y as i64;
    let ax: u64 = if dx < 0 {
        (-dx) as u64
    } else {
        dx as u64
    };
    let ay: u64 = if dy < 0 {
        (-dy) as u64
    } else {
        dy as u64
    };
    let n: u64 = if ax >= ay {
        ax
    } else {
        ay
    };
    assert(n == reach(target.x - origin.x, target.y - origin.y));
    let mut k: u64 = 1;
    while k < n
        invariant
            1 <= k,
            n == reach(target.x - origin.x, target.y - origin.y),
            n <= i32::MAX,
            dx == target.x - origin.x,
            dy == target.y - origin.y,
            map.shaped(),
            forall|j: int|
                0 < j < k ==> {
                    let c = #[trigger] sight_cell(
                        origin.x as int,
                        origin.y as int,
                        target.x as int,
                        target.y as int,
                        j,
                    );
                    !stops_sight(map, c.0, c.1)
                },
        decreases n - k,
    {
        let x: i64 = origin.x as i64 + advance_by(k, dx, n);
        let y: i64 = origin.y as i64 + advance_by(k, dy, n);
        let ghost c = sight_cell(
            origin.x as int,
            origin.y as int,
            target.x as int,
            target.y as int,
            k as int,
        );
        assert(c == (x as int, y as int));
        if x < 0 || x >= map.width as i64 || y < 0 || y >= map.height as i64 {
            assert(stops_sight(map, c.0, c.1));
            return false;
        }
        proof {
            lemma_index_in_range(map.width as int, map.height as int, x as int, y as int);
        }
        let idx: usize = y as usize * map.width as usize + x as usize;
        if map.is_opaque(idx) {
            assert(stops_sight(map, c.0, c.1));
            return false;
        }
        k += 1;
    }
    true
}

/// The cells seen from `origin` at sight range `range`, in the order of
/// their indices: every cell of the grid that lies no further than `range`
/// from the origin and has nothing between that stops sight.
pub fn compute_visible(origin: Point, range: i32, map: &GridMap) -> (visible: Vec<Point>)
    requires
        map.shaped(),
    ensures
        forall|p: Point| visible@.contains(p) <==> sees(map, origin, range as int, p),
        forall|j: int, k: int|
            0 <= j < k < visible@.len() ==> map.index_of(
                visible@[j].x as int,
                visible@[j].y as int,
            ) < map.index_of(visible@[k].x as int, visible@[k].y as int),
        visible@.no_duplicates(),
        range == 0 && map.in_bounds(origin.x as int, origin.y as int) ==> visible@ == seq![origin],
{
    let mut visible: Vec<Point> = Vec::new();
    let n: usize = map.glyph_map.len();
    let ghost w = map.width as int;
    let ghost h = map.height as int;
    let mut index: usize = 0;
    if range >= 0 {
        assert(0 <= range * range <= 0x3fff_ffff_0000_0001) by (nonlinear_arith)
            requires
                0 <= range <= 0x7fff_ffff,
        ;
        let limit: i64 = range as i64 * range as i64;
        while index < n
            invariant
                index <= n,
                n == map.cells(),
                map.shaped(),
                w == map.width,
                h == map.height,
                range >= 0,
                limit == range * range,
                forall|k: int|
                    0 <= k < visible@.len() ==> {
                        let p = #[trigger] visible@[k];
                        &&& sees(map, origin, range as int, p)
                        &&& map.index_of(p.x as int, p.y as int) < index
                    },
                forall|j: int, k: int|
                    0 <= j < k < visible@.len() ==> map.index_of(
                        visible@[j].x as int,
                        visible@[j].y as int,
                    ) < map.index_of(visible@[k].x as int, visible@[k].y as int),
                forall|i: int|
                    0 <= i < index ==> {
                        let p = #[trigger] point_of(map, i);
                        sees(map, origin, range as int, p) ==> visible@.contains(p)
                    },
            decreases n - index,
        {
            let cell = map.index_to_point2d(index);
            assert(cell == point_of(map, index as int));
            let dx: i64 = cell.x as i64 - origin.x as i64;
            let dy: i64 = cell.y as i64 - origin.y as i64;
            let r: i64 = range as i64;
            let ghost before = visible@;
            let mut seen: bool = false;
            if -r <= dx && dx <= r && -r <= dy && dy <= r {
                assert(0 <= dx * dx <= 0x3fff_ffff_0000_0001) by (nonlinear_arith)
                    requires
                        -0x7fff_ffff <= dx <= 0x7fff_ffff,
                ;
                assert(0 <= dy * dy <= 0x3fff_ffff_0000_0001) by (nonlinear_arith)
                    requires
                        -0x7fff_ffff <= dy <= 0x7fff_ffff,
                ;
                if dx * dx + dy * dy <= limit {
                    seen = line_is_clear(map, origin, cell);
                }
            } else {
                proof {
                    lemma_square_grows(dx as int, r as int);
                    lemma_square_grows(dy as int, r as int);
                    assert(dx * dx >= 0) by (nonlinear_arith);
                    assert(dy * dy >= 0) by (nonlinear_arith);
                }
            }
            assert(seen == sees(map, origin, range as int, cell));
            if seen {
                visible.push(cell);
                assert(visible@[before.len() as int] == cell);
            }
            proof {
                assert forall|i: int| 0 <= i < index + 1 implies {
                    let p = #[trigger] point_of(map, i);
                    sees(map, origin, range as int, p) ==> visible@.contains(p)
                } by {
                    let p = point_of(map, i);
                    if sees(map, origin, range as int, p) {
                        if i < index {
                            let k = choose|k: int| 0 <= k < before.len() && before[k] == p;
                            assert(visible@[k] == p);
                        }
                    }
                }
            }
            index += 1;
        }
    }
    proof {
        assert forall|p: Point| visible@.contains(p) <==> sees(
            map,
            origin,
            range as int,
            p,
        ) by {
            if sees(map, origin, range as int, p) {
                lemma_index_in_range(w, h, p.x as int, p.y as int);
                let i = map.index_of(p.x as int, p.y as int);
                assert(point_of(map, i) == p);
            }
        }
        assert forall|j: int, k: int| 0 <= j < k < visible@.len() implies visible@[j]
            != visible@[k] by {}
        if range == 0 && map.in_bounds(origin.x as int, origin.y as int) {
            lemma_range_zero_sees_origin_only(map, origin, origin);
            assert(visible@.contains(origin));
            assert forall|k: int| 0 <= k < visible@.len() implies visible@[k] == origin by {
                lemma_range_zero_sees_origin_only(map, origin, visible@[k]);
            }
            if visible@.len() > 1 {
                assert(visible@[0] == visible@[1]);
            }
            assert(visible@ =~= seq![origin]);
        }
    }
    visible
}

/// The cell with index `idx`, as a point.
pub open spec fn point_of(map: &GridMap, idx: int) -> Point {
    Point { x: map.column_of(idx) as i32, y: map.row_of(idx) as i32 }
}

/// A number further from zero than `bound` has a larger square.
proof fn lemma_square_grows(v: int, bound: int)
    requires
        0 <= bound,
    ensures
        (v < -bound || v > bound) ==> v * v > bound * bound,
{
    if v > bound {
        assert(v * v > bound * bound) by (nonlinear_arith)
            requires
                v > bound,
                bound >= 0,
        ;
    }
    if v < -bound {
        assert(v * v > bound * bound) by (nonlinear_arith)
            requires
                v < -bound,
                bound >= 0,
        ;
    }
}

/// At sight range 0 a cell is seen exactly if it is the origin and the
/// origin is a cell of the grid.
pub proof fn lemma_range_zero_sees_origin_only(map: &GridMap, origin: Point, target: Point)
    ensures
        sees(map, origin, 0, target) <==> (target == origin && map.in_bounds(
            origin.x as int,
            origin.y as int,
        )),
{
    let dx = target.x - origin.x;
    let dy = target.y - origin.y;
    assert(dx * dx + dy * dy <= 0 ==> dx == 0 && dy == 0) by (nonlinear_arith);
    assert(0 * 0 == 0) by (nonlinear_arith);
    if dx == 0 && dy == 0 {
        assert(dx * dx + dy * dy == 0) by (nonlinear_arith)
            requires
                dx == 0,
                dy == 0,
        ;
    }
}

/// A cell that is seen has no wall between it and the origin: every cell
/// that the sight line crosses on the way is a cell of the grid and holds
/// no wall.
pub proof fn lemma_seen_cell_is_not_behind_wall(
    map: &GridMap,
    origin: Point,
    range: int,
    target: Point,
    k: int,
)
    requires
        sees(map, origin, range, target),
        0 < k < reach(target.x - origin.x, target.y - origin.y),
    ensures
        ({
            let c = sight_cell(
                origin.x as int,
                origin.y as int,
                target.x as int,
                target.y as int,
                k,
            );
            map.in_bounds(c.0, c.1) && map.glyph_map@[map.index_of(c.0, c.1)] != WALL
        }),
{
}

/// Where no cell holds a wall, a cell is seen from an origin in the grid
/// exactly if it is a cell of the grid within range.
pub proof fn lemma_open_ground_is_seen(map: &GridMap, origin: Point, range: int, target: Point)
    requires
        map.shaped(),
        map.in_bounds(origin.x as int, origin.y as int),
        forall|i: int| 0 <= i < map.cells() ==> map.glyph_map@[i] != WALL,
    ensures
        sees(map, origin, range, target) <==> (map.in_bounds(target.x as int, target.y as int)
            && within_range(
            origin.x as int,
            origin.y as int,
            target.x as int,
            target.y as int,
            range,
        )),
{
    let ox = origin.x as int;
    let oy = origin.y as int;
    let tx = target.x as int;
    let ty = target.y as int;
    if map.in_bounds(tx, ty) {
        let n = reach(tx - ox, ty - oy);
        assert forall|k: int| 0 < k < n implies {
            let c = #[trigger] sight_cell(ox, oy, tx, ty, k);
            !stops_sight(map, c.0, c.1)
        } by {
            let c = sight_cell(ox, oy, tx, ty, k);
            lemma_advance_bounds(k, tx - ox, n);
            lemma_advance_bounds(k, ty - oy, n);
            assert(map.in_bounds(c.0, c.1));
            lemma_index_in_range(map.width as int, map.height as int, c.0, c.1);
        }
    }
}

} // verus!

