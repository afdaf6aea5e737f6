//! Sub-cell polyline rasterizer: a connected line through points on a glyph
//! family's sub-cell grid, with the lit sub-cells of each cell folded into
//! one glyph.

use vstd::prelude::*;

use crate::braille::{
    braille_char, braille_shows, braille_symbol, digit, lemma_binary_digits, lemma_braille_char_dots, pattern_bit,
    row_major_dot,
};
use crate::canvas::{lemma_resetting_twice, overlay, Canvas, Paint};
use crate::marker::Marker;
use crate::quadrant::{self, quadrant_glyph};

verus! {

/// The absolute value of `v`.
pub open spec fn abs(v: int) -> int {
    if v < 0 { -v } else { v }
}

/// The x or y step from `from` toward `to`: `1` or `-1`.
pub open spec fn toward(from: int, to: int) -> int {
    if from < to { 1 } else { -1 }
}

/// Bresenham's error term at the point `p` of the walk from `a` to `b`: how
/// far the integer point strays from the ideal line, scaled by the deltas.
pub open spec fn step_error(a: (int, int), b: (int, int), p: (int, int)) -> int {
    let dx = abs(b.0 - a.0);
    let dy = abs(b.1 - a.1);
    dx * (1 + abs(p.1 - a.1)) - dy * (1 + abs(p.0 - a.0))
}

/// The point after `p` on the walk from `a` to `b`: a step in x when twice the
/// error is at least `-dy`, and a step in y when it is at most `dx`.
pub open spec fn next_point(a: (int, int), b: (int, int), p: (int, int)) -> (int, int) {
    let dx = abs(b.0 - a.0);
    let dy = abs(b.1 - a.1);
    let e2 = 2 * step_error(a, b, p);
    (
        if e2 >= -dy { p.0 + toward(a.0, b.0) } else { p.0 },
        if e2 <= dx { p.1 + toward(a.1, b.1) } else { p.1 },
    )
}

/// The walk from `p` toward `b`, taking at most `fuel` steps and stopping at
/// `b`.
pub open spec fn walk(a: (int, int), b: (int, int), p: (int, int), fuel: nat) -> Seq<(int, int)>
    decreases fuel,
{
    if fuel == 0 || p == b {
        seq![p]
    } else {
        seq![p] + walk(a, b, next_point(a, b, p), (fuel - 1) as nat)
    }
}

/// How many unit moves separate `p` from `b`, counting x and y separately.
pub open spec fn distance(p: (int, int), b: (int, int)) -> nat {
    (abs(b.0 - p.0) + abs(b.1 - p.1)) as nat
}

/// The integer points of the segment from `a` to `b`, both inclusive, in the
/// order Bresenham's line algorithm visits them.
pub open spec fn segment_points(a: (int, int), b: (int, int)) -> Seq<(int, int)> {
    walk(a, b, a, distance(a, b))
}

/// Whether `q` is one of the eight neighbors of `p`.
pub open spec fn neighbors(p: (int, int), q: (int, int)) -> bool {
    abs(q.0 - p.0) <= 1 && abs(q.1 - p.1) <= 1 && q != p
}

/// Whether each point of `s` is a neighbor of the one before it.
pub open spec fn connected(s: Seq<(int, int)>) -> bool {
    forall|i: int| 0 <= i < s.len() - 1 ==> #[trigger] neighbors(s[i], s[i + 1])
}

/// Whether `v` lies between `from` and `to`, inclusive.
pub open spec fn between(v: int, from: int, to: int) -> bool {
    (from <= v <= to) || (to <= v <= from)
}

/// Whether `p` lies in the bounding box of the segment from `a` to `b`.
pub open spec fn in_box(a: (int, int), b: (int, int), p: (int, int)) -> bool {
    between(p.0, a.0, b.0) && between(p.1, a.1, b.1)
}

proof fn lemma_mul_le(x: int, y: int, z: int)
    by (nonlinear_arith)
    requires
        0 <= x,
        y <= z,
    ensures
        x * y <= x * z,
{
}

/// A step from a point of the box that is not yet `b` stays in the box and
/// brings the walk strictly closer to `b`.
proof fn lemma_step(a: (int, int), b: (int, int), p: (int, int))
    requires
        in_box(a, b, p),
        p != b,
    ensures
        in_box(a, b, next_point(a, b, p)),
        distance(next_point(a, b, p), b) < distance(p, b),
        abs(next_point(a, b, p).0 - p.0) <= 1,
        abs(next_point(a, b, p).1 - p.1) <= 1,
{
    let dx = abs(b.0 - a.0);
    let dy = abs(b.1 - a.1);
    let nx = abs(p.0 - a.0);
    let ny = abs(p.1 - a.1);
    let e = step_error(a, b, p);
    assert(nx <= dx && ny <= dy);
    lemma_distrib(dy, dx);
    lemma_distrib(dx, dy);
    if nx == dx {
        // x has arrived, so y has not: the error forbids another x step.
        lemma_mul_le(dx, 1 + ny, dy);
        assert(2 * e < -dy);
    }
    if ny == dy {
        // y has arrived, so x has not: the error forbids another y step.
        lemma_mul_le(dy, 1 + nx, dx);
        assert(2 * e > dx);
    }
}

proof fn lemma_distrib(x: int, y: int)
    by (nonlinear_arith)
    ensures
        x * (1 + y) == x + x * y,
        x * y == y * x,
{
}

/// Once the fuel covers the distance to `b`, more fuel does not change the
/// walk.
proof fn lemma_walk_fuel(a: (int, int), b: (int, int), p: (int, int), f1: nat, f2: nat)
    requires
        in_box(a, b, p),
        f1 >= distance(p, b),
        f2 >= distance(p, b),
    ensures
        walk(a, b, p, f1) == walk(a, b, p, f2),
    decreases f1,
{
    if p != b {
        lemma_step(a, b, p);
        lemma_walk_fuel(a, b, next_point(a, b, p), (f1 - 1) as nat, (f2 - 1) as nat);
    }
}

/// The walk from `p` starts at `p`, ends at `b`, and moves to a neighboring
/// point at each step.
proof fn lemma_walk_shape(a: (int, int), b: (int, int), p: (int, int), fuel: nat)
    requires
        in_box(a, b, p),
        fuel >= distance(p, b),
    ensures
        walk(a, b, p, fuel).len() >= 1,
        walk(a, b, p, fuel)[0] == p,
        walk(a, b, p, fuel).last() == b,
        walk(a, b, p, fuel).len() <= distance(p, b) + 1,
        forall|i: int|
            0 <= i < walk(a, b, p, fuel).len() ==> in_box(a, b, #[trigger] walk(a, b, p, fuel)[i]),
        connected(walk(a, b, p, fuel)),
    decreases fuel,
{
    if p != b {
        lemma_step(a, b, p);
        let n = next_point(a, b, p);
        lemma_walk_shape(a, b, n, (fuel - 1) as nat);
        let rest = walk(a, b, n, (fuel - 1) as nat);
        let s = walk(a, b, p, fuel);
        assert(s == seq![p] + rest);
        assert forall|i: int| 0 <= i < s.len() implies in_box(a, b, #[trigger] s[i]) by {
            if i > 0 {
                assert(s[i] == rest[i - 1]);
            }
        }
        assert forall|i: int| 0 <= i < s.len() - 1 implies #[trigger] neighbors(s[i], s[i + 1]) by {
            if i > 0 {
                assert(s[i] == rest[i - 1]);
                assert(s[i + 1] == rest[i]);
                let j = i - 1;
                assert(neighbors(rest[j], rest[j + 1]));
                assert(j + 1 == i);
            } else {
                assert(s[1] == rest[0]);
            }
        }
    }
}

/// The larger of the x and y distances from `a` to `b`.
pub open spec fn chebyshev(a: (int, int), b: (int, int)) -> nat {
    let dx = abs(b.0 - a.0);
    let dy = abs(b.1 - a.1);
    (if dx >= dy { dx } else { dy }) as nat
}

/// Whether `q` follows `p` on a walk from `a` to `b`: each coordinate stays
/// or moves one step toward `b`.
pub open spec fn steps_toward(a: (int, int), b: (int, int), p: (int, int), q: (int, int)) -> bool {
    &&& (q.0 == p.0 || q.0 == p.0 + toward(a.0, b.0))
    &&& (q.1 == p.1 || q.1 == p.1 + toward(a.1, b.1))
}

/// The range twice Bresenham's error term keeps along the walk from `a` to
/// `b`. Within it the error never holds back a step along the longer axis.
spec fn error_in_range(a: (int, int), b: (int, int), p: (int, int)) -> bool {
    let dx = abs(b.0 - a.0);
    let dy = abs(b.1 - a.1);
    let e2 = 2 * step_error(a, b, p);
    if dx >= dy {
        -dy <= e2 <= 3 * dx - 2 * dy
    } else {
        2 * dx - 3 * dy <= e2 <= dx
    }
}

/// A step from a point where the error is in range keeps it in range and
/// advances one unit along the longer axis.
proof fn lemma_error_step(a: (int, int), b: (int, int), p: (int, int))
    requires
        in_box(a, b, p),
        p != b,
        error_in_range(a, b, p),
    ensures
        error_in_range(a, b, next_point(a, b, p)),
        abs(b.0 - a.0) >= abs(b.1 - a.1) ==> abs(next_point(a, b, p).0 - a.0) == abs(p.0 - a.0) + 1,
        abs(b.0 - a.0) < abs(b.1 - a.1) ==> abs(next_point(a, b, p).1 - a.1) == abs(p.1 - a.1) + 1,
{
    lemma_step(a, b, p);
    let n = next_point(a, b, p);
    let dx = abs(b.0 - a.0);
    let dy = abs(b.1 - a.1);
    let nx = abs(p.0 - a.0);
    let ny = abs(p.1 - a.1);
    let e = step_error(a, b, p);
    let x_moves = 2 * e >= -dy;
    let y_moves = 2 * e <= dx;
    let nx2 = if x_moves { nx + 1 } else { nx };
    let ny2 = if y_moves { ny + 1 } else { ny };
    assert(abs(n.0 - a.0) == nx2);
    assert(abs(n.1 - a.1) == ny2);
    lemma_error_x(dx, dy, ny, nx);
    lemma_error_y(dx, dy, ny, nx2);
    assert(step_error(a, b, n) == e - (if x_moves { dy } else { 0 }) + (if y_moves { dx } else { 0 }));
}

/// Along the walk from a point where the error is in range, the coordinate on
/// the longer axis advances by exactly one at every step, and each coordinate
/// only ever stays or moves one step toward `b`.
proof fn lemma_walk_major(a: (int, int), b: (int, int), p: (int, int), fuel: nat)
    requires
        in_box(a, b, p),
        error_in_range(a, b, p),
        fuel >= distance(p, b),
    ensures
        abs(b.0 - a.0) >= abs(b.1 - a.1) ==> {
            &&& walk(a, b, p, fuel).len() == abs(b.0 - a.0) - abs(p.0 - a.0) + 1
            &&& forall|i: int|
                0 <= i < walk(a, b, p, fuel).len() ==> abs(#[trigger] walk(a, b, p, fuel)[i].0 - a.0) == abs(p.0 - a.0) + i
        },
        abs(b.0 - a.0) < abs(b.1 - a.1) ==> {
            &&& walk(a, b, p, fuel).len() == abs(b.1 - a.1) - abs(p.1 - a.1) + 1
            &&& forall|i: int|
                0 <= i < walk(a, b, p, fuel).len() ==> abs(#[trigger] walk(a, b, p, fuel)[i].1 - a.1) == abs(p.1 - a.1) + i
        },
        forall|i: int|
            0 <= i < walk(a, b, p, fuel).len() - 1 ==> steps_toward(
                a,
                b,
                #[trigger] walk(a, b, p, fuel)[i],
                walk(a, b, p, fuel)[i + 1],
            ),
    decreases fuel,
{
    let w = walk(a, b, p, fuel);
    if p != b {
        lemma_step(a, b, p);
        lemma_error_step(a, b, p);
        let n = next_point(a, b, p);
        lemma_walk_major(a, b, n, (fuel - 1) as nat);
        let rest = walk(a, b, n, (fuel - 1) as nat);
        assert(w == seq![p] + rest);
        assert forall|i: int| 0 <= i < w.len() - 1 implies steps_toward(a, b, #[trigger] w[i], w[i + 1]) by {
            if i > 0 {
                assert(w[i] == rest[i - 1]);
                assert(w[i + 1] == rest[i]);
                let j = i - 1;
                assert(steps_toward(a, b, rest[j], rest[j + 1]));
                assert(j + 1 == i);
            } else {
                assert(w[1] == rest[0]);
            }
        }
        if abs(b.0 - a.0) >= abs(b.1 - a.1) {
            assert forall|i: int| 0 <= i < w.len() implies abs(#[trigger] w[i].0 - a.0) == abs(p.0 - a.0) + i by {
                if i > 0 {
                    assert(w[i] == rest[i - 1]);
                }
            }
        } else {
            assert forall|i: int| 0 <= i < w.len() implies abs(#[trigger] w[i].1 - a.1) == abs(p.1 - a.1) + i by {
                if i > 0 {
                    assert(w[i] == rest[i - 1]);
                }
            }
        }
    }
}

/// The error starts in range at `a`.
proof fn lemma_error_starts_in_range(a: (int, int), b: (int, int))
    ensures
        error_in_range(a, b, a),
{
    lemma_error_start(abs(b.0 - a.0), abs(b.1 - a.1));
}

/// The points of a segment begin at `a` and end at `b`; there are exactly one
/// more of them than the larger of the x and y distances, and no point occurs
/// twice; each moves to one of the eight neighbors of the point before it,
/// with each coordinate staying or moving one step toward `b`, so every
/// point lies in the segment's bounding box.
pub proof fn lemma_segment_points(a: (int, int), b: (int, int))
    ensures
        segment_points(a, b).len() == chebyshev(a, b) + 1,
        segment_points(a, b)[0] == a,
        segment_points(a, b).last() == b,
        forall|i: int, j: int|
            0 <= i < j < segment_points(a, b).len() ==> #[trigger] segment_points(a, b)[i]
                != #[trigger] segment_points(a, b)[j],
        forall|i: int|
            0 <= i < segment_points(a, b).len() - 1 ==> steps_toward(
                a,
                b,
                #[trigger] segment_points(a, b)[i],
                segment_points(a, b)[i + 1],
            ),
        forall|i: int|
            0 <= i < segment_points(a, b).len() ==> in_box(a, b, #[trigger] segment_points(a, b)[i]),
        connected(segment_points(a, b)),
{
    let s = segment_points(a, b);
    lemma_walk_shape(a, b, a, distance(a, b));
    lemma_error_starts_in_range(a, b);
    lemma_walk_major(a, b, a, distance(a, b));
    assert forall|i: int, j: int| 0 <= i < j < s.len() implies #[trigger] s[i] != #[trigger] s[j] by {
        if abs(b.0 - a.0) >= abs(b.1 - a.1) {
            assert(abs(s[i].0 - a.0) == i);
            assert(abs(s[j].0 - a.0) == j);
        } else {
            assert(abs(s[i].1 - a.1) == i);
            assert(abs(s[j].1 - a.1) == j);
        }
    }
}

/// The longest x or y extent a segment may have, a third of `i64::MAX`: up
/// to it, Bresenham's error term, its double and every step's update stay
/// inside `i64`, wherever the ends lie.
pub const EXTENT_LIMIT: i64 = 3074457345618258602;

/// Sub-cell coordinates of any plot lie below this: a plot is at most 65535
/// cells across, of at most four sub-cells each.
pub const GRID_LIMIT: i64 = 0x10_0000;

proof fn lemma_error_start(dx: int, dy: int)
    by (nonlinear_arith)
    ensures
        dx * (1 + abs(0)) - dy * (1 + abs(0)) == dx - dy,
{
}

proof fn lemma_error_x(dx: int, dy: int, ny: int, nx: int)
    by (nonlinear_arith)
    ensures
        dx * (1 + ny) - dy * (1 + (nx + 1)) == dx * (1 + ny) - dy * (1 + nx) - dy,
{
}

proof fn lemma_error_y(dx: int, dy: int, ny: int, nx: int)
    by (nonlinear_arith)
    ensures
        dx * (1 + (ny + 1)) - dy * (1 + nx) == dx * (1 + ny) - dy * (1 + nx) + dx,
{
}

/// Walks the integer sub-cells of the segment from `a` to `b`, both
/// inclusive, using Bresenham's line algorithm, and returns them in order.
pub fn draw_segment(a: (i64, i64), b: (i64, i64)) -> (pts: Vec<(i64, i64)>)
    requires
        -EXTENT_LIMIT <= b.0 - a.0 <= EXTENT_LIMIT,
        -EXTENT_LIMIT <= b.1 - a.1 <= EXTENT_LIMIT,
    ensures
        pts@.len() == segment_points((a.0 as int, a.1 as int), (b.0 as int, b.1 as int)).len(),
        forall|i: int|
            0 <= i < pts@.len() ==> (pts@[i].0 as int, pts@[i].1 as int) == #[trigger] segment_points(
                (a.0 as int, a.1 as int),
                (b.0 as int, b.1 as int),
            )[i],
        pts@.len() == chebyshev((a.0 as int, a.1 as int), (b.0 as int, b.1 as int)) + 1,
        pts@[0] == a,
        pts@.last() == b,
        forall|i: int, j: int| 0 <= i < j < pts@.len() ==> #[trigger] pts@[i] != #[trigger] pts@[j],
        forall|i: int|
            0 <= i < pts@.len() - 1 ==> steps_toward(
                (a.0 as int, a.1 as int),
                (b.0 as int, b.1 as int),
                pt(#[trigger] pts@[i]),
                pt(pts@[i + 1]),
            ),
{
    let ghost ga = (a.0 as int, a.1 as int);
    let ghost gb = (b.0 as int, b.1 as int);
    let (mut x0, mut y0) = a;
    let (x1, y1) = b;
    let dx = if x1 >= a.0 { x1 - a.0 } else { a.0 - x1 };
    let dy = -(if y1 >= a.1 { y1 - a.1 } else { a.1 - y1 });
    let step_x: i64 = if a.0 < x1 { 1 } else { -1 };
    let step_y: i64 = if a.1 < y1 { 1 } else { -1 };
    let mut err = dx + dy;
    let mut pts: Vec<(i64, i64)> = Vec::new();
    proof {
        lemma_error_start(dx as int, -(dy as int));
        assert(step_error(ga, gb, ga) == dx + dy);
        lemma_error_starts_in_range(ga, gb);
        lemma_walk_fuel(ga, gb, ga, distance(ga, gb), distance(ga, gb));
    }
    loop
        invariant_except_break
            ({
                let mapped = pts@.map_values(|p: (i64, i64)| (p.0 as int, p.1 as int));
                mapped + walk(ga, gb, (x0 as int, y0 as int), distance((x0 as int, y0 as int), gb))
                    == segment_points(ga, gb)
            }),
        invariant
            -EXTENT_LIMIT <= b.0 - a.0 <= EXTENT_LIMIT,
            -EXTENT_LIMIT <= b.1 - a.1 <= EXTENT_LIMIT,
            ga == (a.0 as int, a.1 as int),
            gb == (b.0 as int, b.1 as int),
            x1 == b.0,
            y1 == b.1,
            dx == abs(gb.0 - ga.0),
            -dy == abs(gb.1 - ga.1),
            step_x == toward(ga.0, gb.0),
            step_y == toward(ga.1, gb.1),
            in_box(ga, gb, (x0 as int, y0 as int)),
            err == step_error(ga, gb, (x0 as int, y0 as int)),
            error_in_range(ga, gb, (x0 as int, y0 as int)),
        ensures
            pts@.map_values(|p: (i64, i64)| (p.0 as int, p.1 as int)) == segment_points(ga, gb),
        decreases distance((x0 as int, y0 as int), gb),
    {
        let ghost cur = (x0 as int, y0 as int);
        let ghost before = pts@;
        pts.push((x0, y0));
        proof {
            assert(pts@.map_values(|p: (i64, i64)| (p.0 as int, p.1 as int)) == before.map_values(
                |p: (i64, i64)| (p.0 as int, p.1 as int),
            ).push(cur));
        }
        if x0 == x1 && y0 == y1 {
            proof {
                assert(walk(ga, gb, cur, distance(cur, gb)) == seq![cur]);
            }
            break;
        }
        proof {
            lemma_step(ga, gb, cur);
            lemma_error_step(ga, gb, cur);
            let n = next_point(ga, gb, cur);
            lemma_walk_fuel(ga, gb, n, (distance(cur, gb) - 1) as nat, distance(n, gb));
            assert(walk(ga, gb, cur, distance(cur, gb)) == seq![cur] + walk(
                ga,
                gb,
                n,
                (distance(cur, gb) - 1) as nat,
            ));
        }
        let ghost n = next_point(ga, gb, cur);
        let ghost nx = abs(cur.0 - ga.0);
        let ghost ny = abs(cur.1 - ga.1);
        let e2 = 2 * err;
        if e2 >= dy {
            proof {
                lemma_error_x(dx as int, -dy as int, ny, nx);
            }
            err = err + dy;
            x0 = x0 + step_x;
            assert(abs(x0 as int - ga.0) == nx + 1);
        }
        let ghost nx2 = abs(x0 as int - ga.0);
        if e2 <= dx {
            proof {
                lemma_error_y(dx as int, -dy as int, ny, nx2);
            }
            err = err + dx;
            y0 = y0 + step_y;
            assert(abs(y0 as int - ga.1) == ny + 1);
        }
        assert((x0 as int, y0 as int) == n);
    }
    proof {
        let mapped = pts@.map_values(|p: (i64, i64)| (p.0 as int, p.1 as int));
        assert(mapped == segment_points(ga, gb));
        lemma_segment_points(ga, gb);
        let s = segment_points(ga, gb);
        assert forall|i: int| 0 <= i < pts@.len() implies #[trigger] pt(pts@[i]) == s[i] by {
            assert(mapped[i] == s[i]);
        }
        assert(pt(pts@[0]) == ga);
        assert(pt(pts@.last()) == gb);
        assert forall|i: int, j: int| 0 <= i < j < pts@.len() implies #[trigger] pts@[i] != #[trigger] pts@[j] by {
            assert(pt(pts@[i]) == s[i]);
            assert(pt(pts@[j]) == s[j]);
        }
        assert forall|i: int| 0 <= i < pts@.len() - 1 implies steps_toward(ga, gb, pt(#[trigger] pts@[i]), pt(pts@[i + 1])) by {
            assert(pt(pts@[i]) == s[i]);
            assert(pt(pts@[i + 1]) == s[i + 1]);
        }
    }
    pts
}

/// A sub-cell point as a pair of mathematical integers.
pub open spec fn pt(p: (i64, i64)) -> (int, int) {
    (p.0 as int, p.1 as int)
}

/// Whether the point at index `i` of a polyline lights the sub-cell `q`:
/// a present point lights itself, and the segment from a present point before
/// it, when there is one, lights every sub-cell Bresenham's walk visits.
pub open spec fn lit_by(points: Seq<Option<(i64, i64)>>, i: int, q: (int, int)) -> bool {
    &&& points[i] is Some
    &&& (q == pt(points[i].unwrap()) || (i > 0 && points[i - 1] is Some && segment_points(
        pt(points[i - 1].unwrap()),
        pt(points[i].unwrap()),
    ).contains(q)))
}

/// Whether the polyline through `points` lights the sub-cell `q`. A `None`
/// point breaks the line, so the runs on either side of it are not joined.
pub open spec fn line_lit(points: Seq<Option<(i64, i64)>>, q: (int, int)) -> bool {
    lit_before(points, points.len() as int, q)
}

/// Whether one of the first `n` points of a polyline lights the sub-cell `q`.
pub open spec fn lit_before(points: Seq<Option<(i64, i64)>>, n: int, q: (int, int)) -> bool {
    exists|i: int| 0 <= i < n && #[trigger] lit_by(points, i, q)
}

/// Whether `q` is among the sub-cells `lits`.
pub open spec fn listed(lits: Seq<(i64, i64)>, q: (int, int)) -> bool {
    exists|j: int| 0 <= j < lits.len() && pt(#[trigger] lits[j]) == q
}

/// `bit` when the polyline lights the sub-cell `(x, y)`, else `0`.
pub open spec fn sub_bit(points: Seq<Option<(i64, i64)>>, x: int, y: int, bit: int) -> int {
    if line_lit(points, (x, y)) { bit } else { 0 }
}

/// The lit sub-cells of cell `(col, row)` as glyph bits, in row-major order:
/// a 2x4 braille dot grid, or a 2x2 quadrant grid.
pub open spec fn line_bits(points: Seq<Option<(i64, i64)>>, braille: bool, col: int, row: int) -> int {
    let x = 2 * col;
    if braille {
        let y = 4 * row;
        sub_bit(points, x, y, 1) + sub_bit(points, x + 1, y, 2) + sub_bit(points, x, y + 1, 4)
            + sub_bit(points, x + 1, y + 1, 8) + sub_bit(points, x, y + 2, 16) + sub_bit(
            points,
            x + 1,
            y + 2,
            32,
        ) + sub_bit(points, x, y + 3, 64) + sub_bit(points, x + 1, y + 3, 128)
    } else {
        let y = 2 * row;
        sub_bit(points, x, y, 1) + sub_bit(points, x + 1, y, 2) + sub_bit(points, x, y + 1, 4)
            + sub_bit(points, x + 1, y + 1, 8)
    }
}

/// What the polyline paints at `(col, row)`: the glyph of the cell's lit
/// sub-cells in the line color, and nothing in a cell it does not touch.
pub open spec fn line_cell(points: Seq<Option<(i64, i64)>>, braille: bool, col: int, row: int) -> Option<(char, Paint)> {
    let bits = line_bits(points, braille, col, row);
    if bits != 0 {
        Some((if braille { braille_char(bits as u8) } else { quadrant_glyph(bits) }, Paint::Line))
    } else {
        None
    }
}

/// A rasterized line shows exactly the sub-cells it lights: the sub-cell
/// `(x, y)` is lit by the polyline just when the glyph drawn in its cell
/// raises its braille dot, or fills its quadrant.
pub proof fn lemma_line_cell_shows_its_sub_cells(points: Seq<Option<(i64, i64)>>, braille: bool, x: int, y: int)
    requires
        0 <= x,
        0 <= y,
    ensures
        braille ==> line_lit(points, (x, y)) == (line_cell(points, true, x / 2, y / 4) matches Some((g, _))
            && braille_shows(g, x % 2, y % 4)),
        !braille ==> line_lit(points, (x, y)) == (line_cell(points, false, x / 2, y / 2) matches Some((g, _))
            && quadrant::quadrant_fills(g, 2 * (y % 2) + x % 2)),
{
    let col = x / 2;
    assert(x == 2 * col + x % 2);
    let l = |a: int, b: int| line_lit(points, (a, b));
    if braille {
        let row = y / 4;
        assert(y == 4 * row + y % 4);
        let (cx, cy) = (2 * col, 4 * row);
        lemma_binary_digits(
            l(cx, cy),
            l(cx + 1, cy),
            l(cx, cy + 1),
            l(cx + 1, cy + 1),
            l(cx, cy + 2),
            l(cx + 1, cy + 2),
            l(cx, cy + 3),
            l(cx + 1, cy + 3),
        );
        let bits = line_bits(points, true, col, row);
        assert(bits == digit(l(cx, cy)) + 2 * digit(l(cx + 1, cy)) + 4 * digit(l(cx, cy + 1)) + 8 * digit(
            l(cx + 1, cy + 1),
        ) + 16 * digit(l(cx, cy + 2)) + 32 * digit(l(cx + 1, cy + 2)) + 64 * digit(l(cx, cy + 3)) + 128
            * digit(l(cx + 1, cy + 3)));
        assert((bits as u8) as int == bits);
        lemma_braille_char_dots(bits as u8, x % 2, y % 4);
        if bits == 0 {
            assert(pattern_bit(bits as u8, row_major_dot(x % 2, y % 4)) == 0);
        }
    } else {
        let row = y / 2;
        assert(y == 2 * row + y % 2);
        let bits = line_bits(points, false, col, row);
        assert(0 <= bits < 16);
        quadrant::lemma_quadrant_glyph_fills_its_bits(bits, 2 * (y % 2) + x % 2);
    }
}

/// Whether a sub-cell coordinate pair lies on a grid no larger than the
/// segment walker accepts.
pub open spec fn on_grid(p: (i64, i64)) -> bool {
    0 <= p.0 < GRID_LIMIT && 0 <= p.1 < GRID_LIMIT
}

fn holds(lits: &Vec<(i64, i64)>, p: (i64, i64)) -> (b: bool)
    ensures
        b == exists|j: int| 0 <= j < lits@.len() && #[trigger] lits@[j] == p,
{
    let mut j: usize = 0;
    while j < lits.len()
        invariant
            0 <= j <= lits@.len(),
            forall|k: int| 0 <= k < j ==> #[trigger] lits@[k] != p,
        decreases lits@.len() - j,
    {
        if lits[j].0 == p.0 && lits[j].1 == p.1 {
            return true;
        }
        j = j + 1;
    }
    false
}

/// Lights every sub-cell the polyline through `points` touches.
#[verifier::rlimit(40)]
fn light_points(points: &[Option<(i64, i64)>]) -> (lits: Vec<(i64, i64)>)
    requires
        forall|i: int| 0 <= i < points@.len() && #[trigger] points@[i] is Some ==> on_grid(points@[i].unwrap()),
    ensures
        forall|q: (int, int)| #[trigger] line_lit(points@, q) <==> listed(lits@, q),
        forall|j: int| 0 <= j < lits@.len() ==> on_grid(#[trigger] lits@[j]),
{
    let mut lits: Vec<(i64, i64)> = Vec::new();
    let mut prev: Option<(i64, i64)> = None;
    let mut i: usize = 0;
    while i < points.len()
        invariant
            0 <= i <= points@.len(),
            forall|k: int| 0 <= k < points@.len() && #[trigger] points@[k] is Some ==> on_grid(points@[k].unwrap()),
            prev == (if i > 0 { points@[i - 1] } else { None }),
            forall|j: int| 0 <= j < lits@.len() ==> on_grid(#[trigger] lits@[j]),
            forall|q: (int, int)| #[trigger] lit_before(points@, i as int, q) <==> listed(lits@, q),
        decreases points@.len() - i,
    {
        let ghost before = lits@;
        match points[i] {
            Some(p) => {
                match prev {
                    Some(start) => {
                        let seg = draw_segment(start, p);
                        let ghost sp = segment_points(pt(start), pt(p));
                        proof {
                            lemma_segment_points(pt(start), pt(p));
                        }
                        let mut k: usize = 0;
                        while k < seg.len()
                            invariant
                                0 <= k <= seg@.len(),
                                seg@.len() == sp.len(),
                                sp == segment_points(pt(start), pt(p)),
                                forall|m: int| 0 <= m < seg@.len() ==> pt(seg@[m]) == #[trigger] sp[m],
                                forall|m: int| 0 <= m < sp.len() ==> in_box(pt(start), pt(p), #[trigger] sp[m]),
                                on_grid(start),
                                on_grid(p),
                                lits@.len() == before.len() + k,
                                forall|j: int| 0 <= j < before.len() ==> lits@[j] == before[j],
                                forall|m: int| 0 <= m < k ==> lits@[before.len() + m] == #[trigger] seg@[m],
                                forall|j: int| 0 <= j < before.len() ==> on_grid(#[trigger] before[j]),
                            decreases seg@.len() - k,
                        {
                            proof {
                                assert(in_box(pt(start), pt(p), sp[k as int]));
                            }
                            lits.push(seg[k]);
                            k = k + 1;
                        }
                        proof {
                            assert forall|j: int| 0 <= j < lits@.len() implies on_grid(#[trigger] lits@[j]) by {
                                if j >= before.len() {
                                    let m = j - before.len();
                                    assert(lits@[before.len() + m] == seg@[m]);
                                    assert(pt(seg@[m]) == sp[m]);
                                    assert(in_box(pt(start), pt(p), sp[m]));
                                } else {
                                    assert(lits@[j] == before[j]);
                                    assert(on_grid(before[j]));
                                }
                            }
                            assert forall|q: (int, int)|
                                #[trigger] lit_before(points@, i + 1, q) <==> listed(lits@, q) by {
                                if lit_before(points@, i + 1, q) {
                                    let kk = choose|kk: int| 0 <= kk < i + 1 && #[trigger] lit_by(points@, kk, q);
                                    if kk < i {
                                        assert(lit_before(points@, i as int, q));
                                        let j = choose|j: int| 0 <= j < before.len() && pt(#[trigger] before[j]) == q;
                                        assert(lits@[j] == before[j]);
                                        assert(pt(lits@[j]) == q);
                                    } else {
                                        if q == pt(p) {
                                            let m = sp.len() - 1;
                                            assert(lits@[before.len() + m] == seg@[m]);
                                            assert(pt(seg@[m]) == sp[m]);
                                            assert(pt(lits@[before.len() + m]) == q);
                                        } else {
                                            let m = choose|m: int| 0 <= m < sp.len() && sp[m] == q;
                                            assert(lits@[before.len() + m] == seg@[m]);
                                            assert(pt(seg@[m]) == sp[m]);
                                            assert(pt(lits@[before.len() + m]) == q);
                                        }
                                    }
                                }
                                if listed(lits@, q) {
                                    let j = choose|j: int| 0 <= j < lits@.len() && pt(#[trigger] lits@[j]) == q;
                                    if j < before.len() {
                                        assert(lits@[j] == before[j]);
                                        assert(pt(before[j]) == q);
                                        assert(listed(before, q));
                                        assert(lit_before(points@, i as int, q));
                                        let kk = choose|kk: int| 0 <= kk < i && #[trigger] lit_by(points@, kk, q);
                                        assert(lit_by(points@, kk, q));
                                    } else {
                                        let m = j - before.len();
                                        assert(lits@[before.len() + m] == seg@[m]);
                                        assert(pt(seg@[m]) == sp[m]);
                                        assert(sp[m] == q);
                                        assert(sp.contains(q));
                                        assert(lit_by(points@, i as int, q));
                                    }
                                }
                            }
                        }
                    },
                    None => {
                        lits.push(p);
                        proof {
                            assert forall|q: (int, int)|
                                #[trigger] lit_before(points@, i + 1, q) <==> listed(lits@, q) by {
                                if lit_before(points@, i + 1, q) {
                                    let kk = choose|kk: int| 0 <= kk < i + 1 && #[trigger] lit_by(points@, kk, q);
                                    if kk < i {
                                        assert(lit_before(points@, i as int, q));
                                        let j = choose|j: int| 0 <= j < before.len() && pt(#[trigger] before[j]) == q;
                                        assert(lits@[j] == before[j]);
                                        assert(pt(lits@[j]) == q);
                                    } else {
                                        assert(lits@[before.len() as int] == p);
                                        assert(pt(lits@[before.len() as int]) == q);
                                    }
                                }
                                if listed(lits@, q) {
                                    let j = choose|j: int| 0 <= j < lits@.len() && pt(#[trigger] lits@[j]) == q;
                                    if j < before.len() {
                                        assert(lits@[j] == before[j]);
                                        assert(listed(before, q));
                                        assert(lit_before(points@, i as int, q));
                                        let kk = choose|kk: int| 0 <= kk < i && #[trigger] lit_by(points@, kk, q);
                                        assert(lit_by(points@, kk, q));
                                    } else {
                                        assert(lit_by(points@, i as int, q));
                                    }
                                }
                            }
                        }
                    },
                }
                prev = Some(p);
            },
            None => {
                prev = None;
                proof {
                    assert forall|q: (int, int)|
                        #[trigger] lit_before(points@, i + 1, q) <==> listed(lits@, q) by {
                        if lit_before(points@, i + 1, q) {
                            let kk = choose|kk: int| 0 <= kk < i + 1 && #[trigger] lit_by(points@, kk, q);
                            assert(kk < i);
                            assert(lit_before(points@, i as int, q));
                        }
                        if listed(lits@, q) {
                            assert(lit_before(points@, i as int, q));
                            let kk = choose|kk: int| 0 <= kk < i && #[trigger] lit_by(points@, kk, q);
                            assert(lit_by(points@, kk, q));
                        }
                    }
                }
            },
        }
        i = i + 1;
    }
    lits
}

/// Draws the connected runs of `points` (sub-cell coordinates on the grid of
/// `family`: braille dots for [`Marker::Braille`], quadrants otherwise),
/// folding each touched cell's lit sub-cells into one glyph painted in the
/// line color over the background with every other attribute cleared. A
/// `None` point breaks the line.
pub fn rasterize(canvas: &mut Canvas, points: &[Option<(i64, i64)>], family: Marker)
    requires
        forall|i: int| 0 <= i < points@.len() && #[trigger] points@[i] is Some ==> on_grid(points@[i].unwrap()),
    ensures
        old(canvas).adds_resetting(*final(canvas)),
        final(canvas).cols() == old(canvas).cols(),
        final(canvas).rows() == old(canvas).rows(),
        forall|c: int, r: int|
            #[trigger] final(canvas).at(c, r) == overlay(
                old(canvas).at(c, r),
                old(canvas).contains(c, r),
                line_cell(points@, family == Marker::Braille, c, r),
            ),
{
    let braille = family == Marker::Braille;
    let sub_y: i64 = if braille { 4 } else { 2 };
    let lits = light_points(points);
    let mut k: usize = 0;
    while k < lits.len()
        invariant
            0 <= k <= lits@.len(),
            braille == (family == Marker::Braille),
            sub_y == (if braille { 4i64 } else { 2 }),
            forall|q: (int, int)| #[trigger] line_lit(points@, q) <==> listed(lits@, q),
            forall|j: int| 0 <= j < lits@.len() ==> on_grid(#[trigger] lits@[j]),
            canvas.cols() == old(canvas).cols(),
            canvas.rows() == old(canvas).rows(),
            old(canvas).adds_resetting(*canvas),
            forall|c: int, r: int|
                #[trigger] canvas.at(c, r) == overlay(
                    old(canvas).at(c, r),
                    old(canvas).contains(c, r),
                    if exists|j: int| 0 <= j < k && #[trigger] in_cell(lits@[j], sub_y as int, c, r) {
                        line_cell(points@, braille, c, r)
                    } else {
                        None
                    },
                ),
        decreases lits@.len() - k,
    {
        let (x, y) = lits[k];
        let cx = x / 2;
        let cy = y / sub_y;
        let bx = cx * 2;
        let by = cy * sub_y;
        let mut bits: u32 = 0;
        let mut dy: i64 = 0;
        while dy < sub_y
            invariant
                0 <= dy <= sub_y,
                sub_y == 2 || sub_y == 4,
                0 <= bx < GRID_LIMIT,
                0 <= by < GRID_LIMIT,
                bits == partial_bits(points@, bx as int, by as int, dy as int),
                bits < pow4(dy as int),
                forall|q: (int, int)| #[trigger] line_lit(points@, q) <==> listed(lits@, q),
            decreases sub_y - dy,
        {
            let w = if dy == 0 { 1u32 } else if dy == 1 { 4 } else if dy == 2 { 16 } else { 64 };
            let p0 = (bx, by + dy);
            let p1 = (bx + 1, by + dy);
            let l0 = holds(&lits, p0);
            let l1 = holds(&lits, p1);
            proof {
                lemma_holds_lit(points@, lits@, p0);
                lemma_holds_lit(points@, lits@, p1);
            }
            if l0 {
                bits = bits + w;
            }
            if l1 {
                bits = bits + 2 * w;
            }
            dy = dy + 1;
        }
        proof {
            lemma_line_bits(points@, braille, cx as int, cy as int);
        }
        let ghost cell_bits = bits as int;
        assert(cell_bits == line_bits(points@, braille, cx as int, cy as int));
        proof {
            lemma_point_bit(points@, braille, lits@[k as int], cx as int, cy as int);
        }
        let g = if braille {
            braille_symbol(bits as u8)
        } else {
            quadrant::glyph(bits)
        };
        let ghost prev = *canvas;
        canvas.put(cx as u32, cy as u32, g, Paint::Line);
        proof { lemma_resetting_twice(*old(canvas), prev, *canvas); }
        proof {
            assert forall|c: int, r: int|
                #[trigger] canvas.at(c, r) == overlay(
                    old(canvas).at(c, r),
                    old(canvas).contains(c, r),
                    if exists|j: int| 0 <= j < k + 1 && #[trigger] in_cell(lits@[j], sub_y as int, c, r) {
                        line_cell(points@, braille, c, r)
                    } else {
                        None
                    },
                ) by {
                if c == cx && r == cy {
                    assert(in_cell(lits@[k as int], sub_y as int, c, r));
                } else if exists|j: int| 0 <= j < k + 1 && #[trigger] in_cell(lits@[j], sub_y as int, c, r) {
                    let j = choose|j: int| 0 <= j < k + 1 && #[trigger] in_cell(lits@[j], sub_y as int, c, r);
                    assert(j < k);
                }
            }
        }
        k = k + 1;
    }
    proof {
        assert forall|c: int, r: int|
            #[trigger] line_cell(points@, braille, c, r) is Some implies exists|j: int|
                0 <= j < lits@.len() && #[trigger] in_cell(lits@[j], sub_y as int, c, r) by {
            lemma_lit_cell_has_point(points@, lits@, braille, sub_y as int, c, r);
        }
    }
}

/// Whether the sub-cell `p` falls in cell `(col, row)` of a grid two
/// sub-cells wide and `sub_y` tall per cell.
pub open spec fn in_cell(p: (i64, i64), sub_y: int, col: int, row: int) -> bool {
    p.0 as int / 2 == col && p.1 as int / sub_y == row
}

/// `4^n`, the bound of the bits over the first `n` sub-cell rows.
pub open spec fn pow4(n: int) -> int {
    if n <= 0 { 1 } else if n == 1 { 4 } else if n == 2 { 16 } else if n == 3 { 64 } else { 256 }
}

/// The bits of the first `n` sub-cell rows of the cell whose top-left
/// sub-cell is `(x, y)`.
pub open spec fn partial_bits(points: Seq<Option<(i64, i64)>>, x: int, y: int, n: int) -> int
    decreases n,
{
    if n <= 0 {
        0
    } else {
        partial_bits(points, x, y, n - 1) + sub_bit(points, x, y + n - 1, pow4(n - 1)) + sub_bit(
            points,
            x + 1,
            y + n - 1,
            2 * pow4(n - 1),
        )
    }
}

proof fn lemma_holds_lit(points: Seq<Option<(i64, i64)>>, lits: Seq<(i64, i64)>, p: (i64, i64))
    requires
        forall|q: (int, int)| #[trigger] line_lit(points, q) <==> listed(lits, q),
    ensures
        line_lit(points, pt(p)) <==> exists|j: int| 0 <= j < lits.len() && #[trigger] lits[j] == p,
{
    if line_lit(points, pt(p)) {
        let j = choose|j: int| 0 <= j < lits.len() && pt(#[trigger] lits[j]) == pt(p);
        assert(lits[j] == p);
    }
    if exists|j: int| 0 <= j < lits.len() && #[trigger] lits[j] == p {
        let j = choose|j: int| 0 <= j < lits.len() && #[trigger] lits[j] == p;
        assert(pt(lits[j]) == pt(p));
    }
}

proof fn lemma_line_bits(points: Seq<Option<(i64, i64)>>, braille: bool, col: int, row: int)
    ensures
        line_bits(points, braille, col, row) == partial_bits(
            points,
            2 * col,
            (if braille { 4int } else { 2 }) * row,
            if braille { 4int } else { 2 },
        ),
{
    reveal_with_fuel(partial_bits, 5);
}

proof fn lemma_point_bit(points: Seq<Option<(i64, i64)>>, braille: bool, p: (i64, i64), col: int, row: int)
    requires
        line_lit(points, pt(p)),
        p.0 as int / 2 == col,
        p.1 as int / (if braille { 4int } else { 2 }) == row,
    ensures
        line_bits(points, braille, col, row) != 0,
{
}

proof fn lemma_lit_cell_has_point(
    points: Seq<Option<(i64, i64)>>,
    lits: Seq<(i64, i64)>,
    braille: bool,
    sub_y: int,
    col: int,
    row: int,
)
    requires
        sub_y == (if braille { 4int } else { 2 }),
        line_bits(points, braille, col, row) != 0,
        forall|q: (int, int)| #[trigger] line_lit(points, q) <==> listed(lits, q),
    ensures
        exists|j: int| 0 <= j < lits.len() && #[trigger] in_cell(lits[j], sub_y, col, row),
{
    let q = choose|q: (int, int)|
        line_lit(points, q) && 2 * col <= q.0 < 2 * col + 2 && sub_y * row <= q.1 < sub_y * row + sub_y;
    let j = choose|j: int| 0 <= j < lits.len() && pt(#[trigger] lits[j]) == q;
    assert(in_cell(lits[j], sub_y, col, row));
}

/// A `None` point breaks a polyline: the sub-cells it lights are exactly
/// those the runs before and after the gap light on their own, so no segment
/// is drawn across the gap.
pub proof fn lemma_gap_breaks_the_line(points: Seq<Option<(i64, i64)>>, k: int, q: (int, int))
    requires
        0 <= k < points.len(),
        points[k] is None,
    ensures
        line_lit(points, q) <==> line_lit(points.take(k), q) || line_lit(points.skip(k + 1), q),
{
    let before = points.take(k);
    let after = points.skip(k + 1);
    if line_lit(points, q) {
        let i = choose|i: int| 0 <= i < points.len() && #[trigger] lit_by(points, i, q);
        if i < k {
            assert(before[i] == points[i]);
            if i > 0 {
                assert(before[i - 1] == points[i - 1]);
            }
            assert(lit_by(before, i, q));
            assert(lit_before(before, before.len() as int, q));
        } else {
            let j = i - k - 1;
            assert(after[j] == points[i]);
            if j > 0 {
                assert(after[j - 1] == points[i - 1]);
            }
            assert(lit_by(after, j, q));
            assert(lit_before(after, after.len() as int, q));
        }
    }
    if line_lit(before, q) {
        let i = choose|i: int| 0 <= i < before.len() && #[trigger] lit_by(before, i, q);
        assert(before[i] == points[i]);
        if i > 0 {
            assert(before[i - 1] == points[i - 1]);
        }
        assert(lit_by(points, i, q));
    }
    if line_lit(after, q) {
        let j = choose|j: int| 0 <= j < after.len() && #[trigger] lit_by(after, j, q);
        let i = j + k + 1;
        assert(after[j] == points[i]);
        if j > 0 {
            assert(after[j - 1] == points[i - 1]);
        }
        assert(lit_by(points, i, q));
    }
}

/// Every present point of a polyline lights its own sub-cell.
pub proof fn lemma_points_are_lit(points: Seq<Option<(i64, i64)>>, i: int)
    requires
        0 <= i < points.len(),
        points[i] is Some,
    ensures
        line_lit(points, pt(points[i].unwrap())),
{
    assert(lit_by(points, i, pt(points[i].unwrap())));
}

} // verus!
