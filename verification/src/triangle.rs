//! Filled triangles, row by row between two edges.

use crate::color::FG_WHITE;
use crate::engine::{drawn, span_layer, ConsoleGameEngine};
use crate::pixel::PIXEL_SOLID;
use crate::screen::{
    empty_layer, lemma_overlaid_nothing, lemma_overlaid_same, lemma_overlaid_twice, region_layer,
    stacked, Cell, Layer,
};
use vstd::prelude::*;

verus! {

/// A corner of a triangle: its column and its row.
pub type Corner = (int, int);

/// For an edge that runs from `a` down the screen to `b`, a cell `(x, y)`
/// lies on the edge or to the right of it.
pub open spec fn at_or_right(a: Corner, b: Corner, x: int, y: int) -> bool {
    (x - a.0) * (b.1 - a.1) >= (y - a.1) * (b.0 - a.0)
}

/// For an edge that runs from `a` down the screen to `b`, a cell `(x, y)`
/// lies on the edge or to the left of it.
pub open spec fn at_or_left(a: Corner, b: Corner, x: int, y: int) -> bool {
    (x - a.0) * (b.1 - a.1) <= (y - a.1) * (b.0 - a.0)
}

/// The cell `(x, y)` lies between two edges, or on one of them: it is
/// neither left of both nor right of both.
pub open spec fn within_edges(la: Corner, lb: Corner, sa: Corner, sb: Corner, x: int, y: int) -> bool {
    &&& at_or_right(la, lb, x, y) || at_or_right(sa, sb, x, y)
    &&& at_or_left(la, lb, x, y) || at_or_left(sa, sb, x, y)
}

/// Three corners in the order of their rows, topmost first.
pub open spec fn by_row(pa: Corner, pb: Corner, pc: Corner) -> (Corner, Corner, Corner) {
    let (q1, q2) = if pa.1 > pb.1 { (pb, pa) } else { (pa, pb) };
    let (r1, q3) = if q1.1 > pc.1 { (pc, q1) } else { (q1, pc) };
    let (r2, r3) = if q2.1 > q3.1 { (q3, q2) } else { (q2, q3) };
    (r1, r2, r3)
}

/// The smallest of three numbers.
pub open spec fn min3(a: int, b: int, c: int) -> int {
    if a <= b && a <= c { a } else if b <= c { b } else { c }
}

/// The largest of three numbers.
pub open spec fn max3(a: int, b: int, c: int) -> int {
    if a >= b && a >= c { a } else if b >= c { b } else { c }
}

/// Whether the cell `(x, y)` belongs to the filled triangle whose corners
/// `a`, `b` and `c` are in the order of their rows. The long edge runs from
/// `a` to `c`. A row down to the middle corner is filled between the long
/// edge and the edge from `a` to `b`, a row below it between the long edge
/// and the edge from `b` to `c`. A triangle that lies in one row is the
/// stretch of that row between its outermost corners.
pub open spec fn in_rows(a: Corner, b: Corner, c: Corner, x: int, y: int) -> bool {
    if a.1 == c.1 {
        y == a.1 && min3(a.0, b.0, c.0) <= x <= max3(a.0, b.0, c.0)
    } else if a.1 <= y <= c.1 {
        if a.1 < b.1 && y <= b.1 {
            within_edges(a, c, a, b, x, y)
        } else {
            within_edges(a, c, b, c, x, y)
        }
    } else {
        false
    }
}

/// Whether the cell `(x, y)` belongs to the filled triangle with the corners
/// `pa`, `pb` and `pc`: the rows of the triangle are filled as `in_rows`
/// says, with the corners taken in the order of their rows.
pub open spec fn in_triangle(pa: Corner, pb: Corner, pc: Corner, x: int, y: int) -> bool {
    let (a, b, c) = by_row(pa, pb, pc);
    in_rows(a, b, c, x, y)
}

/// Twice the area of the triangle from `p` over `q` to `(x, y)`, counted as
/// positive for one sense of turning and negative for the other, and zero
/// where the three lie on one line.
pub open spec fn turn(p: Corner, q: Corner, x: int, y: int) -> int {
    (q.0 - p.0) * (y - p.1) - (q.1 - p.1) * (x - p.0)
}

/// Whether `(x, y)` lies in the triangle with the corners `pa`, `pb` and
/// `pc`, its sides and corners included: going round the corners, the point
/// is never on the outer side. For corners on one line that is the stretch
/// of the line between the outermost.
pub open spec fn in_closed_triangle(pa: Corner, pb: Corner, pc: Corner, x: int, y: int) -> bool {
    let t1 = turn(pa, pb, x, y);
    let t2 = turn(pb, pc, x, y);
    let t3 = turn(pc, pa, x, y);
    &&& min3(pa.0, pb.0, pc.0) <= x <= max3(pa.0, pb.0, pc.0)
    &&& min3(pa.1, pb.1, pc.1) <= y <= max3(pa.1, pb.1, pc.1)
    &&& (t1 >= 0 && t2 >= 0 && t3 >= 0) || (t1 <= 0 && t2 <= 0 && t3 <= 0)
}

/// The cells of a filled triangle, each holding `cell`.
pub open spec fn triangle_layer(pa: Corner, pb: Corner, pc: Corner, cell: Cell) -> Layer {
    region_layer(|x: int, y: int| in_triangle(pa, pb, pc, x, y), cell)
}

/// The cells that lie in a triangle or on its boundary, each holding `cell`.
pub open spec fn closed_triangle_layer(pa: Corner, pb: Corner, pc: Corner, cell: Cell) -> Layer {
    region_layer(|x: int, y: int| in_closed_triangle(pa, pb, pc, x, y), cell)
}

/// The rows of a filled triangle above row `below`.
spec fn triangle_rows_layer(
    pa: Corner,
    pb: Corner,
    pc: Corner,
    below: int,
    cell: Cell,
) -> Layer {
    region_layer(|x: int, y: int| in_triangle(pa, pb, pc, x, y) && y < below, cell)
}

/// A turn written out as a sum of products of one column and one row.
proof fn lemma_turn_written_out(p: Corner, q: Corner, x: int, y: int)
    ensures
        turn(p, q, x, y) == q.0 * y - q.0 * p.1 - p.0 * y + p.0 * p.1 - (x * q.1 - p.0 * q.1 - x
            * p.1 + p.0 * p.1),
{
    assert((q.0 - p.0) * (y - p.1) == q.0 * y - q.0 * p.1 - p.0 * y + p.0 * p.1)
        by (nonlinear_arith);
    assert((q.1 - p.1) * (x - p.0) == x * q.1 - p.0 * q.1 - x * p.1 + p.0 * p.1)
        by (nonlinear_arith);
}

/// Going from `q` to `p` turns the other way than going from `p` to `q`.
proof fn lemma_turn_back(p: Corner, q: Corner, x: int, y: int)
    ensures
        turn(q, p, x, y) == -turn(p, q, x, y),
{
    lemma_turn_written_out(p, q, x, y);
    lemma_turn_written_out(q, p, x, y);
}

/// The three turns round a triangle add up to twice its area, wherever the
/// point lies.
proof fn lemma_turn_sum(a: Corner, b: Corner, c: Corner, x: int, y: int)
    ensures
        turn(a, b, x, y) + turn(b, c, x, y) + turn(c, a, x, y) == turn(a, b, c.0, c.1),
{
    lemma_turn_written_out(a, b, x, y);
    lemma_turn_written_out(b, c, x, y);
    lemma_turn_written_out(c, a, x, y);
    lemma_turn_written_out(a, b, c.0, c.1);
}

/// A triangle holds the same points in whatever order its corners are named.
proof fn lemma_closed_any_order(p: Corner, q: Corner, r: Corner, x: int, y: int)
    ensures
        in_closed_triangle(q, p, r, x, y) == in_closed_triangle(p, q, r, x, y),
        in_closed_triangle(p, r, q, x, y) == in_closed_triangle(p, q, r, x, y),
        in_closed_triangle(r, q, p, x, y) == in_closed_triangle(p, q, r, x, y),
{
    lemma_turn_back(p, q, x, y);
    lemma_turn_back(q, r, x, y);
    lemma_turn_back(r, p, x, y);
}

/// Between two edges that leave a corner downwards, down to the row where
/// the shorter ends: a point on or right of the one and on or left of the
/// other lies on the inner side of the line through their far ends, and
/// between the columns of the corners. The edges lead `(dxb, dyb)` and
/// `(dxc, dyc)` away from the corner, and the point lies `(xp, t)` from it.
#[verifier::rlimit(50)]
proof fn lemma_wedge(dxb: int, dyb: int, dxc: int, dyc: int, t: int, xp: int)
    requires
        0 < dyb <= dyc,
        0 <= t <= dyb,
        dxc * t - dyc * xp >= 0,
        dxb * t - dyb * xp <= 0,
    ensures
        t > 0 ==> (dxb * dyc - dyb * dxc) - (dxb * t - dyb * xp) + (dxc * t - dyc * xp) <= 0,
        t == 0 ==> xp == 0,
        (if dxb < 0 { dxb } else { 0 }) <= xp,
        xp <= (if dxc > 0 { dxc } else { 0 }),
{
    let u = dxc * t - dyc * xp;
    let w = dxb * t - dyb * xp;
    let d = dxb * dyc - dyb * dxc;
    assert(dyb * u - dyc * w == -(t * d)) by (nonlinear_arith)
        requires
            u == dxc * t - dyc * xp,
            w == dxb * t - dyb * xp,
            d == dxb * dyc - dyb * dxc,
    ;
    assert(dyb * u >= 0 && dyc * w <= 0 && (dyc - dyb) * w <= 0) by (nonlinear_arith)
        requires
            0 < dyb <= dyc,
            u >= 0,
            w <= 0,
    ;
    if t > 0 {
        assert(d <= 0) by (nonlinear_arith)
            requires
                t > 0,
                t * d <= 0,
        ;
        assert((dyb - t) * d <= 0) by (nonlinear_arith)
            requires
                d <= 0,
                t <= dyb,
        ;
        assert(dyb * (u - w + d) == dyb * u - dyc * w + (dyc - dyb) * w + dyb * d)
            by (nonlinear_arith);
        assert(-(t * d) + dyb * d == (dyb - t) * d) by (nonlinear_arith);
        assert(u - w + d <= 0) by (nonlinear_arith)
            requires
                dyb > 0,
                dyb * (u - w + d) <= 0,
        ;
    } else {
        assert(dxc * 0 == 0 && dxb * 0 == 0) by (nonlinear_arith);
        assert(xp == 0) by (nonlinear_arith)
            requires
                0 < dyb <= dyc,
                -(dyc * xp) >= 0,
                -(dyb * xp) <= 0,
        ;
    }
    assert((if dxb < 0 { dxb } else { 0 }) <= xp) by (nonlinear_arith)
        requires
            0 < dyb,
            0 <= t <= dyb,
            dxb * t - dyb * xp <= 0,
    ;
    assert(xp <= (if dxc > 0 { dxc } else { 0 })) by (nonlinear_arith)
        requires
            0 < dyc,
            0 <= t <= dyc,
            dxc * t - dyc * xp >= 0,
    ;
}

/// The same as `lemma_wedge`, for a point between the two edges whichever
/// of them is the left one.
proof fn lemma_wedge_either(dxb: int, dyb: int, dxc: int, dyc: int, t: int, xp: int)
    requires
        0 < dyb <= dyc,
        0 <= t <= dyb,
        ({
            let u = dxc * t - dyc * xp;
            let w = dxb * t - dyb * xp;
            (u >= 0 && w <= 0) || (u <= 0 && w >= 0)
        }),
    ensures
        ({
            let u = dxc * t - dyc * xp;
            let w = dxb * t - dyb * xp;
            let far = (dxb * dyc - dyb * dxc) - w + u;
            &&& t > 0 ==> (u >= 0 && w <= 0 && far <= 0) || (u <= 0 && w >= 0 && far >= 0)
            &&& t == 0 ==> xp == 0 && u == 0 && w == 0
            &&& min3(0, dxb, dxc) <= xp <= max3(0, dxb, dxc)
        }),
{
    let u = dxc * t - dyc * xp;
    let w = dxb * t - dyb * xp;
    if u >= 0 && w <= 0 {
        lemma_wedge(dxb, dyb, dxc, dyc, t, xp);
    } else {
        assert((-dxc) * t - dyc * (-xp) == -(dxc * t - dyc * xp)) by (nonlinear_arith);
        assert((-dxb) * t - dyb * (-xp) == -(dxb * t - dyb * xp)) by (nonlinear_arith);
        assert((-dxb) * dyc - dyb * (-dxc) == -(dxb * dyc - dyb * dxc)) by (nonlinear_arith);
        lemma_wedge(-dxb, dyb, -dxc, dyc, t, -xp);
    }
    if t == 0 {
        assert(dxc * 0 - dyc * 0 == 0 && dxb * 0 - dyb * 0 == 0) by (nonlinear_arith);
    }
}

/// For an edge that runs down the screen, to lie on it or right of it is
/// not to turn one way, and to lie on it or left of it is not to turn the other.
proof fn lemma_sides(p: Corner, q: Corner, x: int, y: int)
    ensures
        at_or_right(p, q, x, y) == (turn(p, q, x, y) <= 0),
        at_or_left(p, q, x, y) == (turn(p, q, x, y) >= 0),
{
    assert((x - p.0) * (q.1 - p.1) == (q.1 - p.1) * (x - p.0)) by (nonlinear_arith);
    assert((y - p.1) * (q.0 - p.0) == (q.0 - p.0) * (y - p.1)) by (nonlinear_arith);
}

/// A turn, measured from the far end of the edge.
proof fn lemma_turn_from_end(p: Corner, q: Corner, x: int, y: int)
    ensures
        turn(p, q, x, y) == (p.0 - q.0) * (q.1 - y) - (q.1 - p.1) * (x - q.0),
{
    lemma_turn_written_out(p, q, x, y);
    assert((p.0 - q.0) * (q.1 - y) == p.0 * q.1 - p.0 * y - q.0 * q.1 + q.0 * y)
        by (nonlinear_arith);
    assert((q.1 - p.1) * (x - q.0) == x * q.1 - q.0 * q.1 - x * p.1 + q.0 * p.1)
        by (nonlinear_arith);
}

/// Twice the area of a triangle, measured from its last corner.
proof fn lemma_area_from_end(a: Corner, b: Corner, c: Corner)
    ensures
        turn(a, b, c.0, c.1) == (b.0 - c.0) * (c.1 - a.1) - (c.1 - b.1) * (a.0 - c.0),
{
    lemma_turn_written_out(a, b, c.0, c.1);
    assert((b.0 - c.0) * (c.1 - a.1) == b.0 * c.1 - b.0 * a.1 - c.0 * c.1 + c.0 * a.1)
        by (nonlinear_arith);
    assert((c.1 - b.1) * (a.0 - c.0) == a.0 * c.1 - c.0 * c.1 - a.0 * b.1 + c.0 * b.1)
        by (nonlinear_arith);
}

/// With the corners in the order of their rows, the rows that the fill
/// covers make up the triangle, its sides and corners included.
#[verifier::rlimit(50)]
proof fn lemma_rows_closed(a: Corner, b: Corner, c: Corner, x: int, y: int)
    requires
        a.1 <= b.1 <= c.1,
    ensures
        in_rows(a, b, c, x, y) == in_closed_triangle(a, b, c, x, y),
{
    let t1 = turn(a, b, x, y);
    let t2 = turn(b, c, x, y);
    let t3 = turn(c, a, x, y);
    let u = turn(a, c, x, y);
    let area = turn(a, b, c.0, c.1);
    lemma_turn_back(a, c, x, y);
    lemma_turn_sum(a, b, c, x, y);
    lemma_sides(a, c, x, y);
    lemma_sides(a, b, x, y);
    lemma_sides(b, c, x, y);
    if a.1 == c.1 {
        if y == a.1 {
            assert(t1 == 0 && t2 == 0 && t3 == 0) by (nonlinear_arith)
                requires
                    t1 == (b.0 - a.0) * (y - a.1) - (b.1 - a.1) * (x - a.0),
                    t2 == (c.0 - b.0) * (y - b.1) - (c.1 - b.1) * (x - b.0),
                    t3 == (a.0 - c.0) * (y - c.1) - (a.1 - c.1) * (x - c.0),
                    y == a.1,
                    a.1 == b.1,
                    b.1 == c.1,
            ;
        }
    } else if a.1 <= y <= c.1 {
        if a.1 < b.1 && y <= b.1 {
            if in_rows(a, b, c, x, y) {
                lemma_wedge_either(
                    b.0 - a.0,
                    b.1 - a.1,
                    c.0 - a.0,
                    c.1 - a.1,
                    y - a.1,
                    x - a.0,
                );
                if y == a.1 {
                    assert(t1 == 0 && u == 0);
                }
                assert(in_closed_triangle(a, b, c, x, y));
            }
        } else {
            lemma_turn_from_end(a, c, x, y);
            lemma_turn_from_end(b, c, x, y);
            lemma_area_from_end(a, b, c);
            if in_rows(a, b, c, x, y) {
                lemma_wedge_either(
                    b.0 - c.0,
                    c.1 - b.1,
                    a.0 - c.0,
                    c.1 - a.1,
                    c.1 - y,
                    x - c.0,
                );
                assert(in_closed_triangle(a, b, c, x, y));
            }
        }
    }
}

/// The filled triangle is the triangle, its sides and corners included: a
/// cell is filled exactly if it lies in the triangle or on its boundary,
/// in whatever order the corners are given.
pub proof fn lemma_fill_is_closed_triangle(pa: Corner, pb: Corner, pc: Corner, x: int, y: int)
    ensures
        in_triangle(pa, pb, pc, x, y) == in_closed_triangle(pa, pb, pc, x, y),
{
    let (a, b, c) = by_row(pa, pb, pc);
    lemma_rows_closed(a, b, c, x, y);
    lemma_closed_any_order(pa, pb, pc, x, y);
    lemma_closed_any_order(pb, pa, pc, x, y);
    lemma_closed_any_order(pc, pb, pa, x, y);
    lemma_closed_any_order(pa, pc, pb, x, y);
    lemma_closed_any_order(pb, pc, pa, x, y);
    lemma_closed_any_order(pc, pa, pb, x, y);
}

/// The largest magnitude of a coordinate that the fill is asked to handle.
pub(crate) const FILL_LIMIT: i64 = 0x1_0000_0000;

/// `n` divided by `d`, rounded down, and what is left over.
fn floor_div(n: i64, d: i64) -> (qr: (i64, i64))
    requires
        d > 0,
        -2 * FILL_LIMIT <= n <= 2 * FILL_LIMIT,
    ensures
        n == qr.0 * d + qr.1,
        0 <= qr.1 < d,
        -4 * FILL_LIMIT <= qr.0 <= 4 * FILL_LIMIT,
{
    if n >= 0 {
        proof {
            vstd::arithmetic::div_mod::lemma_fundamental_div_mod(n as int, d as int);
            vstd::arithmetic::div_mod::lemma_div_pos_is_pos(n as int, d as int);
            let q0 = n as int / d as int;
            let r0 = n as int % d as int;
            assert(q0 * d == d * q0) by (nonlinear_arith);
            assert(q0 <= n) by (nonlinear_arith)
                requires
                    n == q0 * d + r0,
                    0 <= r0,
                    d >= 1,
                    q0 >= 0,
            ;
        }
        (n / d, n % d)
    } else {
        let m: i64 = -n;
        proof {
            vstd::arithmetic::div_mod::lemma_fundamental_div_mod(m as int, d as int);
            vstd::arithmetic::div_mod::lemma_div_pos_is_pos(m as int, d as int);
            let q0 = m as int / d as int;
            let r0 = m as int % d as int;
            assert(q0 * d == d * q0) by (nonlinear_arith);
            assert(q0 <= m) by (nonlinear_arith)
                requires
                    m == q0 * d + r0,
                    0 <= r0,
                    d >= 1,
                    q0 >= 0,
            ;
        }
        let q: i64 = m / d;
        let r: i64 = m % d;
        if r == 0 {
            proof {
                assert((-q) * d == -(q * d)) by (nonlinear_arith);
            }
            (-q, 0)
        } else {
            proof {
                assert((-q - 1) * d == -(q * d) - d) by (nonlinear_arith);
            }
            (-q - 1, d - r)
        }
    }
}

/// Where an edge crosses the current row, kept as a whole column and the
/// fraction of a column beyond it, and stepped from row to row by addition.
struct EdgeWalk {
    xa: i64,
    ya: i64,
    xb: i64,
    yb: i64,
    y: i64,
    x: i64,
    r: i64,
    q: i64,
    rem: i64,
}

impl EdgeWalk {
    spec fn top(self) -> Corner {
        (self.xa as int, self.ya as int)
    }

    spec fn bottom(self) -> Corner {
        (self.xb as int, self.yb as int)
    }

    spec fn wf(self) -> bool {
        let dy = self.yb - self.ya;
        &&& -FILL_LIMIT <= self.xa <= FILL_LIMIT
        &&& -FILL_LIMIT <= self.xb <= FILL_LIMIT
        &&& -FILL_LIMIT <= self.ya < self.yb <= FILL_LIMIT
        &&& self.ya <= self.y <= self.yb
        &&& 0 <= self.r < dy
        &&& 0 <= self.rem < dy
        &&& -4 * FILL_LIMIT <= self.q <= 4 * FILL_LIMIT
        &&& self.q * dy + self.rem == self.xb - self.xa
        &&& (self.x - self.xa) * dy + self.r == (self.y - self.ya) * (self.xb - self.xa)
        &&& -FILL_LIMIT <= self.x <= FILL_LIMIT
    }

    /// The crossing lies between the columns of the two ends of the edge.
    proof fn lemma_bounded(xa: int, xb: int, dy: int, k: int, x: int, r: int)
        requires
            dy > 0,
            0 <= k <= dy,
            0 <= r < dy,
            (x - xa) * dy + r == k * (xb - xa),
        ensures
            xa <= xb ==> xa <= x <= xb,
            xb <= xa ==> xb <= x <= xa,
    {
        let dx = xb - xa;
        let t = x - xa;
        if dx >= 0 {
            assert(0 <= k * dx <= dy * dx) by (nonlinear_arith)
                requires
                    0 <= k <= dy,
                    dx >= 0,
            ;
            assert(0 <= t <= dx) by (nonlinear_arith)
                requires
                    dy > 0,
                    0 <= r < dy,
                    t * dy + r == k * dx,
                    0 <= k * dx <= dy * dx,
            ;
        } else {
            assert(dy * dx <= k * dx <= 0) by (nonlinear_arith)
                requires
                    0 <= k <= dy,
                    dx < 0,
            ;
            assert(dx <= t <= 0) by (nonlinear_arith)
                requires
                    dy > 0,
                    0 <= r < dy,
                    t * dy + r == k * dx,
                    dy * dx <= k * dx <= 0,
            ;
        }
    }

    /// The walk of the edge from `(xa, ya)` to `(xb, yb)`, at its first row.
    fn at_top(xa: i64, ya: i64, xb: i64, yb: i64) -> (w: EdgeWalk)
        requires
            -FILL_LIMIT <= xa <= FILL_LIMIT,
            -FILL_LIMIT <= xb <= FILL_LIMIT,
            -FILL_LIMIT <= ya < yb <= FILL_LIMIT,
        ensures
            w.wf(),
            w.y == ya,
            w.x == xa,
            w.r == 0,
            w.top() == (xa as int, ya as int),
            w.bottom() == (xb as int, yb as int),
    {
        let (q, rem) = floor_div(xb - xa, yb - ya);
        proof {
            assert((xa - xa) * (yb - ya) + 0 == (ya - ya) * (xb - xa)) by (nonlinear_arith);
        }
        EdgeWalk { xa, ya, xb, yb, y: ya, x: xa, r: 0, q, rem }
    }

    /// Moves the walk one row down.
    fn advance(&mut self)
        requires
            old(self).wf(),
            old(self).y < old(self).yb,
        ensures
            final(self).wf(),
            final(self).y == old(self).y + 1,
            final(self).top() == old(self).top(),
            final(self).bottom() == old(self).bottom(),
    {
        let dy: i64 = self.yb - self.ya;
        let ghost k = self.y - self.ya;
        let ghost dx = self.xb - self.xa;
        let ghost x0 = self.x as int;
        let ghost r0 = self.r as int;
        let ghost xa = self.xa as int;
        let ghost q = self.q as int;
        let ghost rem = self.rem as int;
        let mut r: i64 = self.r + self.rem;
        let ghost carry: int = if r >= dy { 1 } else { 0 };
        proof {
            assert((x0 + q + carry - xa) * dy + (r0 + rem - carry * dy) == (k + 1) * dx)
                by (nonlinear_arith)
                requires
                    (x0 - xa) * dy + r0 == k * dx,
                    q * dy + rem == dx,
            ;
            Self::lemma_bounded(
                xa,
                self.xb as int,
                dy as int,
                k + 1,
                x0 + q + carry,
                r0 + rem - carry * dy,
            );
        }
        let mut x: i64 = self.x + self.q;
        if r >= dy {
            r = r - dy;
            x = x + 1;
        }
        self.x = x;
        self.r = r;
        self.y = self.y + 1;
    }

    /// The leftmost whole column at or right of the crossing.
    fn lo(&self) -> (c: i64)
        requires
            self.wf(),
        ensures
            forall|x: int| #[trigger] at_or_right(self.top(), self.bottom(), x, self.y as int) == (x >= c),
            -FILL_LIMIT <= c <= FILL_LIMIT + 1,
    {
        let c: i64 = if self.r > 0 { self.x + 1 } else { self.x };
        proof {
            let dy = self.yb - self.ya;
            let k = (self.y - self.ya) * (self.xb - self.xa);
            let xa = self.xa as int;
            let x0 = self.x as int;
            let r = self.r as int;
            assert forall|x: int| #[trigger]
                at_or_right(self.top(), self.bottom(), x, self.y as int) == (x >= c) by {
                assert(((x - xa) * dy >= k) == (x >= c)) by (nonlinear_arith)
                    requires
                        dy > 0,
                        0 <= r < dy,
                        (x0 - xa) * dy + r == k,
                        c == if r > 0 { x0 + 1 } else { x0 },
                ;
            }
        }
        c
    }

    /// The rightmost whole column at or left of the crossing.
    fn hi(&self) -> (c: i64)
        requires
            self.wf(),
        ensures
            forall|x: int| #[trigger] at_or_left(self.top(), self.bottom(), x, self.y as int) == (x <= c),
            -FILL_LIMIT <= c <= FILL_LIMIT,
    {
        proof {
            let dy = self.yb - self.ya;
            let k = (self.y - self.ya) * (self.xb - self.xa);
            let xa = self.xa as int;
            let x0 = self.x as int;
            let r = self.r as int;
            assert forall|x: int| #[trigger]
                at_or_left(self.top(), self.bottom(), x, self.y as int) == (x <= x0) by {
                assert(((x - xa) * dy <= k) == (x <= x0)) by (nonlinear_arith)
                    requires
                        dy > 0,
                        0 <= r < dy,
                        (x0 - xa) * dy + r == k,
                ;
            }
        }
        self.x
    }
}

impl ConsoleGameEngine {
    /// Fills the triangle with the given corners.
    #[verifier::rlimit(50)]
    pub(crate) fn fill(
        &mut self,
        x1: i64,
        y1: i64,
        x2: i64,
        y2: i64,
        x3: i64,
        y3: i64,
        cell: Cell,
    )
        requires
            old(self)@.wf(),
            -FILL_LIMIT <= x1 <= FILL_LIMIT,
            -FILL_LIMIT <= y1 <= FILL_LIMIT,
            -FILL_LIMIT <= x2 <= FILL_LIMIT,
            -FILL_LIMIT <= y2 <= FILL_LIMIT,
            -FILL_LIMIT <= x3 <= FILL_LIMIT,
            -FILL_LIMIT <= y3 <= FILL_LIMIT,
        ensures
            final(self)@.wf(),
            drawn(
                old(self)@,
                final(self)@,
                triangle_layer(
                    (x1 as int, y1 as int),
                    (x2 as int, y2 as int),
                    (x3 as int, y3 as int),
                    cell,
                ),
            ),
    {
        let ghost pa: Corner = (x1 as int, y1 as int);
        let ghost pb: Corner = (x2 as int, y2 as int);
        let ghost pc: Corner = (x3 as int, y3 as int);
        let ghost start = self@;
        let (qx1, qy1, qx2, qy2) = if y1 > y2 { (x2, y2, x1, y1) } else { (x1, y1, x2, y2) };
        let (ax, ay, qx3, qy3) = if qy1 > y3 { (x3, y3, qx1, qy1) } else { (qx1, qy1, x3, y3) };
        let (bx, by, cx, cy) = if qy2 > qy3 { (qx3, qy3, qx2, qy2) } else { (qx2, qy2, qx3, qy3) };
        let ghost a: Corner = (ax as int, ay as int);
        let ghost b: Corner = (bx as int, by as int);
        let ghost c: Corner = (cx as int, cy as int);
        assert(by_row(pa, pb, pc) == (a, b, c));
        if ay == cy {
            let lo: i64 = if ax <= bx && ax <= cx { ax } else if bx <= cx { bx } else { cx };
            let hi: i64 = if ax >= bx && ax >= cx { ax } else if bx >= cx { bx } else { cx };
            self.hspan(ay, lo, hi, cell);
            proof {
                let span = span_layer(ay as int, lo as int, hi as int, cell);
                let whole = triangle_layer(pa, pb, pc, cell);
                assert forall|x: int, y: int| start.screen.contains(x, y) implies #[trigger] span(x, y)
                    == whole(x, y) by {}
                lemma_overlaid_same(start.screen, self@.screen, span, whole);
            }
            return ;
        }
        let mut long = EdgeWalk::at_top(ax, ay, cx, cy);
        let mut upper: bool = ay < by;
        let mut short = if upper {
            EdgeWalk::at_top(ax, ay, bx, by)
        } else {
            EdgeWalk::at_top(bx, by, cx, cy)
        };
        let mut y: i64 = ay;
        proof {
            lemma_overlaid_nothing(start.screen);
            let none = triangle_rows_layer(pa, pb, pc, y as int, cell);
            assert forall|px: int, py: int| start.screen.contains(px, py) implies #[trigger] empty_layer()(
                px,
                py,
            ) == none(px, py) by {}
            lemma_overlaid_same(start.screen, self@.screen, empty_layer(), none);
        }
        while y <= cy
            invariant
                start.wf(),
                self@.wf(),
                by_row(pa, pb, pc) == (a, b, c),
                a == (ax as int, ay as int),
                b == (bx as int, by as int),
                c == (cx as int, cy as int),
                -FILL_LIMIT <= ay <= by <= cy <= FILL_LIMIT,
                -FILL_LIMIT <= bx <= FILL_LIMIT,
                -FILL_LIMIT <= cx <= FILL_LIMIT,
                ay < cy,
                ay <= y <= cy + 1,
                long.wf(),
                short.wf(),
                long.top() == a,
                long.bottom() == c,
                upper ==> short.top() == a && short.bottom() == b,
                !upper ==> short.top() == b && short.bottom() == c,
                y <= cy ==> long.y == y && short.y == y,
                y <= cy ==> upper == (ay < by && y <= by),
                drawn(start, self@, triangle_rows_layer(pa, pb, pc, y as int, cell)),
            decreases cy + 1 - y,
        {
            let ghost before = self@;
            let lo_long = long.lo();
            let hi_long = long.hi();
            let lo_short = short.lo();
            let hi_short = short.hi();
            let lo: i64 = if lo_long <= lo_short { lo_long } else { lo_short };
            let hi: i64 = if hi_long >= hi_short { hi_long } else { hi_short };
            self.hspan(y, lo, hi, cell);
            proof {
                let above = triangle_rows_layer(pa, pb, pc, y as int, cell);
                let span = span_layer(y as int, lo as int, hi as int, cell);
                let more = triangle_rows_layer(pa, pb, pc, y + 1, cell);
                lemma_overlaid_twice(start.screen, before.screen, self@.screen, above, span);
                assert forall|px: int, py: int| start.screen.contains(px, py) implies #[trigger] stacked(
                    above,
                    span,
                )(px, py) == more(px, py) by {
                    if py == y {
                        assert(at_or_right(long.top(), long.bottom(), px, long.y as int) == (px
                            >= lo_long));
                        assert(at_or_left(long.top(), long.bottom(), px, long.y as int) == (px
                            <= hi_long));
                        assert(at_or_right(short.top(), short.bottom(), px, short.y as int) == (px
                            >= lo_short));
                        assert(at_or_left(short.top(), short.bottom(), px, short.y as int) == (px
                            <= hi_short));
                        assert(in_triangle(pa, pb, pc, px, py) == (lo <= px <= hi));
                    }
                }
                lemma_overlaid_same(start.screen, self@.screen, stacked(above, span), more);
            }
            if y < cy {
                long.advance();
                if upper && y == by {
                    short = EdgeWalk::at_top(bx, by, cx, cy);
                    upper = false;
                }
                short.advance();
            }
            y = y + 1;
        }
        proof {
            let rows = triangle_rows_layer(pa, pb, pc, y as int, cell);
            let whole = triangle_layer(pa, pb, pc, cell);
            assert forall|px: int, py: int| start.screen.contains(px, py) implies #[trigger] rows(
                px,
                py,
            ) == whole(px, py) by {}
            lemma_overlaid_same(start.screen, self@.screen, rows, whole);
        }
    }

    /// Fills a triangle connecting three points with white pixels.
    pub fn fill_triangle(&mut self, x1: i32, y1: i32, x2: i32, y2: i32, x3: i32, y3: i32)
        requires
            old(self)@.wf(),
        ensures
            final(self)@.wf(),
            drawn(
                old(self)@,
                final(self)@,
                closed_triangle_layer(
                    (x1 as int, y1 as int),
                    (x2 as int, y2 as int),
                    (x3 as int, y3 as int),
                    (Cell { glyph: PIXEL_SOLID, color: FG_WHITE }),
                ),
            ),
    {
        self.fill_triangle_with(x1, y1, x2, y2, x3, y3, PIXEL_SOLID, FG_WHITE);
    }

    /// Fills a triangle connecting three points with the specified glyph
    /// and color: every cell in the triangle or on its boundary, and no other.
    pub fn fill_triangle_with(
        &mut self,
        x1: i32,
        y1: i32,
        x2: i32,
        y2: i32,
        x3: i32,
        y3: i32,
        c: u16,
        col: u16,
    )
        requires
            old(self)@.wf(),
        ensures
            final(self)@.wf(),
            drawn(
                old(self)@,
                final(self)@,
                closed_triangle_layer(
                    (x1 as int, y1 as int),
                    (x2 as int, y2 as int),
                    (x3 as int, y3 as int),
                    (Cell { glyph: c, color: col }),
                ),
            ),
    {
        let ghost start = self@;
        let cell = Cell { glyph: c, color: col };
        self.fill(x1 as i64, y1 as i64, x2 as i64, y2 as i64, x3 as i64, y3 as i64, cell);
        proof {
            let pa: Corner = (x1 as int, y1 as int);
            let pb: Corner = (x2 as int, y2 as int);
            let pc: Corner = (x3 as int, y3 as int);
            let rows = triangle_layer(pa, pb, pc, cell);
            let closed = closed_triangle_layer(pa, pb, pc, cell);
            assert forall|x: int, y: int| start.screen.contains(x, y) implies #[trigger] rows(x, y)
                == closed(x, y) by {
                lemma_fill_is_closed_triangle(pa, pb, pc, x, y);
            }
            lemma_overlaid_same(start.screen, self@.screen, rows, closed);
        }
    }
}

} // verus!
