//! Straight lines, and the outlines that are made of them.

use crate::color::FG_WHITE;
use crate::engine::{drawn, ConsoleGameEngine};
use crate::model::{to_whole_cells, whole_cells};
use crate::pixel::PIXEL_SOLID;
use crate::screen::{
    empty_layer, lemma_overlaid_nothing, lemma_overlaid_same, lemma_overlaid_twice, point_layer,
    region_layer, stacked, Cell, Layer,
};
use vstd::prelude::*;

verus! {

/// The largest magnitude of a coordinate that the line routine is asked to handle.
pub(crate) const COORD_LIMIT: i64 = 0x1_0000_0000;

/// The absolute value of `v`.
pub open spec fn abs(v: int) -> int {
    if v < 0 {
        -v
    } else {
        v
    }
}

/// After `k` steps along the longer side of a line that spans `major` by
/// `minor` cells, `m` steps along the shorter side is the whole number
/// nearest to the exact `k * minor / major`. An exact half goes to the
/// larger `m` if `ties_up`, to the smaller otherwise.
pub open spec fn nearest(major: int, minor: int, k: int, m: int, ties_up: bool) -> bool {
    let twice_error = 2 * (k * minor - m * major);
    if major == 0 {
        k == 0 && m == 0
    } else if ties_up {
        -major <= twice_error < major
    } else {
        -major < twice_error <= major
    }
}

/// Whether `(a, b)` is a cell of the line from `(a1, b1)` to `(a2, b2)`,
/// where the line is at least as long in `a` as in `b`. The line is walked
/// from its end with the smaller `a`.
pub open spec fn on_run(a1: int, b1: int, a2: int, b2: int, a: int, b: int, ties_up: bool) -> bool {
    let a0 = if a2 >= a1 { a1 } else { a2 };
    let b0 = if a2 >= a1 { b1 } else { b2 };
    let bn = if a2 >= a1 { b2 } else { b1 };
    let k = a - a0;
    let m = if bn >= b0 { b - b0 } else { b0 - b };
    0 <= k <= abs(a2 - a1) && nearest(abs(a2 - a1), abs(b2 - b1), k, m, ties_up)
}

/// Whether the line is longer in `y` than in `x`.
pub open spec fn steep(x1: int, y1: int, x2: int, y2: int) -> bool {
    abs(y2 - y1) > abs(x2 - x1)
}

/// Whether `(x, y)` is a cell of the line from `(x1, y1)` to `(x2, y2)`: the
/// line has one cell for each step along its longer side, and that cell is
/// the one nearest to the exact line.
pub open spec fn on_line(x1: int, y1: int, x2: int, y2: int, x: int, y: int) -> bool {
    if steep(x1, y1, x2, y2) {
        on_run(y1, x1, y2, x2, y, x, false)
    } else {
        on_run(x1, y1, x2, y2, x, y, true)
    }
}

/// The cells of a line, each holding `cell`.
pub open spec fn line_layer(x1: int, y1: int, x2: int, y2: int, cell: Cell) -> Layer {
    region_layer(|x: int, y: int| on_line(x1, y1, x2, y2, x, y), cell)
}

/// The cells of a line up to `upto` along its longer side.
spec fn line_prefix_layer(
    x1: int,
    y1: int,
    x2: int,
    y2: int,
    upto: int,
    cell: Cell,
) -> Layer {
    region_layer(
        |x: int, y: int|
            on_line(x1, y1, x2, y2, x, y) && (if steep(x1, y1, x2, y2) {
                y
            } else {
                x
            }) <= upto,
        cell,
    )
}

/// At each step along the longer side a line has exactly one cell.
pub proof fn lemma_nearest_unique(major: int, minor: int, k: int, m1: int, m2: int, ties_up: bool)
    requires
        nearest(major, minor, k, m1, ties_up),
        nearest(major, minor, k, m2, ties_up),
    ensures
        m1 == m2,
{
    if major != 0 {
        let a = k * minor;
        assert(m1 == m2) by (nonlinear_arith)
            requires
                major != 0,
                -major <= 2 * (a - m1 * major) <= major,
                -major <= 2 * (a - m2 * major) <= major,
                2 * (a - m1 * major) < major || -major < 2 * (a - m1 * major),
                (2 * (a - m1 * major) < major && 2 * (a - m2 * major) < major) || (-major < 2 * (a
                    - m1 * major) && -major < 2 * (a - m2 * major)),
        ;
    }
}

/// A line has the same cells from whichever end it is drawn.
pub proof fn lemma_line_either_way(x1: int, y1: int, x2: int, y2: int, x: int, y: int)
    ensures
        on_line(x1, y1, x2, y2, x, y) == on_line(x2, y2, x1, y1, x, y),
{
}

/// Both ends of a line are cells of it.
pub proof fn lemma_line_ends(x1: int, y1: int, x2: int, y2: int)
    ensures
        on_line(x1, y1, x2, y2, x1, y1),
        on_line(x1, y1, x2, y2, x2, y2),
{
    let dx = abs(x2 - x1);
    let dy = abs(y2 - y1);
    if steep(x1, y1, x2, y2) {
        assert(2 * (dy * dx - dx * dy) == 0) by (nonlinear_arith);
        assert(2 * (0 * dx - 0 * dy) == 0) by (nonlinear_arith);
    } else {
        assert(2 * (dx * dy - dy * dx) == 0) by (nonlinear_arith);
        assert(2 * (0 * dy - 0 * dx) == 0) by (nonlinear_arith);
    }
}

/// A line along a row is the stretch of that row between its ends.
pub proof fn lemma_level_line(x1: int, x2: int, y: int, px: int, py: int)
    ensures
        on_line(x1, y, x2, y, px, py) == (py == y && (x1 <= px <= x2 || x2 <= px <= x1)),
{
    let major = abs(x2 - x1);
    let k = if x2 >= x1 { px - x1 } else { px - x2 };
    let m = if x2 >= x1 { py - y } else { py - y };
    assert(k * 0 == 0) by (nonlinear_arith);
    if major != 0 {
        assert((-major <= 2 * (0 - m * major) < major) == (m == 0)) by (nonlinear_arith)
            requires
                major > 0,
        ;
    }
}

/// A line along a column is the stretch of that column between its ends.
pub proof fn lemma_upright_line(x: int, y1: int, y2: int, px: int, py: int)
    ensures
        on_line(x, y1, x, y2, px, py) == (px == x && (y1 <= py <= y2 || y2 <= py <= y1)),
{
    let major = abs(y2 - y1);
    let k = if y2 >= y1 { py - y1 } else { py - y2 };
    let m = px - x;
    assert(k * 0 == 0) by (nonlinear_arith);
    if major != 0 {
        assert((-major < 2 * (0 - m * major) <= major) == (m == 0)) by (nonlinear_arith)
            requires
                major > 0,
        ;
    } else {
        lemma_level_line(x, x, y1, px, py);
    }
}

/// The cells of the three sides of a triangle, each holding `cell`.
pub open spec fn triangle_outline_layer(
    x1: int,
    y1: int,
    x2: int,
    y2: int,
    x3: int,
    y3: int,
    cell: Cell,
) -> Layer {
    region_layer(
        |x: int, y: int|
            on_line(x1, y1, x2, y2, x, y) || on_line(x2, y2, x3, y3, x, y) || on_line(
                x3,
                y3,
                x1,
                y1,
                x,
                y,
            ),
        cell,
    )
}

/// Whether `(px, py)` lies on the border of the rectangle of `w` by `h`
/// cells whose top left cell is `(x, y)`. An empty rectangle has no border.
pub open spec fn on_border(x: int, y: int, w: int, h: int, px: int, py: int) -> bool {
    &&& w > 0 && h > 0
    &&& x <= px <= x + w - 1
    &&& y <= py <= y + h - 1
    &&& px == x || px == x + w - 1 || py == y || py == y + h - 1
}

/// The cells of the border of a rectangle, each holding `cell`.
pub open spec fn border_layer(x: int, y: int, w: int, h: int, cell: Cell) -> Layer {
    region_layer(|px: int, py: int| on_border(x, y, w, h, px, py), cell)
}

/// Whether `(x, y)` is a cell of the side of a polygon that starts at its
/// corner `i` and ends at the next one, which for the last is the first.
/// The corners are given in steps of a cell, and the side runs between the
/// whole cells that they lie in.
pub open spec fn on_side(points: Seq<(i32, i32)>, i: int, x: int, y: int) -> bool {
    let from = points[i];
    let to = points[(i + 1) % (points.len() as int)];
    on_line(
        whole_cells(from.0 as int),
        whole_cells(from.1 as int),
        whole_cells(to.0 as int),
        whole_cells(to.1 as int),
        x,
        y,
    )
}

/// The cells of the first `count` sides of a polygon, each holding `cell`.
pub open spec fn sides_layer(points: Seq<(i32, i32)>, count: int, cell: Cell) -> Layer {
    region_layer(
        |x: int, y: int| exists|i: int| 0 <= i < count && #[trigger] on_side(points, i, x, y),
        cell,
    )
}

/// The cells of all sides of a closed polygon, each holding `cell`.
pub open spec fn polygon_outline_layer(points: Seq<(i32, i32)>, cell: Cell) -> Layer {
    sides_layer(points, points.len() as int, cell)
}

impl ConsoleGameEngine {
    /// Draws one cell of a line that is walked along `a`.
    fn plot_run(&mut self, steep: bool, a: i64, b: i64, cell: Cell)
        requires
            old(self)@.wf(),
        ensures
            final(self)@.wf(),
            drawn(
                old(self)@,
                final(self)@,
                if steep {
                    point_layer(b as int, a as int, cell)
                } else {
                    point_layer(a as int, b as int, cell)
                },
            ),
    {
        if steep {
            self.plot(b, a, cell);
        } else {
            self.plot(a, b, cell);
        }
    }

    /// Draws the line from `(x1, y1)` to `(x2, y2)`.
    #[verifier::rlimit(50)]
    pub(crate) fn line(&mut self, x1: i64, y1: i64, x2: i64, y2: i64, cell: Cell)
        requires
            old(self)@.wf(),
            -COORD_LIMIT <= x1 <= COORD_LIMIT,
            -COORD_LIMIT <= y1 <= COORD_LIMIT,
            -COORD_LIMIT <= x2 <= COORD_LIMIT,
            -COORD_LIMIT <= y2 <= COORD_LIMIT,
        ensures
            final(self)@.wf(),
            drawn(old(self)@, final(self)@, line_layer(x1 as int, y1 as int, x2 as int, y2 as int, cell)),
    {
        let dx1: i64 = if x2 >= x1 { x2 - x1 } else { x1 - x2 };
        let dy1: i64 = if y2 >= y1 { y2 - y1 } else { y1 - y2 };
        let steep: bool = dy1 > dx1;
        let (a1, b1, a2, b2) = if steep { (y1, x1, y2, x2) } else { (x1, y1, x2, y2) };
        let (a0, b0, an, bn) = if a2 >= a1 { (a1, b1, a2, b2) } else { (a2, b2, a1, b1) };
        let major: i64 = an - a0;
        let minor: i64 = if bn >= b0 { bn - b0 } else { b0 - bn };
        let up: bool = bn >= b0;
        let mut a: i64 = a0;
        let mut b: i64 = b0;
        let mut p: i64 = 2 * minor - major;
        let ghost mut m: int = 0;
        let ghost mut k_minor: int = 0;
        let ghost mut m_major: int = 0;
        let ghost start = self@;
        let ghost (gx1, gy1, gx2, gy2) = (x1 as int, y1 as int, x2 as int, y2 as int);
        proof {
            assert(0 * (minor as int) == 0) by (nonlinear_arith);
            assert(0 * (major as int) == 0) by (nonlinear_arith);
        }
        self.plot_run(steep, a, b, cell);
        proof {
            let first = if steep {
                point_layer(b as int, a as int, cell)
            } else {
                point_layer(a as int, b as int, cell)
            };
            let prefix = line_prefix_layer(gx1, gy1, gx2, gy2, a as int, cell);
            assert forall|x: int, y: int| start.screen.contains(x, y) implies #[trigger] first(x, y)
                == prefix(x, y) by {
                let pa = if steep { y } else { x };
                let pb = if steep { x } else { y };
                if on_line(gx1, gy1, gx2, gy2, x, y) && pa <= a {
                    let pm = if up { pb - b0 } else { b0 - pb };
                    assert(pa == a0);
                    lemma_nearest_unique(major as int, minor as int, 0, pm, 0, !steep);
                }
            }
            lemma_overlaid_same(start.screen, self@.screen, first, prefix);
        }
        while a < an
            invariant
                start.wf(),
                self@.wf(),
                a0 <= a <= an,
                major == an - a0,
                0 <= minor <= major <= 2 * COORD_LIMIT,
                -COORD_LIMIT <= b0 <= COORD_LIMIT,
                -COORD_LIMIT <= a0 <= COORD_LIMIT,
                -COORD_LIMIT <= an <= COORD_LIMIT,
                steep ==> minor < major,
                steep == self::steep(gx1, gy1, gx2, gy2),
                major == abs(if steep { gy2 - gy1 } else { gx2 - gx1 }),
                minor == abs(if steep { gx2 - gx1 } else { gy2 - gy1 }),
                a0 == (if steep { if gy2 >= gy1 { gy1 } else { gy2 } } else { if gx2 >= gx1 { gx1 } else { gx2 } }),
                b0 == (if steep { if gy2 >= gy1 { gx1 } else { gx2 } } else { if gx2 >= gx1 { gy1 } else { gy2 } }),
                up == (if steep { if gy2 >= gy1 { gx2 >= gx1 } else { gx1 >= gx2 } } else { if gx2 >= gx1 { gy2 >= gy1 } else { gy1 >= gy2 } }),
                0 <= m <= a - a0,
                b == (if up { b0 + m } else { b0 - m }),
                k_minor == (a - a0) * minor,
                m_major == m * major,
                p == 2 * (k_minor + minor - m_major) - major,
                nearest(major as int, minor as int, a - a0, m, !steep),
                drawn(start, self@, line_prefix_layer(gx1, gy1, gx2, gy2, a as int, cell)),
            decreases an - a,
        {
            let ghost before = self@;
            let ghost k = a - a0;
            a = a + 1;
            let stay: bool = if steep { p <= 0 } else { p < 0 };
            proof {
                assert((k + 1) * (minor as int) == k * (minor as int) + minor) by (nonlinear_arith);
                assert((m + 1) * (major as int) == m * (major as int) + major) by (nonlinear_arith);
                assert(0 <= k_minor <= 2 * COORD_LIMIT * 2 * COORD_LIMIT) by (nonlinear_arith)
                    requires
                        k_minor == k * minor,
                        0 <= k <= 2 * COORD_LIMIT,
                        0 <= minor <= 2 * COORD_LIMIT,
                ;
                assert(0 <= m_major <= 2 * COORD_LIMIT * 2 * COORD_LIMIT) by (nonlinear_arith)
                    requires
                        m_major == m * major,
                        0 <= m <= 2 * COORD_LIMIT,
                        0 <= major <= 2 * COORD_LIMIT,
                ;
            }
            if stay {
                p = p + 2 * minor;
            } else {
                if up {
                    b = b + 1;
                } else {
                    b = b - 1;
                }
                p = p + 2 * (minor - major);
                proof {
                    m = m + 1;
                    m_major = m_major + major;
                }
            }
            proof {
                k_minor = k_minor + minor;
            }
            self.plot_run(steep, a, b, cell);
            proof {
                let point = if steep {
                    point_layer(b as int, a as int, cell)
                } else {
                    point_layer(a as int, b as int, cell)
                };
                let shorter = line_prefix_layer(gx1, gy1, gx2, gy2, a - 1, cell);
                let longer = line_prefix_layer(gx1, gy1, gx2, gy2, a as int, cell);
                lemma_overlaid_twice(start.screen, before.screen, self@.screen, shorter, point);
                assert forall|x: int, y: int| start.screen.contains(x, y) implies #[trigger] stacked(
                    shorter,
                    point,
                )(x, y) == longer(x, y) by {
                    let pa = if steep { y } else { x };
                    let pb = if steep { x } else { y };
                    if on_line(gx1, gy1, gx2, gy2, x, y) && pa == a {
                        let pm = if up { pb - b0 } else { b0 - pb };
                        lemma_nearest_unique(major as int, minor as int, a - a0, pm, m, !steep);
                    }
                }
                lemma_overlaid_same(start.screen, self@.screen, stacked(shorter, point), longer);
            }
        }
        proof {
            let prefix = line_prefix_layer(gx1, gy1, gx2, gy2, a as int, cell);
            let whole = line_layer(gx1, gy1, gx2, gy2, cell);
            assert forall|x: int, y: int| start.screen.contains(x, y) implies #[trigger] prefix(x, y)
                == whole(x, y) by {}
            lemma_overlaid_same(start.screen, self@.screen, prefix, whole);
        }
    }

    /// Draws a white line from `(x1, y1)` to `(x2, y2)`.
    pub fn draw_line(&mut self, x1: i32, y1: i32, x2: i32, y2: i32)
        requires
            old(self)@.wf(),
        ensures
            final(self)@.wf(),
            drawn(
                old(self)@,
                final(self)@,
                line_layer(
                    x1 as int,
                    y1 as int,
                    x2 as int,
                    y2 as int,
                    (Cell { glyph: PIXEL_SOLID, color: FG_WHITE }),
                ),
            ),
    {
        self.draw_line_with(x1, y1, x2, y2, PIXEL_SOLID, FG_WHITE);
    }

    /// Draws a line from `(x1, y1)` to `(x2, y2)` with the specified glyph and color.
    pub fn draw_line_with(&mut self, x1: i32, y1: i32, x2: i32, y2: i32, c: u16, col: u16)
        requires
            old(self)@.wf(),
        ensures
            final(self)@.wf(),
            drawn(
                old(self)@,
                final(self)@,
                line_layer(x1 as int, y1 as int, x2 as int, y2 as int, (Cell { glyph: c, color: col })),
            ),
    {
        self.line(x1 as i64, y1 as i64, x2 as i64, y2 as i64, Cell { glyph: c, color: col });
    }

    /// Draws a white triangle connecting three points.
    pub fn draw_triangle(&mut self, x1: i32, y1: i32, x2: i32, y2: i32, x3: i32, y3: i32)
        requires
            old(self)@.wf(),
        ensures
            final(self)@.wf(),
            drawn(
                old(self)@,
                final(self)@,
                triangle_outline_layer(
                    x1 as int,
                    y1 as int,
                    x2 as int,
                    y2 as int,
                    x3 as int,
                    y3 as int,
                    (Cell { glyph: PIXEL_SOLID, color: FG_WHITE }),
                ),
            ),
    {
        self.draw_triangle_with(x1, y1, x2, y2, x3, y3, PIXEL_SOLID, FG_WHITE);
    }

    /// Draws a triangle connecting three points with the specified glyph and color.
    pub fn draw_triangle_with(
        &mut self,
        x1: i32,
        y1: i32,
        x2: i32,
        y2: i32,
        x3: i32,
        y3: i32,
        c: u16,
        col: u16,
    )
        requires
            old(self)@.wf(),
        ensures
            final(self)@.wf(),
            drawn(
                old(self)@,
                final(self)@,
                triangle_outline_layer(
                    x1 as int,
                    y1 as int,
                    x2 as int,
                    y2 as int,
                    x3 as int,
                    y3 as int,
                    (Cell { glyph: c, color: col }),
                ),
            ),
    {
        let cell = Cell { glyph: c, color: col };
        let ghost start = self@;
        self.draw_line_with(x1, y1, x2, y2, c, col);
        let ghost one = self@;
        self.draw_line_with(x2, y2, x3, y3, c, col);
        let ghost two = self@;
        self.draw_line_with(x3, y3, x1, y1, c, col);
        proof {
            let l1 = line_layer(x1 as int, y1 as int, x2 as int, y2 as int, cell);
            let l2 = line_layer(x2 as int, y2 as int, x3 as int, y3 as int, cell);
            let l3 = line_layer(x3 as int, y3 as int, x1 as int, y1 as int, cell);
            let all = triangle_outline_layer(
                x1 as int,
                y1 as int,
                x2 as int,
                y2 as int,
                x3 as int,
                y3 as int,
                cell,
            );
            lemma_overlaid_twice(start.screen, one.screen, two.screen, l1, l2);
            lemma_overlaid_twice(start.screen, two.screen, self@.screen, stacked(l1, l2), l3);
            assert forall|x: int, y: int| start.screen.contains(x, y) implies #[trigger] stacked(
                stacked(l1, l2),
                l3,
            )(x, y) == all(x, y) by {}
            lemma_overlaid_same(start.screen, self@.screen, stacked(stacked(l1, l2), l3), all);
        }
    }

    /// Draws a white rectangle at `(x, y)` with width `w` and height `h`.
    pub fn draw_rectangle(&mut self, x: i32, y: i32, w: i32, h: i32)
        requires
            old(self)@.wf(),
        ensures
            final(self)@.wf(),
            drawn(
                old(self)@,
                final(self)@,
                border_layer(
                    x as int,
                    y as int,
                    w as int,
                    h as int,
                    (Cell { glyph: PIXEL_SOLID, color: FG_WHITE }),
                ),
            ),
    {
        self.draw_rectangle_with(x, y, w, h, PIXEL_SOLID, FG_WHITE);
    }

    /// Draws a rectangle at `(x, y)` with width `w` and height `h` using the
    /// specified glyph and color. With a width or height of zero or less
    /// nothing is drawn.
    pub fn draw_rectangle_with(&mut self, x: i32, y: i32, w: i32, h: i32, c: u16, col: u16)
        requires
            old(self)@.wf(),
        ensures
            final(self)@.wf(),
            drawn(
                old(self)@,
                final(self)@,
                border_layer(x as int, y as int, w as int, h as int, (Cell { glyph: c, color: col })),
            ),
    {
        let cell = Cell { glyph: c, color: col };
        let ghost start = self@;
        let ghost border = border_layer(x as int, y as int, w as int, h as int, cell);
        if w <= 0 || h <= 0 {
            proof {
                lemma_overlaid_nothing(start.screen);
                assert forall|px: int, py: int| start.screen.contains(px, py) implies #[trigger] empty_layer()(
                    px,
                    py,
                ) == border(px, py) by {}
                lemma_overlaid_same(start.screen, self@.screen, empty_layer(), border);
            }
            return ;
        }
        let left: i64 = x as i64;
        let top: i64 = y as i64;
        let right: i64 = x as i64 + w as i64 - 1;
        let bottom: i64 = y as i64 + h as i64 - 1;
        self.line(left, top, right, top, cell);
        let ghost one = self@;
        self.line(left, bottom, right, bottom, cell);
        let ghost two = self@;
        self.line(left, top, left, bottom, cell);
        let ghost three = self@;
        self.line(right, top, right, bottom, cell);
        proof {
            let l1 = line_layer(left as int, top as int, right as int, top as int, cell);
            let l2 = line_layer(left as int, bottom as int, right as int, bottom as int, cell);
            let l3 = line_layer(left as int, top as int, left as int, bottom as int, cell);
            let l4 = line_layer(right as int, top as int, right as int, bottom as int, cell);
            lemma_overlaid_twice(start.screen, one.screen, two.screen, l1, l2);
            lemma_overlaid_twice(start.screen, two.screen, three.screen, stacked(l1, l2), l3);
            lemma_overlaid_twice(
                start.screen,
                three.screen,
                self@.screen,
                stacked(stacked(l1, l2), l3),
                l4,
            );
            let all = stacked(stacked(stacked(l1, l2), l3), l4);
            assert forall|px: int, py: int| start.screen.contains(px, py) implies #[trigger] all(
                px,
                py,
            ) == border(px, py) by {
                lemma_level_line(left as int, right as int, top as int, px, py);
                lemma_level_line(left as int, right as int, bottom as int, px, py);
                lemma_upright_line(left as int, top as int, bottom as int, px, py);
                lemma_upright_line(right as int, top as int, bottom as int, px, py);
            }
            lemma_overlaid_same(start.screen, self@.screen, all, border);
        }
    }

    /// Draws the outline of a closed polygon: a line from each corner to the
    /// next, and from the last back to the first. The corners are given on
    /// the screen in steps of a cell, and each line runs between the whole
    /// cells that its corners lie in.
    pub fn draw_wireframe_model(&mut self, points: &Vec<(i32, i32)>, col: u16, c: u16)
        requires
            old(self)@.wf(),
        ensures
            final(self)@.wf(),
            drawn(
                old(self)@,
                final(self)@,
                polygon_outline_layer(points@, (Cell { glyph: c, color: col })),
            ),
    {
        let cell = Cell { glyph: c, color: col };
        let ghost start = self@;
        let verts: usize = points.len();
        let mut i: usize = 0;
        proof {
            lemma_overlaid_nothing(start.screen);
            let none = sides_layer(points@, 0, cell);
            assert forall|x: int, y: int| start.screen.contains(x, y) implies #[trigger] empty_layer()(
                x,
                y,
            ) == none(x, y) by {}
            lemma_overlaid_same(start.screen, self@.screen, empty_layer(), none);
        }
        while i < verts
            invariant
                start.wf(),
                self@.wf(),
                verts == points@.len(),
                cell == (Cell { glyph: c, color: col }),
                i <= verts,
                drawn(start, self@, sides_layer(points@, i as int, cell)),
            decreases verts - i,
        {
            let ghost before = self@;
            let j: usize = if i + 1 == verts { 0 } else { i + 1 };
            let from = (to_whole_cells(points[i].0), to_whole_cells(points[i].1));
            let to = (to_whole_cells(points[j].0), to_whole_cells(points[j].1));
            self.draw_line_with(from.0, from.1, to.0, to.1, c, col);
            proof {
                assert(j == (i + 1) % (verts as int)) by {
                    if i + 1 == verts {
                        vstd::arithmetic::div_mod::lemma_mod_self_0(verts as int);
                    } else {
                        vstd::arithmetic::div_mod::lemma_small_mod((i + 1) as nat, verts as nat);
                    }
                }
                let done = sides_layer(points@, i as int, cell);
                let side = line_layer(
                    from.0 as int,
                    from.1 as int,
                    to.0 as int,
                    to.1 as int,
                    cell,
                );
                let more = sides_layer(points@, i + 1, cell);
                lemma_overlaid_twice(start.screen, before.screen, self@.screen, done, side);
                assert forall|x: int, y: int| start.screen.contains(x, y) implies #[trigger] stacked(
                    done,
                    side,
                )(x, y) == more(x, y) by {
                    if on_side(points@, i as int, x, y) {
                        assert(exists|k: int| 0 <= k < i + 1 && #[trigger] on_side(points@, k, x, y));
                    }
                    if exists|k: int| 0 <= k < i && #[trigger] on_side(points@, k, x, y) {
                        let k = choose|k: int| 0 <= k < i && #[trigger] on_side(points@, k, x, y);
                        assert(0 <= k < i + 1 && on_side(points@, k, x, y));
                    }
                }
                lemma_overlaid_same(start.screen, self@.screen, stacked(done, side), more);
            }
            i = i + 1;
        }
    }
}

} // verus!
