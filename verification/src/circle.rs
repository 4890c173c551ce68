//! Circles, outlined and filled, from the eighth of the circle that starts at its top.

use crate::color::FG_WHITE;
use crate::engine::{drawn, span_layer, ConsoleGameEngine};
use crate::line::abs;
use crate::pixel::PIXEL_SOLID;
use crate::screen::{
    empty_layer, lemma_overlaid_nothing, lemma_overlaid_same, lemma_overlaid_twice, point_layer,
    region_layer, stacked, Cell, Layer,
};
use vstd::prelude::*;

verus! {

/// Whether the cell `k` columns beside and `y` rows above the centre belongs
/// to the eighth of the circle of radius `r` that runs from the top towards
/// the diagonal. In each column up to the diagonal that is the one cell
/// which the circle passes through: the point half a cell below the cell's
/// middle is inside the circle, the point half a cell above it is not.
pub open spec fn on_octant(r: int, k: int, y: int) -> bool {
    &&& r > 0
    &&& 0 <= k <= y
    &&& k * k + y * y - y < r * r
    &&& r * r <= k * k + y * y + y
}

/// Whether `(x, y)` lies on the outline of the circle of radius `r` around
/// `(xc, yc)`: one of the eight mirror images of the eighth holds it.
pub open spec fn on_circle(xc: int, yc: int, r: int, x: int, y: int) -> bool {
    on_octant(r, abs(x - xc), abs(y - yc)) || on_octant(r, abs(y - yc), abs(x - xc))
}

/// The cells of the outline of a circle, each holding `cell`.
pub open spec fn circle_layer(xc: int, yc: int, r: int, cell: Cell) -> Layer {
    region_layer(|x: int, y: int| on_circle(xc, yc, r, x, y), cell)
}

/// Whether a cell `ax` columns and `ay` rows from the centre is filled on
/// account of the point `(k, y)` of the eighth: it lies in one of the two
/// rows that the point stands for, no further out than the point.
pub open spec fn covered_by(r: int, k: int, y: int, ax: int, ay: int) -> bool {
    &&& on_octant(r, k, y)
    &&& (ay == y && ax <= k) || (ay == k && ax <= y)
}

/// Whether `(x, y)` lies in the filled circle of radius `r` around `(xc, yc)`.
pub open spec fn in_disc(xc: int, yc: int, r: int, x: int, y: int) -> bool {
    exists|k: int, h: int| #[trigger] covered_by(r, k, h, abs(x - xc), abs(y - yc))
}

/// The cells of a filled circle, each holding `cell`.
pub open spec fn disc_layer(xc: int, yc: int, r: int, cell: Cell) -> Layer {
    region_layer(|x: int, y: int| in_disc(xc, yc, r, x, y), cell)
}

/// The part of the outline that the columns before `upto` of the eighth stand for.
spec fn circle_part_layer(xc: int, yc: int, r: int, upto: int, cell: Cell) -> Layer {
    region_layer(
        |x: int, y: int|
            on_circle(xc, yc, r, x, y) && (abs(x - xc) < upto || abs(y - yc) < upto),
        cell,
    )
}

/// Whether a cell is filled on account of a point of the eighth before column `upto`.
spec fn covered_before(r: int, k: int, y: int, ax: int, ay: int, upto: int) -> bool {
    covered_by(r, k, y, ax, ay) && k < upto
}

/// The part of the filled circle that the columns before `upto` of the eighth stand for.
spec fn disc_part_layer(xc: int, yc: int, r: int, upto: int, cell: Cell) -> Layer {
    region_layer(
        |x: int, y: int|
            exists|k: int, h: int|
                #[trigger] covered_before(r, k, h, abs(x - xc), abs(y - yc), upto),
        cell,
    )
}

/// The eight mirror images of the point `(x, y)` of the eighth, each holding `cell`.
spec fn mirrored_layer(xc: int, yc: int, x: int, y: int, cell: Cell) -> Layer {
    region_layer(
        |px: int, py: int|
            (abs(px - xc) == x && abs(py - yc) == y) || (abs(px - xc) == y && abs(py - yc) == x),
        cell,
    )
}

/// The four rows that the point `(x, y)` of the eighth stands for, each
/// holding `cell` as far out as the point.
spec fn rows_layer(xc: int, yc: int, x: int, y: int, cell: Cell) -> Layer {
    region_layer(
        |px: int, py: int|
            (abs(py - yc) == y && abs(px - xc) <= x) || (abs(py - yc) == x && abs(px - xc) <= y),
        cell,
    )
}

/// In each of its columns the eighth has one cell only.
pub proof fn lemma_octant_unique(r: int, k: int, y1: int, y2: int)
    requires
        on_octant(r, k, y1),
        on_octant(r, k, y2),
    ensures
        y1 == y2,
{
    let c = r * r - k * k;
    assert(y1 == y2) by (nonlinear_arith)
        requires
            0 <= y1,
            0 <= y2,
            y1 * y1 - y1 < c,
            c <= y1 * y1 + y1,
            y2 * y2 - y2 < c,
            c <= y2 * y2 + y2,
    ;
}

/// Past the column where the eighth meets the diagonal it has no cell.
proof fn lemma_octant_ends(r: int, x: int, k: int, y: int)
    requires
        x >= 1,
        r * r <= 2 * (x * x) - x,
        k >= x,
    ensures
        !on_octant(r, k, y),
{
    if 0 <= k <= y {
        assert(k * k + y * y - y >= 2 * (x * x) - x) by (nonlinear_arith)
            requires
                1 <= x <= k,
                k <= y,
        ;
    }
}

impl ConsoleGameEngine {
    /// Draws the eight mirror images of one point of the eighth.
    fn plot_mirrored(&mut self, xc: i64, yc: i64, x: i64, y: i64, cell: Cell)
        requires
            old(self)@.wf(),
            0 <= x <= 0x1_0000_0000,
            0 <= y <= 0x1_0000_0000,
            -0x1_0000_0000 <= xc <= 0x1_0000_0000,
            -0x1_0000_0000 <= yc <= 0x1_0000_0000,
        ensures
            final(self)@.wf(),
            drawn(
                old(self)@,
                final(self)@,
                mirrored_layer(xc as int, yc as int, x as int, y as int, cell),
            ),
    {
        let ghost s0 = self@;
        self.plot(xc - x, yc - y, cell);
        let ghost s1 = self@;
        self.plot(xc - y, yc - x, cell);
        let ghost s2 = self@;
        self.plot(xc + y, yc - x, cell);
        let ghost s3 = self@;
        self.plot(xc + x, yc - y, cell);
        let ghost s4 = self@;
        self.plot(xc - x, yc + y, cell);
        let ghost s5 = self@;
        self.plot(xc - y, yc + x, cell);
        let ghost s6 = self@;
        self.plot(xc + y, yc + x, cell);
        let ghost s7 = self@;
        self.plot(xc + x, yc + y, cell);
        proof {
            let l1 = point_layer(xc - x, yc - y, cell);
            let l2 = stacked(l1, point_layer(xc - y, yc - x, cell));
            let l3 = stacked(l2, point_layer(xc + y, yc - x, cell));
            let l4 = stacked(l3, point_layer(xc + x, yc - y, cell));
            let l5 = stacked(l4, point_layer(xc - x, yc + y, cell));
            let l6 = stacked(l5, point_layer(xc - y, yc + x, cell));
            let l7 = stacked(l6, point_layer(xc + y, yc + x, cell));
            let l8 = stacked(l7, point_layer(xc + x, yc + y, cell));
            lemma_overlaid_twice(s0.screen, s1.screen, s2.screen, l1, point_layer(xc - y, yc - x, cell));
            lemma_overlaid_twice(s0.screen, s2.screen, s3.screen, l2, point_layer(xc + y, yc - x, cell));
            lemma_overlaid_twice(s0.screen, s3.screen, s4.screen, l3, point_layer(xc + x, yc - y, cell));
            lemma_overlaid_twice(s0.screen, s4.screen, s5.screen, l4, point_layer(xc - x, yc + y, cell));
            lemma_overlaid_twice(s0.screen, s5.screen, s6.screen, l5, point_layer(xc - y, yc + x, cell));
            lemma_overlaid_twice(s0.screen, s6.screen, s7.screen, l6, point_layer(xc + y, yc + x, cell));
            lemma_overlaid_twice(s0.screen, s7.screen, self@.screen, l7, point_layer(xc + x, yc + y, cell));
            let all = mirrored_layer(xc as int, yc as int, x as int, y as int, cell);
            assert forall|px: int, py: int| s0.screen.contains(px, py) implies #[trigger] l8(px, py)
                == all(px, py) by {}
            lemma_overlaid_same(s0.screen, self@.screen, l8, all);
        }
    }

    /// Fills the four rows that one point of the eighth stands for.
    fn fill_rows(&mut self, xc: i64, yc: i64, x: i64, y: i64, cell: Cell)
        requires
            old(self)@.wf(),
            0 <= x <= 0x1_0000_0000,
            0 <= y <= 0x1_0000_0000,
            -0x1_0000_0000 <= xc <= 0x1_0000_0000,
            -0x1_0000_0000 <= yc <= 0x1_0000_0000,
        ensures
            final(self)@.wf(),
            drawn(
                old(self)@,
                final(self)@,
                rows_layer(xc as int, yc as int, x as int, y as int, cell),
            ),
    {
        let ghost s0 = self@;
        self.hspan(yc - y, xc - x, xc + x, cell);
        let ghost s1 = self@;
        self.hspan(yc - x, xc - y, xc + y, cell);
        let ghost s2 = self@;
        self.hspan(yc + y, xc - x, xc + x, cell);
        let ghost s3 = self@;
        self.hspan(yc + x, xc - y, xc + y, cell);
        proof {
            let r1 = span_layer(yc - y, xc - x, xc + x, cell);
            let r2 = span_layer(yc - x, xc - y, xc + y, cell);
            let r3 = span_layer(yc + y, xc - x, xc + x, cell);
            let r4 = span_layer(yc + x, xc - y, xc + y, cell);
            let l2 = stacked(r1, r2);
            let l3 = stacked(l2, r3);
            let l4 = stacked(l3, r4);
            lemma_overlaid_twice(s0.screen, s1.screen, s2.screen, r1, r2);
            lemma_overlaid_twice(s0.screen, s2.screen, s3.screen, l2, r3);
            lemma_overlaid_twice(s0.screen, s3.screen, self@.screen, l3, r4);
            let all = rows_layer(xc as int, yc as int, x as int, y as int, cell);
            assert forall|px: int, py: int| s0.screen.contains(px, py) implies #[trigger] l4(px, py)
                == all(px, py) by {}
            lemma_overlaid_same(s0.screen, self@.screen, l4, all);
        }
    }

    /// Walks the eighth of the circle and draws, for each of its points,
    /// the mirror images of the point or the rows that it stands for.
    #[verifier::rlimit(50)]
    fn circle(&mut self, xc: i64, yc: i64, r: i64, filled: bool, cell: Cell)
        requires
            old(self)@.wf(),
            r <= 0x8000_0000,
            -0x8000_0000 <= xc <= 0x8000_0000,
            -0x8000_0000 <= yc <= 0x8000_0000,
        ensures
            final(self)@.wf(),
            drawn(
                old(self)@,
                final(self)@,
                if filled {
                    disc_layer(xc as int, yc as int, r as int, cell)
                } else {
                    circle_layer(xc as int, yc as int, r as int, cell)
                },
            ),
    {
        let ghost start = self@;
        let ghost (gxc, gyc, gr) = (xc as int, yc as int, r as int);
        let ghost whole = if filled {
            disc_layer(gxc, gyc, gr, cell)
        } else {
            circle_layer(gxc, gyc, gr, cell)
        };
        if r <= 0 {
            proof {
                lemma_overlaid_nothing(start.screen);
                assert forall|px: int, py: int| start.screen.contains(px, py) implies #[trigger] empty_layer()(
                    px,
                    py,
                ) == whole(px, py) by {
                    if filled && in_disc(gxc, gyc, gr, px, py) {
                        let (k, h) = choose|k: int, h: int| #[trigger]
                            covered_by(gr, k, h, abs(px - gxc), abs(py - gyc));
                        assert(on_octant(gr, k, h));
                    }
                }
                lemma_overlaid_same(start.screen, self@.screen, empty_layer(), whole);
            }
            return ;
        }
        let mut x: i64 = 0;
        let mut y: i64 = r;
        let mut p: i64 = 3 - 2 * r;
        let ghost rr: int = r * r;
        let ghost mut xx: int = 0;
        let ghost mut yy: int = r * r;
        proof {
            assert(0 * 0 == 0int);
            lemma_overlaid_nothing(start.screen);
            let none = if filled {
                disc_part_layer(gxc, gyc, gr, 0, cell)
            } else {
                circle_part_layer(gxc, gyc, gr, 0, cell)
            };
            assert forall|px: int, py: int| start.screen.contains(px, py) implies #[trigger] empty_layer()(
                px,
                py,
            ) == none(px, py) by {
                if filled && exists|k: int, h: int| #[trigger]
                    covered_before(gr, k, h, abs(px - gxc), abs(py - gyc), 0) {
                    let (k, h) = choose|k: int, h: int| #[trigger]
                        covered_before(gr, k, h, abs(px - gxc), abs(py - gyc), 0);
                    assert(on_octant(gr, k, h));
                }
            }
            lemma_overlaid_same(start.screen, self@.screen, empty_layer(), none);
        }
        while y >= x
            invariant
                start.wf(),
                self@.wf(),
                0 < r <= 0x8000_0000,
                gr == r,
                gxc == xc,
                gyc == yc,
                -0x8000_0000 <= xc <= 0x8000_0000,
                -0x8000_0000 <= yc <= 0x8000_0000,
                rr == r * r,
                xx == x * x,
                yy == y * y,
                0 <= x,
                x - 2 <= y <= r,
                p == 2 * (xx + 2 * x + 1 + yy - y - rr) + 1,
                rr <= xx + yy + y,
                y >= x ==> xx + yy - y < rr,
                y < x ==> x >= 1,
                drawn(
                    start,
                    self@,
                    if filled {
                        disc_part_layer(gxc, gyc, gr, x as int, cell)
                    } else {
                        circle_part_layer(gxc, gyc, gr, x as int, cell)
                    },
                ),
            decreases y - x + 2,
        {
            let ghost before = self@;
            let ghost (x0, y0) = (x as int, y as int);
            assert(on_octant(gr, x0, y0));
            if filled {
                self.fill_rows(xc, yc, x, y, cell);
            } else {
                self.plot_mirrored(xc, yc, x, y, cell);
            }
            proof {
                assert((x0 + 1) * (x0 + 1) == x0 * x0 + 2 * x0 + 1) by (nonlinear_arith);
                assert((y0 - 1) * (y0 - 1) == y0 * y0 - 2 * y0 + 1) by (nonlinear_arith);
                if filled {
                    let done = disc_part_layer(gxc, gyc, gr, x0, cell);
                    let step = rows_layer(gxc, gyc, x0, y0, cell);
                    let more = disc_part_layer(gxc, gyc, gr, x0 + 1, cell);
                    lemma_overlaid_twice(start.screen, before.screen, self@.screen, done, step);
                    assert forall|px: int, py: int| start.screen.contains(px, py) implies #[trigger] stacked(
                        done,
                        step,
                    )(px, py) == more(px, py) by {
                        let ax = abs(px - gxc);
                        let ay = abs(py - gyc);
                        let was = exists|k: int, h: int| #[trigger]
                            covered_before(gr, k, h, ax, ay, x0);
                        let now = exists|k: int, h: int| #[trigger]
                            covered_before(gr, k, h, ax, ay, x0 + 1);
                        let here = (ay == y0 && ax <= x0) || (ay == x0 && ax <= y0);
                        if was {
                            let (k, h) = choose|k: int, h: int| #[trigger]
                                covered_before(gr, k, h, ax, ay, x0);
                            assert(covered_before(gr, k, h, ax, ay, x0 + 1));
                        }
                        if here {
                            assert(covered_before(gr, x0, y0, ax, ay, x0 + 1));
                        }
                        if now {
                            let (k, h) = choose|k: int, h: int| #[trigger]
                                covered_before(gr, k, h, ax, ay, x0 + 1);
                            if k < x0 {
                                assert(covered_before(gr, k, h, ax, ay, x0));
                            } else {
                                lemma_octant_unique(gr, x0, h, y0);
                            }
                        }
                        assert(now == (was || here));
                    }
                    lemma_overlaid_same(start.screen, self@.screen, stacked(done, step), more);
                } else {
                    let done = circle_part_layer(gxc, gyc, gr, x0, cell);
                    let step = mirrored_layer(gxc, gyc, x0, y0, cell);
                    let more = circle_part_layer(gxc, gyc, gr, x0 + 1, cell);
                    lemma_overlaid_twice(start.screen, before.screen, self@.screen, done, step);
                    assert forall|px: int, py: int| start.screen.contains(px, py) implies #[trigger] stacked(
                        done,
                        step,
                    )(px, py) == more(px, py) by {
                        let ax = abs(px - gxc);
                        let ay = abs(py - gyc);
                        if on_octant(gr, ax, ay) && ax == x0 {
                            lemma_octant_unique(gr, x0, ay, y0);
                        }
                        if on_octant(gr, ay, ax) && ay == x0 {
                            lemma_octant_unique(gr, x0, ax, y0);
                        }
                    }
                    lemma_overlaid_same(start.screen, self@.screen, stacked(done, step), more);
                }
            }
            if p < 0 {
                p = p + 4 * x + 6;
            } else {
                p = p + 4 * (x - y) + 10;
                y = y - 1;
                proof {
                    yy = yy - 2 * y0 + 1;
                }
            }
            x = x + 1;
            proof {
                xx = xx + 2 * x0 + 1;
            }
        }
        proof {
            let part = if filled {
                disc_part_layer(gxc, gyc, gr, x as int, cell)
            } else {
                circle_part_layer(gxc, gyc, gr, x as int, cell)
            };
            assert(yy + y <= xx - x) by (nonlinear_arith)
                requires
                    yy == y * y,
                    xx == x * x,
                    x - 2 <= y <= x - 1,
                    x >= 1,
            ;
            assert(rr <= 2 * xx - x);
            assert forall|px: int, py: int| start.screen.contains(px, py) implies #[trigger] part(
                px,
                py,
            ) == whole(px, py) by {
                let ax = abs(px - gxc);
                let ay = abs(py - gyc);
                if filled {
                    if in_disc(gxc, gyc, gr, px, py) {
                        let (k, h) = choose|k: int, h: int| #[trigger] covered_by(gr, k, h, ax, ay);
                        if k >= x {
                            lemma_octant_ends(gr, x as int, k, h);
                        }
                        assert(covered_before(gr, k, h, ax, ay, x as int));
                    }
                    if exists|k: int, h: int| #[trigger] covered_before(gr, k, h, ax, ay, x as int) {
                        let (k, h) = choose|k: int, h: int| #[trigger]
                            covered_before(gr, k, h, ax, ay, x as int);
                        assert(covered_by(gr, k, h, ax, ay));
                    }
                } else {
                    if ax >= x {
                        lemma_octant_ends(gr, x as int, ax, ay);
                    }
                    if ay >= x {
                        lemma_octant_ends(gr, x as int, ay, ax);
                    }
                }
            }
            lemma_overlaid_same(start.screen, self@.screen, part, whole);
        }
    }

    /// Draws a white circle centered at `(xc, yc)` with radius `r`.
    pub fn draw_circle(&mut self, xc: i32, yc: i32, r: i32)
        requires
            old(self)@.wf(),
        ensures
            final(self)@.wf(),
            drawn(
                old(self)@,
                final(self)@,
                circle_layer(
                    xc as int,
                    yc as int,
                    r as int,
                    (Cell { glyph: PIXEL_SOLID, color: FG_WHITE }),
                ),
            ),
    {
        self.draw_circle_with(xc, yc, r, PIXEL_SOLID, FG_WHITE);
    }

    /// Draws a circle centered at `(xc, yc)` with radius `r` using the
    /// specified glyph and color. A radius of zero or less draws nothing.
    pub fn draw_circle_with(&mut self, xc: i32, yc: i32, r: i32, c: u16, col: u16)
        requires
            old(self)@.wf(),
        ensures
            final(self)@.wf(),
            drawn(
                old(self)@,
                final(self)@,
                circle_layer(xc as int, yc as int, r as int, (Cell { glyph: c, color: col })),
            ),
    {
        self.circle(xc as i64, yc as i64, r as i64, false, Cell { glyph: c, color: col });
    }

    /// Fills a circle centered at `(xc, yc)` with white pixels and radius `r`.
    pub fn fill_circle(&mut self, xc: i32, yc: i32, r: i32)
        requires
            old(self)@.wf(),
        ensures
            final(self)@.wf(),
            drawn(
                old(self)@,
                final(self)@,
                disc_layer(
                    xc as int,
                    yc as int,
                    r as int,
                    (Cell { glyph: PIXEL_SOLID, color: FG_WHITE }),
                ),
            ),
    {
        self.fill_circle_with(xc, yc, r, PIXEL_SOLID, FG_WHITE);
    }

    /// Fills a circle centered at `(xc, yc)` with radius `r` using the
    /// specified glyph and color. A radius of zero or less draws nothing.
    pub fn fill_circle_with(&mut self, xc: i32, yc: i32, r: i32, c: u16, col: u16)
        requires
            old(self)@.wf(),
        ensures
            final(self)@.wf(),
            drawn(
                old(self)@,
                final(self)@,
                disc_layer(xc as int, yc as int, r as int, (Cell { glyph: c, color: col })),
            ),
    {
        self.circle(xc as i64, yc as i64, r as i64, true, Cell { glyph: c, color: col });
    }
}

} // verus!
