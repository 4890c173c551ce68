//! Sprites on the screen: each cell of a sprite that is not empty is copied
//! to the screen, and the empty ones let the screen show through.

use crate::engine::{drawn, ConsoleGameEngine};
use crate::pixel::PIXEL_EMPTY;
use crate::screen::{
    empty_layer, lemma_overlaid_nothing, lemma_overlaid_same, lemma_overlaid_twice, point_layer,
    stacked, Cell, Layer,
};
use crate::sprite::{Sprite, SpriteView};
use vstd::prelude::*;

verus! {

/// The cells of a part of a sprite drawn with its corner at `(x, y)`: the
/// part is `w` by `h` cells and starts at the sprite's cell `(ox, oy)`.
/// Cells with the empty glyph, and cells outside the sprite, are left out.
pub open spec fn sprite_layer(
    x: int,
    y: int,
    sprite: SpriteView,
    ox: int,
    oy: int,
    w: int,
    h: int,
) -> Layer {
    |px: int, py: int|
        {
            let i = px - x;
            let j = py - y;
            if 0 <= i < w && 0 <= j < h && sprite.glyph_at(i + ox, j + oy) != PIXEL_EMPTY {
                Some(
                    Cell {
                        glyph: sprite.glyph_at(i + ox, j + oy),
                        color: sprite.color_at(i + ox, j + oy),
                    },
                )
            } else {
                None
            }
        }
}

/// The cells of a part of a sprite that lie before `(col, row)` in the order
/// of the screen buffer.
spec fn sprite_part_layer(
    x: int,
    y: int,
    sprite: SpriteView,
    ox: int,
    oy: int,
    w: int,
    h: int,
    col: int,
    row: int,
) -> Layer {
    |px: int, py: int|
        if py < row || (py == row && px < col) {
            sprite_layer(x, y, sprite, ox, oy, w, h)(px, py)
        } else {
            None
        }
}

/// Whether column or row `p` of the screen shows a cell of a part that
/// starts at `at` and is `extent` long.
pub open spec fn covers(at: int, extent: int, p: int) -> bool {
    0 <= p - at < extent
}

/// The first of the screen's columns or rows that a sprite part covers, and
/// the one after the last, for a part that starts at `at` and is `extent` long
/// on a screen that is `limit` long.
fn covered(at: i32, extent: usize, limit: i32) -> (range: (i64, i64))
    requires
        0 <= limit < 0x8000,
    ensures
        0 <= range.0 <= limit,
        0 <= range.1 <= limit,
        forall|p: int|
            0 <= p < limit ==> #[trigger] covers(at as int, extent as int, p) == (range.0 <= p
                < range.1),
{
    let first: i64 = if at > 0 { at as i64 } else { 0 };
    let end: i128 = at as i128 + extent as i128;
    let last: i64 = if end < 0 {
        0
    } else if end > limit as i128 {
        limit as i64
    } else {
        end as i64
    };
    if first > limit as i64 {
        (limit as i64, limit as i64)
    } else {
        (first, last)
    }
}

impl ConsoleGameEngine {
    /// Draws a sprite at position `(x, y)`.
    pub fn draw_sprite(&mut self, x: i32, y: i32, sprite: &Sprite)
        requires
            old(self)@.wf(),
            sprite@.wf(),
        ensures
            final(self)@.wf(),
            drawn(
                old(self)@,
                final(self)@,
                sprite_layer(
                    x as int,
                    y as int,
                    sprite@,
                    0,
                    0,
                    sprite@.width as int,
                    sprite@.height as int,
                ),
            ),
    {
        let w = sprite.width();
        let h = sprite.height();
        self.draw_partial_sprite(x, y, sprite, 0, 0, w, h);
    }

    /// Draws a portion of a sprite at position `(x, y)` on the screen: the
    /// portion of `w` by `h` cells that starts at the sprite's cell `(ox, oy)`.
    #[verifier::rlimit(50)]
    pub fn draw_partial_sprite(
        &mut self,
        x: i32,
        y: i32,
        sprite: &Sprite,
        ox: usize,
        oy: usize,
        w: usize,
        h: usize,
    )
        requires
            old(self)@.wf(),
            sprite@.wf(),
        ensures
            final(self)@.wf(),
            drawn(
                old(self)@,
                final(self)@,
                sprite_layer(x as int, y as int, sprite@, ox as int, oy as int, w as int, h as int),
            ),
    {
        let ghost start = self@;
        let ghost sv = sprite@;
        let ghost (gx, gy, gox, goy, gw, gh) = (
            x as int,
            y as int,
            ox as int,
            oy as int,
            w as int,
            h as int,
        );
        let width = self.screen_width();
        let height = self.screen_height();
        let (col0, col1) = covered(x, w, width);
        let (row0, row1) = covered(y, h, height);
        let mut py: i64 = row0;
        proof {
            lemma_overlaid_nothing(start.screen);
            let none = sprite_part_layer(gx, gy, sv, gox, goy, gw, gh, col0 as int, py as int);
            assert forall|qx: int, qy: int| start.screen.contains(qx, qy) implies #[trigger] empty_layer()(
                qx,
                qy,
            ) == none(qx, qy) by {
                assert(covers(gx, gw, qx) == (col0 <= qx < col1));
                assert(covers(gy, gh, qy) == (row0 <= qy < row1));
            }
            lemma_overlaid_same(start.screen, self@.screen, empty_layer(), none);
        }
        while py < row1
            invariant
                start.wf(),
                self@.wf(),
                sv == sprite@,
                sv.wf(),
                gx == x && gy == y && gox == ox && goy == oy && gw == w && gh == h,
                width == start.screen.width,
                height == start.screen.height,
                0 <= col0 <= width < 0x8000,
                0 <= col1 <= width,
                0 <= row0 <= py,
                py <= row1 || row1 <= row0,
                row1 <= height < 0x8000,
                forall|p: int|
                    0 <= p < width ==> #[trigger] covers(gx, gw, p) == (col0 <= p < col1),
                forall|p: int|
                    0 <= p < height ==> #[trigger] covers(gy, gh, p) == (row0 <= p < row1),
                drawn(
                    start,
                    self@,
                    sprite_part_layer(gx, gy, sv, gox, goy, gw, gh, col0 as int, py as int),
                ),
            decreases row1 - py,
        {
            let mut px: i64 = col0;
            while px < col1
                invariant
                    start.wf(),
                    self@.wf(),
                    sv == sprite@,
                    sv.wf(),
                    gx == x && gy == y && gox == ox && goy == oy && gw == w && gh == h,
                    width == start.screen.width,
                    height == start.screen.height,
                    0 <= col0 <= px,
                    px <= col1 || col1 <= col0,
                    col1 <= width < 0x8000,
                    0 <= row0 <= py < row1 <= height < 0x8000,
                    forall|p: int|
                        0 <= p < width ==> #[trigger] covers(gx, gw, p) == (col0 <= p < col1),
                    forall|p: int|
                        0 <= p < height ==> #[trigger] covers(gy, gh, p) == (row0 <= p < row1),
                    drawn(
                        start,
                        self@,
                        sprite_part_layer(gx, gy, sv, gox, goy, gw, gh, px as int, py as int),
                    ),
                decreases col1 - px,
            {
                let ghost before = self@;
                let ghost done = sprite_part_layer(gx, gy, sv, gox, goy, gw, gh, px as int, py as int);
                let ghost more = sprite_part_layer(gx, gy, sv, gox, goy, gw, gh, px + 1, py as int);
                let i: usize = (px - x as i64) as usize;
                let j: usize = (py - y as i64) as usize;
                let mut glyph: u16 = PIXEL_EMPTY;
                let mut color: u16 = 0;
                match (i.checked_add(ox), j.checked_add(oy)) {
                    (Some(sx), Some(sy)) => {
                        glyph = sprite.get_glyph(sx, sy);
                        color = sprite.get_color(sx, sy);
                    },
                    _ => {
                        proof {
                            sprite.lemma_size();
                        }
                    },
                }
                assert(glyph == sv.glyph_at(i + ox, j + oy));
                if glyph != PIXEL_EMPTY {
                    let cell = Cell { glyph, color };
                    self.plot(px, py, cell);
                    proof {
                        let point = point_layer(px as int, py as int, cell);
                        lemma_overlaid_twice(start.screen, before.screen, self@.screen, done, point);
                        assert forall|qx: int, qy: int| start.screen.contains(qx, qy) implies #[trigger] stacked(
                            done,
                            point,
                        )(qx, qy) == more(qx, qy) by {
                            assert(covers(gx, gw, qx) == (col0 <= qx < col1));
                            assert(covers(gy, gh, qy) == (row0 <= qy < row1));
                        }
                        lemma_overlaid_same(start.screen, self@.screen, stacked(done, point), more);
                    }
                } else {
                    proof {
                        assert forall|qx: int, qy: int| start.screen.contains(qx, qy) implies #[trigger] done(
                            qx,
                            qy,
                        ) == more(qx, qy) by {
                            assert(covers(gx, gw, qx) == (col0 <= qx < col1));
                            assert(covers(gy, gh, qy) == (row0 <= qy < row1));
                        }
                        lemma_overlaid_same(start.screen, self@.screen, done, more);
                    }
                }
                px = px + 1;
            }
            proof {
                let done = sprite_part_layer(gx, gy, sv, gox, goy, gw, gh, px as int, py as int);
                let next = sprite_part_layer(gx, gy, sv, gox, goy, gw, gh, col0 as int, py + 1);
                assert forall|qx: int, qy: int| start.screen.contains(qx, qy) implies #[trigger] done(
                    qx,
                    qy,
                ) == next(qx, qy) by {
                    assert(covers(gx, gw, qx) == (col0 <= qx < col1));
                    assert(covers(gy, gh, qy) == (row0 <= qy < row1));
                }
                lemma_overlaid_same(start.screen, self@.screen, done, next);
            }
            py = py + 1;
        }
        proof {
            let done = sprite_part_layer(gx, gy, sv, gox, goy, gw, gh, col0 as int, py as int);
            let whole = sprite_layer(gx, gy, sv, gox, goy, gw, gh);
            assert forall|qx: int, qy: int| start.screen.contains(qx, qy) implies #[trigger] done(
                qx,
                qy,
            ) == whole(qx, qy) by {
                assert(covers(gx, gw, qx) == (col0 <= qx < col1));
                assert(covers(gy, gh, qy) == (row0 <= qy < row1));
            }
            lemma_overlaid_same(start.screen, self@.screen, done, whole);
        }
    }
}

} // verus!
