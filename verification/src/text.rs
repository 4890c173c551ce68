//! Text on the screen: the 16-bit units of a string, one cell each, along
//! the row where the string starts.

use crate::color::FG_WHITE;
use crate::engine::{drawn, ConsoleGameEngine};
use crate::screen::{
    empty_layer, lemma_overlaid_nothing, lemma_overlaid_same, lemma_overlaid_twice, point_layer,
    stacked, Cell, Layer,
};
use vstd::prelude::*;
use vstd::std_specs::iter::IteratorSpec;

verus! {

/// The glyph of a space, which the transparent forms of text leave out.
pub const SPACE: u16 = 0x20;

/// The 16-bit units that stand for one character: the character's number
/// if it fits, and two surrogates otherwise.
pub open spec fn char_units(c: char) -> Seq<u16> {
    let v = c as int;
    if v < 0x10000 {
        seq![v as u16]
    } else {
        seq![(0xD800 + (v - 0x10000) / 1024) as u16, (0xDC00 + (v - 0x10000) % 1024) as u16]
    }
}

/// The 16-bit units that stand for a string.
pub open spec fn utf16(s: Seq<char>) -> Seq<u16>
    decreases s.len(),
{
    if s.len() == 0 {
        Seq::empty()
    } else {
        utf16(s.drop_last()) + char_units(s.last())
    }
}

/// The cells of a text: unit `i` stands in row `y`, `i` columns right of
/// column `x`. Units that fall off the screen stand nowhere: a text that is
/// too long for its row is cut off, and does not go on in the next. With
/// `alpha`, spaces are left out.
pub open spec fn text_layer(x: int, y: int, units: Seq<u16>, color: u16, alpha: bool) -> Layer {
    |px: int, py: int|
        {
            let i = px - x;
            if py == y && 0 <= i < units.len() && !(alpha && units[i] == SPACE) {
                Some(Cell { glyph: units[i], color })
            } else {
                None
            }
        }
}

/// The number of a character.
fn code_of(c: char) -> (v: u32)
    ensures
        v == c as int,
        v <= 0x10FFFF,
{
    c as u32
}

/// The 16-bit units that stand for `text`.
pub fn utf16_units(text: &str) -> (units: Vec<u16>)
    ensures
        units@ == utf16(text@),
{
    let mut units: Vec<u16> = Vec::new();
    let ghost mut done: Seq<char> = Seq::empty();
    let mut chars = text.chars();
    loop
        invariant
            chars.obeys_prophetic_iter_laws(),
            done + chars.remaining() == text@,
            units@ == utf16(done),
            chars.decrease() is Some,
        ensures
            units@ == utf16(text@),
        decreases chars.decrease()->0,
    {
        let ghost before = chars.remaining();
        match chars.next() {
            Some(c) => {
                let v: u32 = code_of(c);
                if v < 0x10000 {
                    units.push(v as u16);
                } else {
                    units.push((0xD800 + (v - 0x10000) / 1024) as u16);
                    units.push((0xDC00 + (v - 0x10000) % 1024) as u16);
                }
                proof {
                    let longer = done.push(c);
                    assert(longer.drop_last() =~= done);
                    assert(longer.last() == c);
                    assert(units@ =~= utf16(done) + char_units(c));
                    assert(longer + chars.remaining() =~= done + before);
                    done = longer;
                }
            },
            None => {
                proof {
                    assert(done + chars.remaining() =~= done);
                }
                break ;
            },
        }
    }
    units
}

impl ConsoleGameEngine {
    /// Writes `units` into row `y` from column `x` on. Units that fall off
    /// the screen are dropped.
    #[verifier::rlimit(50)]
    fn write_units(&mut self, x: i32, y: i32, units: &Vec<u16>, col: u16, alpha: bool)
        requires
            old(self)@.wf(),
        ensures
            final(self)@.wf(),
            drawn(old(self)@, final(self)@, text_layer(x as int, y as int, units@, col, alpha)),
    {
        let ghost start = self@;
        let w: i32 = self.screen_width();
        let mut i: usize = 0;
        proof {
            lemma_overlaid_nothing(start.screen);
            let none = text_layer(x as int, y as int, units@.take(0), col, alpha);
            assert forall|px: int, py: int| start.screen.contains(px, py) implies #[trigger] empty_layer()(
                px,
                py,
            ) == none(px, py) by {}
            lemma_overlaid_same(start.screen, self@.screen, empty_layer(), none);
        }
        while i < units.len()
            invariant
                start.wf(),
                self@.wf(),
                i <= units@.len(),
                w == start.screen.width,
                drawn(start, self@, text_layer(x as int, y as int, units@.take(i as int), col, alpha)),
            decreases units@.len() - i,
        {
            let ghost before = self@;
            let ghost shorter = text_layer(x as int, y as int, units@.take(i as int), col, alpha);
            let ghost longer = text_layer(x as int, y as int, units@.take(i + 1), col, alpha);
            let unit: u16 = units[i];
            let column: i128 = (x as i128) + (i as i128);
            if 0 <= column && column < w as i128 && !(alpha && unit == SPACE) {
                let cell = Cell { glyph: unit, color: col };
                self.plot(column as i64, y as i64, cell);
                proof {
                    let point = point_layer(column as int, y as int, cell);
                    lemma_overlaid_twice(start.screen, before.screen, self@.screen, shorter, point);
                    assert forall|qx: int, qy: int| start.screen.contains(qx, qy) implies #[trigger] stacked(
                        shorter,
                        point,
                    )(qx, qy) == longer(qx, qy) by {
                        let k = qx - x;
                        if 0 <= k < i {
                            assert(units@.take(i as int)[k] == units@.take(i + 1)[k]);
                        }
                    }
                    lemma_overlaid_same(start.screen, self@.screen, stacked(shorter, point), longer);
                }
            } else {
                proof {
                    assert forall|qx: int, qy: int| start.screen.contains(qx, qy) implies #[trigger] shorter(
                        qx,
                        qy,
                    ) == longer(qx, qy) by {
                        let k = qx - x;
                        if 0 <= k < i {
                            assert(units@.take(i as int)[k] == units@.take(i + 1)[k]);
                        }
                    }
                    lemma_overlaid_same(start.screen, self@.screen, shorter, longer);
                }
            }
            i += 1;
        }
        proof {
            assert(units@.take(i as int) =~= units@);
        }
    }

    /// Draws a string of white text starting at `(x, y)`.
    pub fn draw_string(&mut self, x: i32, y: i32, text: &str)
        requires
            old(self)@.wf(),
        ensures
            final(self)@.wf(),
            drawn(
                old(self)@,
                final(self)@,
                text_layer(x as int, y as int, utf16(text@), FG_WHITE, false),
            ),
    {
        self.draw_string_with(x, y, text, FG_WHITE);
    }

    /// Draws a string starting at `(x, y)` with the specified color.
    pub fn draw_string_with(&mut self, x: i32, y: i32, text: &str, col: u16)
        requires
            old(self)@.wf(),
        ensures
            final(self)@.wf(),
            drawn(
                old(self)@,
                final(self)@,
                text_layer(x as int, y as int, utf16(text@), col, false),
            ),
    {
        let units = utf16_units(text);
        self.write_units(x, y, &units, col, false);
    }

    /// Draws a string at `(x, y)` ignoring spaces (transparent spaces).
    pub fn draw_string_alpha(&mut self, x: i32, y: i32, text: &str)
        requires
            old(self)@.wf(),
        ensures
            final(self)@.wf(),
            drawn(
                old(self)@,
                final(self)@,
                text_layer(x as int, y as int, utf16(text@), FG_WHITE, true),
            ),
    {
        self.draw_string_alpha_with(x, y, text, FG_WHITE);
    }

    /// Draws a string at `(x, y)` ignoring spaces (transparent spaces), using
    /// the specified color.
    pub fn draw_string_alpha_with(&mut self, x: i32, y: i32, text: &str, col: u16)
        requires
            old(self)@.wf(),
        ensures
            final(self)@.wf(),
            drawn(
                old(self)@,
                final(self)@,
                text_layer(x as int, y as int, utf16(text@), col, true),
            ),
    {
        let units = utf16_units(text);
        self.write_units(x, y, &units, col, true);
    }
}

} // verus!
