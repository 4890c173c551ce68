//! The screen buffer as a mathematical object, and what it means to draw on it.

use vstd::prelude::*;

verus! {

/// One character cell of the screen: a glyph and its packed colour attribute.
#[derive(Clone, Copy, Debug, PartialEq, Eq, Structural)]
pub struct Cell {
    pub glyph: u16,
    pub color: u16,
}

/// The screen as contracts see it: its size and its cells, row by row.
pub struct ScreenView {
    pub width: int,
    pub height: int,
    pub cells: Seq<Cell>,
}

impl ScreenView {
    /// The buffer holds exactly one cell for each position of the grid.
    pub open spec fn wf(self) -> bool {
        &&& 0 <= self.width
        &&& 0 <= self.height
        &&& self.cells.len() == self.width * self.height
    }

    /// Whether `(x, y)` is a position on the screen.
    pub open spec fn contains(self, x: int, y: int) -> bool {
        0 <= x < self.width && 0 <= y < self.height
    }

    /// The place of position `(x, y)` in the buffer.
    pub open spec fn index(self, x: int, y: int) -> int {
        y * self.width + x
    }

    /// The cell shown at `(x, y)`.
    pub open spec fn at(self, x: int, y: int) -> Cell {
        self.cells[self.index(x, y)]
    }

    /// A position on the screen has its place inside the buffer, and two
    /// positions share a place only if they are the same.
    pub proof fn lemma_index(self, x: int, y: int)
        requires
            self.contains(x, y),
        ensures
            0 <= y * self.width <= self.index(x, y) < self.width * self.height,
            self.index(x, y) % self.width == x,
            self.index(x, y) / self.width == y,
    {
        let w = self.width;
        let h = self.height;
        assert(y * w + w <= h * w) by (nonlinear_arith)
            requires
                0 <= y < h,
                0 < w,
        ;
        assert(h * w == w * h) by (nonlinear_arith);
        assert(0 <= y * w) by (nonlinear_arith)
            requires
                0 <= y,
                0 <= w,
        ;
        vstd::arithmetic::div_mod::lemma_fundamental_div_mod_converse(y * w + x, w, y, x);
    }

    /// Every place of a well-formed buffer belongs to one position on the screen.
    pub proof fn lemma_position(self, i: int)
        requires
            self.wf(),
            0 <= i < self.cells.len(),
        ensures
            self.contains(i % self.width, i / self.width),
            self.index(i % self.width, i / self.width) == i,
    {
        let w = self.width;
        let h = self.height;
        assert(w > 0) by (nonlinear_arith)
            requires
                0 <= i < w * h,
                0 <= w,
        ;
        vstd::arithmetic::div_mod::lemma_fundamental_div_mod(i, w);
        vstd::arithmetic::div_mod::lemma_mod_bound(i, w);
        let q = i / w;
        let r = i % w;
        assert(w * q == q * w) by (nonlinear_arith);
        assert(0 <= q) by (nonlinear_arith)
            requires
                i == w * q + r,
                0 <= r < w,
                0 <= i,
        ;
        assert(q < h) by (nonlinear_arith)
            requires
                i == w * q + r,
                0 <= r < w,
                i < w * h,
        ;
    }
}

/// A layer says, for each position, which cell it puts there, if any.
pub type Layer = spec_fn(int, int) -> Option<Cell>;

/// `after` is `before` with `layer` laid over it: where the layer has a cell, the
/// screen shows that cell; everywhere else it shows what it showed before.
pub open spec fn overlaid(before: ScreenView, after: ScreenView, layer: Layer) -> bool {
    &&& after.width == before.width
    &&& after.height == before.height
    &&& after.cells.len() == before.cells.len()
    &&& forall|x: int, y: int|
        before.contains(x, y) ==> #[trigger] after.at(x, y) == match layer(x, y) {
            Some(c) => c,
            None => before.at(x, y),
        }
}

/// The layer that holds `cell` at `(x, y)` and nothing else.
pub open spec fn point_layer(x: int, y: int, cell: Cell) -> Layer {
    |px: int, py: int|
        if px == x && py == y {
            Some(cell)
        } else {
            None
        }
}

/// The layer that holds `cell` wherever `region` is true.
pub open spec fn region_layer(region: spec_fn(int, int) -> bool, cell: Cell) -> Layer {
    |px: int, py: int|
        if region(px, py) {
            Some(cell)
        } else {
            None
        }
}

/// The layer `over` laid on the layer `under`.
pub open spec fn stacked(under: Layer, over: Layer) -> Layer {
    |px: int, py: int|
        match over(px, py) {
            Some(c) => Some(c),
            None => under(px, py),
        }
}

/// The layer that holds nothing.
pub open spec fn empty_layer() -> Layer {
    |px: int, py: int| None
}

/// Laying one layer and then another is laying the two stacked.
pub proof fn lemma_overlaid_twice(
    a: ScreenView,
    b: ScreenView,
    c: ScreenView,
    under: Layer,
    over: Layer,
)
    requires
        overlaid(a, b, under),
        overlaid(b, c, over),
    ensures
        overlaid(a, c, stacked(under, over)),
{
    assert forall|x: int, y: int| a.contains(x, y) implies #[trigger] c.at(x, y) == match stacked(
        under,
        over,
    )(x, y) {
        Some(cell) => cell,
        None => a.at(x, y),
    } by {
        assert(b.contains(x, y));
        assert(b.at(x, y) == match under(x, y) {
            Some(cell) => cell,
            None => a.at(x, y),
        });
    }
}

/// Two layers that agree on the screen lay the same picture.
pub proof fn lemma_overlaid_same(a: ScreenView, b: ScreenView, l1: Layer, l2: Layer)
    requires
        overlaid(a, b, l1),
        forall|x: int, y: int| a.contains(x, y) ==> #[trigger] l1(x, y) == l2(x, y),
    ensures
        overlaid(a, b, l2),
{
    assert forall|x: int, y: int| a.contains(x, y) implies #[trigger] b.at(x, y) == match l2(x, y) {
        Some(cell) => cell,
        None => a.at(x, y),
    } by {
        assert(l1(x, y) == l2(x, y));
    }
}

/// Laying the empty layer changes nothing.
pub proof fn lemma_overlaid_nothing(a: ScreenView)
    ensures
        overlaid(a, a, empty_layer()),
{
}

} // verus!
