//! Filled polygons by the even-odd rule, one row of the screen at a time.
//! A row is judged along the line through the middle of its cells. The
//! corners of a polygon are given to a fraction of a cell: in steps of which
//! `SUBCELLS` make one cell.

use crate::engine::{drawn, ConsoleGameEngine};
use crate::model::SUBCELLS;
use crate::screen::{
    empty_layer, lemma_overlaid_nothing, lemma_overlaid_same, lemma_overlaid_twice, point_layer,
    region_layer, stacked, Cell, Layer,
};
use vstd::prelude::*;

verus! {

/// The height of the middle of row `y`, in steps.
pub open spec fn row_middle(y: int) -> int {
    y * SUBCELLS + SUBCELLS / 2
}

/// Whether a corner lies beyond the middle of row `y`, counted downwards.
pub open spec fn beyond(p: (i32, i32), y: int) -> bool {
    p.1 > row_middle(y)
}

/// Side `i` of a polygon: from corner `i` to the next, and from the last
/// corner to the first.
pub open spec fn side(points: Seq<(i32, i32)>, i: int) -> ((i32, i32), (i32, i32)) {
    (points[i], points[(i + 1) % (points.len() as int)])
}

/// Whether a side crosses the middle of row `y`: one of its ends lies beyond
/// it and the other does not. A side along a row crosses none.
pub open spec fn crosses(s: ((i32, i32), (i32, i32)), y: int) -> bool {
    beyond(s.0, y) != beyond(s.1, y)
}

/// The end of a side that lies in the earlier row.
pub open spec fn upper_end(s: ((i32, i32), (i32, i32))) -> (i32, i32) {
    if s.0.1 <= s.1.1 {
        s.0
    } else {
        s.1
    }
}

/// The end of a side that lies in the later row.
pub open spec fn lower_end(s: ((i32, i32), (i32, i32))) -> (i32, i32) {
    if s.0.1 <= s.1.1 {
        s.1
    } else {
        s.0
    }
}

/// The height of a side in steps, times the steps of a cell. The place
/// where a side crosses the middle of a row is `crossing_num / crossing_den`
/// cells from the left, the fraction kept.
pub open spec fn crossing_den(s: ((i32, i32), (i32, i32))) -> int {
    SUBCELLS * (lower_end(s).1 - upper_end(s).1)
}

/// The numerator of the place where a side crosses the middle of row `y`.
pub open spec fn crossing_num(s: ((i32, i32), (i32, i32)), y: int) -> int {
    let a = upper_end(s);
    let b = lower_end(s);
    a.0 * (b.1 - a.1) + (row_middle(y) - a.1) * (b.0 - a.0)
}

/// Whether a side crosses the middle of row `y` to the left of column `x`,
/// which stands `x` whole cells from the left.
pub open spec fn crosses_left(s: ((i32, i32), (i32, i32)), x: int, y: int) -> bool {
    crosses(s, y) && crossing_num(s, y) < x * crossing_den(s)
}

/// Whether a side crosses the middle of row `y` exactly at column `x`.
pub open spec fn crosses_at(s: ((i32, i32), (i32, i32)), x: int, y: int) -> bool {
    crosses(s, y) && crossing_num(s, y) == x * crossing_den(s)
}

/// Whether an odd number of the first `count` sides cross the middle of row
/// `y` to the left of column `x`.
pub open spec fn odd_left(points: Seq<(i32, i32)>, count: int, x: int, y: int) -> bool
    decreases count,
{
    if count <= 0 {
        false
    } else {
        odd_left(points, count - 1, x, y) != crosses_left(side(points, count - 1), x, y)
    }
}

/// Whether one of the first `count` sides crosses the middle of row `y` in
/// the middle of column `x`.
pub open spec fn any_at(points: Seq<(i32, i32)>, count: int, x: int, y: int) -> bool {
    exists|i: int| 0 <= i < count && #[trigger] crosses_at(side(points, i), x, y)
}

/// Whether an odd number of the first `count` sides cross the middle of row `y`.
pub open spec fn odd_crossings(points: Seq<(i32, i32)>, count: int, y: int) -> bool
    decreases count,
{
    if count <= 0 {
        false
    } else {
        odd_crossings(points, count - 1, y) != crosses(side(points, count - 1), y)
    }
}

/// Whether the cell `(x, y)` belongs to the filled polygon: the polygon has
/// three corners or more, and along the middle of the cell's row either an
/// odd number of sides is crossed before the middle of the cell is reached,
/// or a side is crossed in the middle of the cell. As the sides of a closed
/// outline cross every row an even number of times, the crossings of a row,
/// taken from the left, pair up, and these are the cells from the first to
/// the second of each pair, both included.
pub open spec fn in_polygon(points: Seq<(i32, i32)>, x: int, y: int) -> bool {
    &&& points.len() >= 3
    &&& odd_left(points, points.len() as int, x, y) || any_at(points, points.len() as int, x, y)
}

/// The cells of a filled polygon, each holding `cell`.
pub open spec fn polygon_layer(points: Seq<(i32, i32)>, cell: Cell) -> Layer {
    region_layer(|x: int, y: int| in_polygon(points, x, y), cell)
}

/// The cells of a filled polygon before `(col, row)` in the order of the
/// screen buffer.
spec fn polygon_part_layer(points: Seq<(i32, i32)>, col: int, row: int, cell: Cell) -> Layer {
    region_layer(
        |x: int, y: int| in_polygon(points, x, y) && (y < row || (y == row && x < col)),
        cell,
    )
}

/// Along the corners of an outline, the sides crossed so far are odd in
/// number exactly if the corner reached lies on the other side of the row
/// than the first.
proof fn lemma_crossings_along(points: Seq<(i32, i32)>, count: int, y: int)
    requires
        0 <= count < points.len(),
    ensures
        odd_crossings(points, count, y) == (beyond(points[0], y) != beyond(points[count], y)),
    decreases count,
{
    if count > 0 {
        lemma_crossings_along(points, count - 1, y);
        vstd::arithmetic::div_mod::lemma_small_mod(count as nat, points.len());
    }
}

/// The sides of a closed outline cross the middle of every row an even
/// number of times, so that no crossing is left without its pair.
pub proof fn lemma_crossings_even(points: Seq<(i32, i32)>, y: int)
    ensures
        !odd_crossings(points, points.len() as int, y),
{
    let n = points.len() as int;
    if n > 0 {
        lemma_crossings_along(points, n - 1, y);
        vstd::arithmetic::div_mod::lemma_mod_self_0(n);
        assert(side(points, n - 1) == (points[n - 1], points[0]));
    }
}

/// No side is crossed to the left of a column that lies left of all corners.
proof fn lemma_nothing_left(points: Seq<(i32, i32)>, count: int, x: int, y: int)
    requires
        0 <= count <= points.len(),
        forall|i: int| 0 <= i < points.len() ==> x * SUBCELLS <= (#[trigger] points[i]).0,
    ensures
        !odd_left(points, count, x, y),
    decreases count,
{
    if count > 0 {
        lemma_nothing_left(points, count - 1, x, y);
        let n = points.len() as int;
        let s = side(points, count - 1);
        vstd::arithmetic::div_mod::lemma_mod_bound(count, n);
        if crosses(s, y) {
            let a = upper_end(s);
            let b = lower_end(s);
            let dy = b.1 - a.1;
            let k = row_middle(y) - a.1;
            let left = x * SUBCELLS;
            assert(0 <= k < dy);
            assert(left <= a.0 && left <= b.0);
            assert(x * (SUBCELLS * dy) == left * dy) by (nonlinear_arith)
                requires
                    left == x * SUBCELLS,
            ;
            assert(a.0 * dy + k * (b.0 - a.0) >= left * dy) by (nonlinear_arith)
                requires
                    0 <= k < dy,
                    left <= a.0,
                    left <= b.0,
            ;
        }
    }
}

/// A polygon has no cell to the left of all its corners.
pub proof fn lemma_outside_left(points: Seq<(i32, i32)>, x: int, y: int)
    requires
        forall|i: int| 0 <= i < points.len() ==> x * SUBCELLS < (#[trigger] points[i]).0,
    ensures
        !in_polygon(points, x, y),
{
    lemma_nothing_left(points, points.len() as int, x, y);
    let n = points.len() as int;
    if any_at(points, n, x, y) {
        let i = choose|i: int| 0 <= i < n && #[trigger] crosses_at(side(points, i), x, y);
        let s = side(points, i);
        vstd::arithmetic::div_mod::lemma_mod_bound(i + 1, n);
        let a = upper_end(s);
        let b = lower_end(s);
        let dy = b.1 - a.1;
        let k = row_middle(y) - a.1;
        let left = x * SUBCELLS;
        assert(x * (SUBCELLS * dy) == left * dy) by (nonlinear_arith)
            requires
                left == x * SUBCELLS,
        ;
        assert(a.0 * dy + k * (b.0 - a.0) > left * dy) by (nonlinear_arith)
            requires
                0 <= k < dy,
                left < a.0,
                left < b.0,
        ;
    }
}

/// The place where a side crosses the middle of row `y`, in half columns:
/// twice the column if the crossing is exactly at the column, and one more
/// if it lies between that column and the next.
pub open spec fn place(s: ((i32, i32), (i32, i32)), y: int) -> int {
    let whole = crossing_num(s, y) / crossing_den(s);
    if crossing_num(s, y) % crossing_den(s) == 0 {
        2 * whole
    } else {
        2 * whole + 1
    }
}

/// `places` with `v` put in before the first place that is further right.
pub open spec fn put_in(places: Seq<int>, v: int) -> Seq<int>
    decreases places.len(),
{
    if places.len() == 0 || places.last() <= v {
        places.push(v)
    } else {
        put_in(places.drop_last(), v).push(places.last())
    }
}

/// The places where the first `count` sides of a polygon cross the middle
/// of row `y`, from the left to the right.
pub open spec fn places(points: Seq<(i32, i32)>, count: int, y: int) -> Seq<int>
    decreases count,
{
    if count <= 0 {
        Seq::empty()
    } else if crosses(side(points, count - 1), y) {
        put_in(places(points, count - 1, y), place(side(points, count - 1), y))
    } else {
        places(points, count - 1, y)
    }
}

/// Whether the middle of column `x` lies between the first and the second,
/// or the third and the fourth, and so on, of the given places, ends
/// included. A last place without a partner counts for nothing.
pub open spec fn in_pairs(places: Seq<int>, x: int) -> bool {
    exists|k: int| 0 <= k && 2 * k + 1 < places.len() && #[trigger] places[2 * k] <= 2 * x <= places[2 * k + 1]
}

/// Whether the places are in order from the left to the right.
pub open spec fn in_order(places: Seq<int>) -> bool {
    forall|i: int, j: int| 0 <= i <= j < places.len() ==> places[i] <= places[j]
}

/// Whether an odd number of the places lies left of `t`.
pub open spec fn odd_before(places: Seq<int>, t: int) -> bool
    decreases places.len(),
{
    if places.len() == 0 {
        false
    } else {
        odd_before(places.drop_last(), t) != (places.last() < t)
    }
}

/// A side that crosses a row is crossed left of a column, or in its middle,
/// as its place says.
proof fn lemma_place(s: ((i32, i32), (i32, i32)), x: int, y: int)
    requires
        crosses(s, y),
    ensures
        crosses_left(s, x, y) == (place(s, y) < 2 * x),
        crosses_at(s, x, y) == (place(s, y) == 2 * x),
{
    let n = crossing_num(s, y);
    let d = crossing_den(s);
    assert(d > 0);
    let q = n / d;
    let r = n % d;
    vstd::arithmetic::div_mod::lemma_fundamental_div_mod(n, d);
    vstd::arithmetic::div_mod::lemma_mod_bound(n, d);
    assert((n < x * d) == (q < x)) by (nonlinear_arith)
        requires
            n == d * q + r,
            0 <= r < d,
    ;
    assert((n == x * d) == (r == 0 && q == x)) by (nonlinear_arith)
        requires
            n == d * q + r,
            0 <= r < d,
    ;
}

/// Putting a place in keeps the order, adds one to the length, and changes
/// what lies left of a mark and what lies on it by the place alone.
#[verifier::rlimit(50)]
proof fn lemma_put_in(places: Seq<int>, v: int, t: int)
    requires
        in_order(places),
    ensures
        in_order(put_in(places, v)),
        put_in(places, v).len() == places.len() + 1,
        odd_before(put_in(places, v), t) == (odd_before(places, t) != (v < t)),
        put_in(places, v).contains(t) == (places.contains(t) || v == t),
        forall|i: int| 0 <= i < put_in(places, v).len() ==> #[trigger] put_in(places, v)[i] == v
            || places.contains(put_in(places, v)[i]),
    decreases places.len(),
{
    let after = put_in(places, v);
    if places.len() == 0 || places.last() <= v {
        assert(after.drop_last() =~= places);
        assert(after.last() == v);
        if places.contains(t) {
            let i = choose|i: int| 0 <= i < places.len() && places[i] == t;
            assert(after[i] == t);
        }
        if v == t {
            assert(after[places.len() as int] == t);
        }
        assert forall|i: int| 0 <= i < after.len() implies #[trigger] after[i] == v
            || places.contains(after[i]) by {
            if i < places.len() {
                assert(places[i] == after[i]);
            }
        }
    } else {
        let rest = places.drop_last();
        let last = places.last();
        assert(in_order(rest)) by {
            assert forall|i: int, j: int| 0 <= i <= j < rest.len() implies rest[i] <= rest[j] by {
                assert(places[i] <= places[j]);
            }
        }
        lemma_put_in(rest, v, t);
        let inner = put_in(rest, v);
        assert(after.drop_last() =~= inner);
        assert(after.last() == last);
        assert(in_order(after)) by {
            assert forall|i: int, j: int| 0 <= i <= j < after.len() implies after[i] <= after[j] by {
                if j < inner.len() {
                    assert(after[i] == inner[i] && after[j] == inner[j]);
                } else if i < inner.len() {
                    assert(after[i] == inner[i]);
                    if inner[i] != v {
                        assert(rest.contains(inner[i]));
                        let m = choose|m: int| 0 <= m < rest.len() && rest[m] == inner[i];
                        assert(places[m] <= places[places.len() - 1]);
                    }
                }
            }
        }
        if after.contains(t) {
            let i = choose|i: int| 0 <= i < after.len() && after[i] == t;
            if i < inner.len() {
                assert(inner[i] == t);
                assert(inner.contains(t));
                if rest.contains(t) {
                    let m = choose|m: int| 0 <= m < rest.len() && rest[m] == t;
                    assert(places[m] == t);
                }
            } else {
                assert(places[places.len() - 1] == t);
            }
        }
        if places.contains(t) {
            let i = choose|i: int| 0 <= i < places.len() && places[i] == t;
            if i < rest.len() {
                assert(rest[i] == t);
                assert(rest.contains(t));
                let m = choose|m: int| 0 <= m < inner.len() && inner[m] == t;
                assert(after[m] == t);
            } else {
                assert(after[after.len() - 1] == t);
            }
        }
        if v == t {
            assert(inner.contains(t));
            let m = choose|m: int| 0 <= m < inner.len() && inner[m] == t;
            assert(after[m] == t);
        }
        assert forall|i: int| 0 <= i < after.len() implies #[trigger] after[i] == v
            || places.contains(after[i]) by {
            if i < inner.len() {
                assert(after[i] == inner[i]);
                if inner[i] != v {
                    assert(rest.contains(inner[i]));
                    let m = choose|m: int| 0 <= m < rest.len() && rest[m] == inner[i];
                    assert(places[m] == inner[i]);
                }
            } else {
                assert(places[places.len() - 1] == after[i]);
            }
        }
    }
}

/// The places of a row are in order, as many as the sides that cross it,
/// and they tell what is crossed left of a column and in its middle.
proof fn lemma_places(points: Seq<(i32, i32)>, count: int, x: int, y: int)
    requires
        0 <= count,
    ensures
        in_order(places(points, count, y)),
        (places(points, count, y).len() % 2 == 1) == odd_crossings(points, count, y),
        odd_before(places(points, count, y), 2 * x) == odd_left(points, count, x, y),
        places(points, count, y).contains(2 * x) == any_at(points, count, x, y),
    decreases count,
{
    if count > 0 {
        lemma_places(points, count - 1, x, y);
        lemma_any_at_step(points, count - 1, x, y);
        let s = side(points, count - 1);
        if crosses(s, y) {
            lemma_place(s, x, y);
            lemma_put_in(places(points, count - 1, y), place(s, y), 2 * x);
        }
    } else {
        assert(!any_at(points, 0, x, y));
    }
}

/// Where an odd number of places lies left of a mark, in a row of places
/// that are in order: the places left of the mark are the first so many.
proof fn lemma_before_is_prefix(places: Seq<int>, t: int) -> (upto: int)
    requires
        in_order(places),
    ensures
        0 <= upto <= places.len(),
        forall|i: int| 0 <= i < places.len() ==> (#[trigger] places[i] < t) == (i < upto),
        odd_before(places, t) == (upto % 2 == 1),
    decreases places.len(),
{
    if places.len() == 0 {
        0
    } else {
        let rest = places.drop_last();
        assert(in_order(rest)) by {
            assert forall|i: int, j: int| 0 <= i <= j < rest.len() implies rest[i] <= rest[j] by {
                assert(places[i] <= places[j]);
            }
        }
        let inner = lemma_before_is_prefix(rest, t);
        let upto = if places.last() < t { places.len() as int } else { inner };
        assert forall|i: int| 0 <= i < places.len() implies (#[trigger] places[i] < t) == (i
            < upto) by {
            assert(places[i] <= places[places.len() - 1]);
            if i < rest.len() {
                assert(rest[i] == places[i]);
            }
        }
        if places.last() < t {
            assert(inner == rest.len()) by {
                if inner < rest.len() {
                    assert(rest[inner] == places[inner]);
                    assert(places[inner] <= places[places.len() - 1]);
                }
            }
        }
        upto
    }
}

/// In a row with an even number of places in order, a column lies in one
/// of the pairs exactly if an odd number of places lies left of its middle
/// or a place is its middle.
proof fn lemma_pairs(places: Seq<int>, x: int)
    requires
        in_order(places),
        places.len() % 2 == 0,
    ensures
        in_pairs(places, x) == (odd_before(places, 2 * x) || places.contains(2 * x)),
{
    let t = 2 * x;
    let upto = lemma_before_is_prefix(places, t);
    if in_pairs(places, x) {
        let k = choose|k: int| 0 <= k && 2 * k + 1 < places.len() && #[trigger] places[2 * k] <= t
            <= places[2 * k + 1];
        if places[2 * k] != t && places[2 * k + 1] != t {
            assert(places[2 * k] < t);
            assert(!(places[2 * k + 1] < t));
            assert(upto == 2 * k + 1);
        }
    }
    if places.contains(t) {
        let j = choose|j: int| 0 <= j < places.len() && places[j] == t;
        let k = j / 2;
        assert(2 * k + 1 < places.len());
        assert(places[2 * k] <= places[j]);
        assert(places[j] <= places[2 * k + 1]);
        assert(places[2 * k] <= t <= places[2 * k + 1]);
    }
    if odd_before(places, t) {
        let k = (upto - 1) / 2;
        assert(upto == 2 * k + 1);
        assert(places[2 * k] < t);
        assert(2 * k + 1 < places.len());
        assert(!(places[2 * k + 1] < t));
        assert(places[2 * k] <= t <= places[2 * k + 1]);
    }
}

/// The filled polygon, row by row: with the places where the sides cross
/// the middle of a row taken from the left, the cells of the row that are
/// filled are those from the first place to the second, from the third to
/// the fourth, and so on, ends included. The places of a row are even in
/// number, so that none is left without a partner.
pub proof fn lemma_fill_is_pairs(points: Seq<(i32, i32)>, x: int, y: int)
    ensures
        places(points, points.len() as int, y).len() % 2 == 0,
        in_order(places(points, points.len() as int, y)),
        in_polygon(points, x, y) == (points.len() >= 3 && in_pairs(
            places(points, points.len() as int, y),
            x,
        )),
{
    let n = points.len() as int;
    lemma_places(points, n, x, y);
    lemma_crossings_even(points, y);
    lemma_pairs(places(points, n, y), x);
}

/// A row whose middle lies above all corners of a polygon, or below them
/// all, has no cell of the polygon.
proof fn lemma_row_outside(points: Seq<(i32, i32)>, x: int, y: int)
    requires
        (forall|i: int| 0 <= i < points.len() ==> beyond(#[trigger] points[i], y)) || (forall|i: int|
            0 <= i < points.len() ==> !beyond(#[trigger] points[i], y)),
    ensures
        !in_polygon(points, x, y),
{
    let n = points.len() as int;
    if n > 0 {
        assert forall|i: int| 0 <= i < n implies !crosses(#[trigger] side(points, i), y) by {
            vstd::arithmetic::div_mod::lemma_mod_bound(i + 1, n);
            assert(beyond(points[i], y) == beyond(points[(i + 1) % n], y));
        }
        lemma_nothing_crossed(points, n, x, y);
    }
}

/// Where none of the first sides crosses a row, none is crossed left of a
/// column of that row.
proof fn lemma_nothing_crossed(points: Seq<(i32, i32)>, count: int, x: int, y: int)
    requires
        0 <= count <= points.len(),
        forall|i: int| 0 <= i < points.len() ==> !crosses(#[trigger] side(points, i), y),
    ensures
        !odd_left(points, count, x, y),
        !any_at(points, count, x, y),
    decreases count,
{
    if count > 0 {
        lemma_nothing_crossed(points, count - 1, x, y);
        assert(!crosses(side(points, count - 1), y));
    }
    if any_at(points, count, x, y) {
        let i = choose|i: int| 0 <= i < count && #[trigger] crosses_at(side(points, i), x, y);
        assert(!crosses(side(points, i), y));
    }
}

/// The least and the greatest height that the corners of a polygon have.
fn rows_of(points: &Vec<(i32, i32)>) -> (rows: (i32, i32))
    requires
        points@.len() >= 1,
    ensures
        forall|i: int| 0 <= i < points@.len() ==> rows.0 <= (#[trigger] points@[i]).1 <= rows.1,
{
    let mut first: i32 = points[0].1;
    let mut last: i32 = points[0].1;
    let mut i: usize = 1;
    while i < points.len()
        invariant
            1 <= i <= points@.len(),
            forall|k: int| 0 <= k < i ==> first <= (#[trigger] points@[k]).1 <= last,
        decreases points@.len() - i,
    {
        let row = points[i].1;
        if row < first {
            first = row;
        }
        if row > last {
            last = row;
        }
        i += 1;
    }
    (first, last)
}

/// The flags of a row put together from its start: whether an odd number of
/// the flags up to place `upto`, that place included, is set.
spec fn odd_upto(flags: Seq<bool>, upto: int) -> bool
    decreases upto + 1,
{
    if upto < 0 {
        false
    } else {
        odd_upto(flags, upto - 1) != flags[upto]
    }
}

/// Turning one flag over turns over what is put together from its place on.
proof fn lemma_flag_turned(flags: Seq<bool>, at: int, upto: int)
    requires
        0 <= at < flags.len(),
        upto < flags.len(),
    ensures
        odd_upto(flags.update(at, !flags[at]), upto) == (odd_upto(flags, upto) != (at <= upto)),
    decreases upto + 1,
{
    if upto >= 0 {
        lemma_flag_turned(flags, at, upto - 1);
    }
}

/// `n` divided by `d`, rounded down, and what is left over.
fn floor_div_wide(n: i128, d: i128) -> (qr: (i128, i128))
    requires
        d > 0,
        -0x1_0000_0000_0000_0000_0000 <= n <= 0x1_0000_0000_0000_0000_0000,
    ensures
        n == qr.0 * d + qr.1,
        0 <= qr.1 < d,
{
    if n >= 0 {
        proof {
            vstd::arithmetic::div_mod::lemma_fundamental_div_mod(n as int, d as int);
            let q0 = n as int / d as int;
            assert(q0 * d == d * q0) by (nonlinear_arith);
        }
        (n / d, n % d)
    } else {
        let m: i128 = -n;
        proof {
            vstd::arithmetic::div_mod::lemma_fundamental_div_mod(m as int, d as int);
            vstd::arithmetic::div_mod::lemma_div_pos_is_pos(m as int, d as int);
            let q0 = m as int / d as int;
            let r0 = m as int % d as int;
            assert(q0 * d == d * q0) by (nonlinear_arith);
            assert(q0 <= m) by (nonlinear_arith)
                requires
                    m == q0 * d + r0,
                    0 <= r0,
                    d >= 1,
                    q0 >= 0,
            ;
        }
        let q: i128 = m / d;
        let r: i128 = m % d;
        if r == 0 {
            proof {
                assert((-q) * d == -(q * d)) by (nonlinear_arith);
            }
            (-q, 0)
        } else {
            proof {
                assert((-q - 1) * d == -(q * d) - d) by (nonlinear_arith);
            }
            (-q - 1, d - r)
        }
    }
}

/// Where a side crosses the middle of row `y`, if it does: the last column
/// that is not beyond the crossing, and whether the crossing is exactly at
/// that column.
fn crossing(from: (i32, i32), to: (i32, i32), y: i32) -> (res: Option<(i128, bool)>)
    requires
        0 <= y < 0x8000,
    ensures
        res is Some == crosses((from, to), y as int),
        res matches Some((column, exact)) ==> {
            &&& forall|x: int| #[trigger] crosses_left((from, to), x, y as int) == (x > column)
            &&& forall|x: int| #[trigger]
                crosses_at((from, to), x, y as int) == (exact && x == column)
        },
{
    let steps: i64 = SUBCELLS as i64;
    assert(steps == 256);
    let middle: i64 = (y as i64) * steps + steps / 2;
    if (from.1 as i64 > middle) == (to.1 as i64 > middle) {
        return None;
    }
    let (a, b) = if from.1 <= to.1 { (from, to) } else { (to, from) };
    let ghost s = (from, to);
    assert(a == upper_end(s) && b == lower_end(s));
    let dy: i128 = b.1 as i128 - a.1 as i128;
    let dx: i128 = b.0 as i128 - a.0 as i128;
    let k: i128 = middle as i128 - a.1 as i128;
    proof {
        assert(0 <= k < dy);
        assert(-0x1_0000_0000_0000_0000 <= (a.0 as int) * dy <= 0x1_0000_0000_0000_0000)
            by (nonlinear_arith)
            requires
                -0x8000_0000 <= a.0 <= 0x8000_0000,
                0 < dy <= 0x1_0000_0000,
        ;
        assert(-0x4_0000_0000_0000_0000 <= k * dx <= 0x4_0000_0000_0000_0000) by (nonlinear_arith)
            requires
                0 <= k <= 0x4_0000_0000,
                -0x1_0000_0000 <= dx <= 0x1_0000_0000,
        ;
    }
    let num: i128 = (a.0 as i128) * dy + k * dx;
    let den: i128 = 256 * dy;
    let (q, r) = floor_div_wide(num, den);
    proof {
        assert(num == crossing_num(s, y as int));
        assert(den == crossing_den(s));
        assert forall|x: int| #[trigger] crosses_left(s, x, y as int) == (x > q) by {
            assert((num < x * den) == (x > q)) by (nonlinear_arith)
                requires
                    num == q * den + r,
                    0 <= r < den,
            ;
        }
        assert forall|x: int| #[trigger] crosses_at(s, x, y as int) == (r == 0 && x == q) by {
            assert((num == x * den) == (r == 0 && x == q)) by (nonlinear_arith)
                requires
                    num == q * den + r,
                    0 <= r < den,
            ;
        }
    }
    Some((q, r == 0))
}

/// Notes where the sides of a polygon cross the middle of row `y` of a
/// screen that is `width` columns wide: for every column, whether an odd
/// number of sides is crossed left of it, as the flags of `turns` put
/// together up to the column, and in `marks` whether a side is crossed
/// exactly at it.
#[verifier::rlimit(50)]
fn note_crossings(
    points: &Vec<(i32, i32)>,
    y: i32,
    width: usize,
    turns: &mut Vec<bool>,
    marks: &mut Vec<bool>,
)
    requires
        0 <= y < 0x8000,
        width < 0x8000,
        points@.len() >= 1,
        old(turns)@.len() == width + 1,
        old(marks)@.len() == width,
    ensures
        final(turns)@.len() == width + 1,
        final(marks)@.len() == width,
        forall|x: int|
            0 <= x < width ==> #[trigger] odd_upto(final(turns)@, x) == odd_left(
                points@,
                points@.len() as int,
                x,
                y as int,
            ),
        forall|x: int|
            0 <= x < width ==> #[trigger] final(marks)@[x] == any_at(
                points@,
                points@.len() as int,
                x,
                y as int,
            ),
{
    let mut t: usize = 0;
    while t < width
        invariant
            t <= width,
            turns@.len() == width + 1,
            marks@.len() == width,
            forall|k: int| 0 <= k < t ==> !turns@[k] && !marks@[k],
        decreases width - t,
    {
        turns.set(t, false);
        marks.set(t, false);
        t += 1;
    }
    turns.set(width, false);
    proof {
        assert forall|x: int| 0 <= x < width implies !(#[trigger] odd_upto(turns@, x)) by {
            lemma_no_flag(turns@, x);
        }
    }
    let verts: usize = points.len();
    let mut i: usize = 0;
    while i < verts
        invariant
            i <= verts,
            verts == points@.len(),
            0 <= y < 0x8000,
            width < 0x8000,
            turns@.len() == width + 1,
            marks@.len() == width,
            forall|x: int|
                0 <= x < width ==> #[trigger] odd_upto(turns@, x) == odd_left(
                    points@,
                    i as int,
                    x,
                    y as int,
                ),
            forall|x: int|
                0 <= x < width ==> #[trigger] marks@[x] == any_at(points@, i as int, x, y as int),
        decreases verts - i,
    {
        let j: usize = if i + 1 == verts { 0 } else { i + 1 };
        let ghost s = side(points@, i as int);
        let ghost before_turns = turns@;
        let ghost before_marks = marks@;
        proof {
            if i + 1 == verts {
                vstd::arithmetic::div_mod::lemma_mod_self_0(verts as int);
            } else {
                vstd::arithmetic::div_mod::lemma_small_mod((i + 1) as nat, verts as nat);
            }
            assert(s == (points@[i as int], points@[j as int]));
        }
        match crossing(points[i], points[j], y) {
            Some((column, exact)) => {
                let first: usize = if column < 0 {
                    0
                } else if column >= width as i128 - 1 {
                    width
                } else {
                    (column + 1) as usize
                };
                let turned: bool = !turns[first];
                turns.set(first, turned);
                if exact && 0 <= column && column < width as i128 {
                    marks.set(column as usize, true);
                }
                proof {
                    assert forall|x: int| 0 <= x < width implies #[trigger] odd_upto(turns@, x)
                        == odd_left(points@, i + 1, x, y as int) by {
                        lemma_flag_turned(before_turns, first as int, x);
                        assert(crosses_left(s, x, y as int) == (x > column));
                        assert(odd_upto(before_turns, x) == odd_left(points@, i as int, x, y as int));
                    }
                    assert forall|x: int| 0 <= x < width implies #[trigger] marks@[x] == any_at(
                        points@,
                        i + 1,
                        x,
                        y as int,
                    ) by {
                        assert(crosses_at(s, x, y as int) == (exact && x == column));
                        assert(before_marks[x] == any_at(points@, i as int, x, y as int));
                        lemma_any_at_step(points@, i as int, x, y as int);
                    }
                }
            },
            None => {
                proof {
                    assert forall|x: int| 0 <= x < width implies #[trigger] marks@[x] == any_at(
                        points@,
                        i + 1,
                        x,
                        y as int,
                    ) by {
                        assert(before_marks[x] == any_at(points@, i as int, x, y as int));
                        lemma_any_at_step(points@, i as int, x, y as int);
                    }
                    assert forall|x: int| 0 <= x < width implies #[trigger] odd_upto(turns@, x)
                        == odd_left(points@, i + 1, x, y as int) by {
                        assert(odd_upto(before_turns, x) == odd_left(points@, i as int, x, y as int));
                    }
                }
            },
        }
        i += 1;
    }
}

/// Flags of which none is set put together to nothing.
proof fn lemma_no_flag(flags: Seq<bool>, upto: int)
    requires
        upto < flags.len(),
        forall|k: int| 0 <= k <= upto ==> !flags[k],
    ensures
        !odd_upto(flags, upto),
    decreases upto + 1,
{
    if upto >= 0 {
        lemma_no_flag(flags, upto - 1);
    }
}

/// A side is crossed in the middle of a column among the first sides and
/// one more exactly if it is among the first or it is that one more.
proof fn lemma_any_at_step(points: Seq<(i32, i32)>, count: int, x: int, y: int)
    requires
        0 <= count,
    ensures
        any_at(points, count + 1, x, y) == (any_at(points, count, x, y) || crosses_at(
            side(points, count),
            x,
            y,
        )),
{
    if any_at(points, count, x, y) {
        let i = choose|i: int| 0 <= i < count && #[trigger] crosses_at(side(points, i), x, y);
        assert(0 <= i < count + 1 && crosses_at(side(points, i), x, y));
    }
    if crosses_at(side(points, count), x, y) {
        assert(0 <= count < count + 1 && crosses_at(side(points, count), x, y));
    }
    if any_at(points, count + 1, x, y) {
        let i = choose|i: int| 0 <= i < count + 1 && #[trigger] crosses_at(side(points, i), x, y);
        if i < count {
            assert(0 <= i < count && crosses_at(side(points, i), x, y));
        }
    }
}

impl ConsoleGameEngine {
    /// Fills a closed polygon by the even-odd rule. The corners are given on
    /// the screen in steps of a cell, of which `SUBCELLS` make one; with
    /// fewer than three corners nothing is drawn.
    #[verifier::rlimit(50)]
    pub fn draw_filled_model(&mut self, points: &Vec<(i32, i32)>, col: u16, c: u16)
        requires
            old(self)@.wf(),
        ensures
            final(self)@.wf(),
            drawn(old(self)@, final(self)@, polygon_layer(points@, (Cell { glyph: c, color: col }))),
    {
        let cell = Cell { glyph: c, color: col };
        let ghost start = self@;
        let ghost whole = polygon_layer(points@, cell);
        proof {
            lemma_overlaid_nothing(start.screen);
        }
        if points.len() < 3 {
            proof {
                assert forall|px: int, py: int| start.screen.contains(px, py) implies #[trigger] empty_layer()(
                    px,
                    py,
                ) == whole(px, py) by {}
                lemma_overlaid_same(start.screen, self@.screen, empty_layer(), whole);
            }
            return ;
        }
        let width: usize = self.screen_width() as usize;
        let height: i32 = self.screen_height();
        let mut turns: Vec<bool> = Vec::new();
        let mut marks: Vec<bool> = Vec::new();
        let mut t: usize = 0;
        while t < width
            invariant
                t <= width,
                turns@.len() == t,
                marks@.len() == t,
            decreases width - t,
        {
            turns.push(false);
            marks.push(false);
            t += 1;
        }
        turns.push(false);
        let (top, bottom) = rows_of(points);
        let first: i64 = if top > 128 { (top as i64 - 128) / 256 } else { 0 };
        let after: i64 = if bottom > 128 { (bottom as i64 + 127) / 256 } else { 0 };
        let mut y: i32 = if first < height as i64 { first as i32 } else { height };
        let end: i32 = if after < height as i64 { after as i32 } else { height };
        proof {
            let none = polygon_part_layer(points@, 0, y as int, cell);
            assert forall|px: int, py: int| start.screen.contains(px, py) implies #[trigger] empty_layer()(
                px,
                py,
            ) == none(px, py) by {
                if py < y {
                    lemma_row_outside(points@, px, py);
                }
            }
            lemma_overlaid_same(start.screen, self@.screen, empty_layer(), none);
        }
        while y < end
            invariant
                start.wf(),
                self@.wf(),
                points@.len() >= 3,
                cell == (Cell { glyph: c, color: col }),
                width == start.screen.width,
                height == start.screen.height,
                width < 0x8000,
                0 <= y <= height,
                end <= height < 0x8000,
                end == height || bottom <= row_middle(end as int),
                forall|i: int| 0 <= i < points@.len() ==> (#[trigger] points@[i]).1 <= bottom,
                turns@.len() == width + 1,
                marks@.len() == width,
                drawn(start, self@, polygon_part_layer(points@, 0, y as int, cell)),
            decreases end - y,
        {
            note_crossings(points, y, width, &mut turns, &mut marks);
            let mut inside: bool = false;
            let mut x: usize = 0;
            while x < width
                invariant
                    start.wf(),
                    self@.wf(),
                    points@.len() >= 3,
                    width == start.screen.width,
                    height == start.screen.height,
                    width < 0x8000,
                    0 <= y < end <= height < 0x8000,
                    x <= width,
                    turns@.len() == width + 1,
                    marks@.len() == width,
                    inside == odd_upto(turns@, x - 1),
                    forall|k: int|
                        0 <= k < width ==> #[trigger] odd_upto(turns@, k) == odd_left(
                            points@,
                            points@.len() as int,
                            k,
                            y as int,
                        ),
                    forall|k: int|
                        0 <= k < width ==> #[trigger] marks@[k] == any_at(
                            points@,
                            points@.len() as int,
                            k,
                            y as int,
                        ),
                    drawn(start, self@, polygon_part_layer(points@, x as int, y as int, cell)),
                decreases width - x,
            {
                let ghost before = self@;
                let ghost done = polygon_part_layer(points@, x as int, y as int, cell);
                let ghost more = polygon_part_layer(points@, x + 1, y as int, cell);
                inside = inside != turns[x];
                assert(inside == odd_upto(turns@, x as int));
                assert((inside || marks@[x as int]) == in_polygon(points@, x as int, y as int));
                if inside || marks[x] {
                    self.plot(x as i64, y as i64, cell);
                    proof {
                        let point = point_layer(x as int, y as int, cell);
                        lemma_overlaid_twice(start.screen, before.screen, self@.screen, done, point);
                        assert forall|px: int, py: int| start.screen.contains(px, py) implies #[trigger] stacked(
                            done,
                            point,
                        )(px, py) == more(px, py) by {}
                        lemma_overlaid_same(start.screen, self@.screen, stacked(done, point), more);
                    }
                } else {
                    proof {
                        assert forall|px: int, py: int| start.screen.contains(px, py) implies #[trigger] done(
                            px,
                            py,
                        ) == more(px, py) by {}
                        lemma_overlaid_same(start.screen, self@.screen, done, more);
                    }
                }
                x += 1;
            }
            proof {
                let done = polygon_part_layer(points@, x as int, y as int, cell);
                let next = polygon_part_layer(points@, 0, y + 1, cell);
                assert forall|px: int, py: int| start.screen.contains(px, py) implies #[trigger] done(
                    px,
                    py,
                ) == next(px, py) by {}
                lemma_overlaid_same(start.screen, self@.screen, done, next);
            }
            y += 1;
        }
        proof {
            let done = polygon_part_layer(points@, 0, y as int, cell);
            assert forall|px: int, py: int| start.screen.contains(px, py) implies #[trigger] done(
                px,
                py,
            ) == whole(px, py) by {
                if py >= y {
                    lemma_row_outside(points@, px, py);
                }
            }
            lemma_overlaid_same(start.screen, self@.screen, done, whole);
        }
    }
}

} // verus!
