//! Rectangles on the integer grid: overlap, the skyline queries, and where a
//! new rectangle lands next to the ones already placed.

use vstd::prelude::*;

verus! {

/// An item to pack: `(width, height)`.
pub type Item = (usize, usize);

/// A placed rectangle: `(x1, y1, x2, y2)`, covering `[x1, x2) x [y1, y2)`.
pub type Rect = (usize, usize, usize, usize);

/// How an item was placed: `(rotation, direction, predecessor)`.
///
/// Rotation `0` keeps the item as given, any other value swaps its sides.
/// Direction `'U'` anchors the left edge and slides the item towards larger
/// `y`; any other direction (written `'L'`) anchors the top edge and slides it
/// towards larger `x`. The predecessor is the index of the rectangle whose far
/// edge is the anchor, or `-1` for the origin.
pub type Decision = (usize, char, isize);

/// A rectangle before it is known to fit the machine integers.
pub type Spot = (int, int, int, int);

/// The two axis intervals of `a` and `b` both intersect.
pub open spec fn overlaps(a: Rect, b: Rect) -> bool {
    a.0 < b.2 && b.0 < a.2 && a.1 < b.3 && b.1 < a.3
}

/// `k` reaches into the horizontal band `[y1, y2)`.
pub open spec fn in_band(k: Rect, y1: int, y2: int) -> bool {
    y1 < k.3 && k.1 < y2
}

/// `k` reaches into the vertical strip `[x1, x2)`.
pub open spec fn in_strip(k: Rect, x1: int, x2: int) -> bool {
    x1 < k.2 && k.0 < x2
}

/// The largest right edge among the rectangles that reach into the band
/// `[y1, y2)`; `0` when none does.
pub open spec fn reach_x(placed: Seq<Rect>, y1: int, y2: int) -> int
    decreases placed.len(),
{
    if placed.len() == 0 {
        0
    } else {
        let rest = reach_x(placed.drop_last(), y1, y2);
        let k = placed.last();
        if in_band(k, y1, y2) && rest < k.2 {
            k.2 as int
        } else {
            rest
        }
    }
}

/// The largest bottom edge among the rectangles that reach into the strip
/// `[x1, x2)`; `0` when none does.
pub open spec fn reach_y(placed: Seq<Rect>, x1: int, x2: int) -> int
    decreases placed.len(),
{
    if placed.len() == 0 {
        0
    } else {
        let rest = reach_y(placed.drop_last(), x1, x2);
        let k = placed.last();
        if in_strip(k, x1, x2) && rest < k.3 {
            k.3 as int
        } else {
            rest
        }
    }
}

/// The largest right edge of all rectangles; `0` when there is none.
pub open spec fn right_edge(placed: Seq<Rect>) -> int
    decreases placed.len(),
{
    if placed.len() == 0 {
        0
    } else {
        let rest = right_edge(placed.drop_last());
        if rest < placed.last().2 {
            placed.last().2 as int
        } else {
            rest
        }
    }
}

/// The largest bottom edge of all rectangles; `0` when there is none.
pub open spec fn bottom_edge(placed: Seq<Rect>) -> int
    decreases placed.len(),
{
    if placed.len() == 0 {
        0
    } else {
        let rest = bottom_edge(placed.drop_last());
        if rest < placed.last().3 {
            placed.last().3 as int
        } else {
            rest
        }
    }
}

/// The sides of `wh` along x and y under rotation `r`.
pub open spec fn sides(wh: Item, r: usize) -> (int, int) {
    if r == 0 {
        (wh.0 as int, wh.1 as int)
    } else {
        (wh.1 as int, wh.0 as int)
    }
}

/// The far edge of predecessor `b` along the anchored axis: its right edge
/// for direction `'U'`, its bottom edge otherwise, and `0` for the origin.
pub open spec fn anchor_edge(placed: Seq<Rect>, d: char, b: isize) -> int {
    if b == -1 {
        0
    } else if d == 'U' {
        placed[b as int].2 as int
    } else {
        placed[b as int].3 as int
    }
}

/// Where `wh` lands under decision `(r, d, b)` next to `placed`.
///
/// One coordinate is anchored to the predecessor's far edge; along the other
/// axis the item starts where the last rectangle that shares its anchored
/// span ends.
pub open spec fn put_at(placed: Seq<Rect>, wh: Item, r: usize, d: char, b: isize) -> Spot {
    let (dx, dy) = sides(wh, r);
    let a = anchor_edge(placed, d, b);
    if d == 'U' {
        let y1 = reach_y(placed, a, a + dx);
        (a, y1, a + dx, y1 + dy)
    } else {
        let x1 = reach_x(placed, a, a + dy);
        (x1, a, x1 + dx, a + dy)
    }
}

/// The corners of `k` as unbounded integers.
pub open spec fn spot_of(k: Rect) -> Spot {
    (k.0 as int, k.1 as int, k.2 as int, k.3 as int)
}

/// The sum of width and height over all items.
pub open spec fn span(items: Seq<Item>) -> int
    decreases items.len(),
{
    if items.len() == 0 {
        0
    } else {
        span(items.drop_last()) + items.last().0 + items.last().1
    }
}

/// The sum of width times height over all items.
pub open spec fn area(items: Seq<Item>) -> int
    decreases items.len(),
{
    if items.len() == 0 {
        0
    } else {
        area(items.drop_last()) + items.last().0 * items.last().1
    }
}

/// `reach_x` is the maximum it is named for: a bound on every rectangle in
/// the band, attained by one of them unless it is `0`, and never beyond the
/// right edge of the whole.
pub proof fn lemma_reach_x(placed: Seq<Rect>, y1: int, y2: int)
    ensures
        0 <= reach_x(placed, y1, y2) <= right_edge(placed),
        forall|k: int|
            0 <= k < placed.len() && in_band(#[trigger] placed[k], y1, y2) ==> placed[k].2
                <= reach_x(placed, y1, y2),
        reach_x(placed, y1, y2) == 0 || exists|k: int|
            0 <= k < placed.len() && in_band(#[trigger] placed[k], y1, y2) && placed[k].2
                == reach_x(placed, y1, y2),
    decreases placed.len(),
{
    if placed.len() > 0 {
        let front = placed.drop_last();
        lemma_reach_x(front, y1, y2);
        assert forall|k: int|
            0 <= k < placed.len() && in_band(#[trigger] placed[k], y1, y2) implies placed[k].2
            <= reach_x(placed, y1, y2) by {
            if k < front.len() {
                assert(front[k] == placed[k]);
            }
        }
        if reach_x(placed, y1, y2) != 0 {
            if in_band(placed.last(), y1, y2) && reach_x(front, y1, y2) < placed.last().2 {
                assert(in_band(placed[placed.len() - 1], y1, y2));
            } else {
                let k = choose|k: int|
                    0 <= k < front.len() && in_band(#[trigger] front[k], y1, y2) && front[k].2
                        == reach_x(front, y1, y2);
                assert(placed[k] == front[k]);
            }
        }
    }
}

/// `reach_y` is the maximum it is named for: a bound on every rectangle in
/// the strip, attained by one of them unless it is `0`, and never beyond the
/// bottom edge of the whole.
pub proof fn lemma_reach_y(placed: Seq<Rect>, x1: int, x2: int)
    ensures
        0 <= reach_y(placed, x1, x2) <= bottom_edge(placed),
        forall|k: int|
            0 <= k < placed.len() && in_strip(#[trigger] placed[k], x1, x2) ==> placed[k].3
                <= reach_y(placed, x1, x2),
        reach_y(placed, x1, x2) == 0 || exists|k: int|
            0 <= k < placed.len() && in_strip(#[trigger] placed[k], x1, x2) && placed[k].3
                == reach_y(placed, x1, x2),
    decreases placed.len(),
{
    if placed.len() > 0 {
        let front = placed.drop_last();
        lemma_reach_y(front, x1, x2);
        assert forall|k: int|
            0 <= k < placed.len() && in_strip(#[trigger] placed[k], x1, x2) implies placed[k].3
            <= reach_y(placed, x1, x2) by {
            if k < front.len() {
                assert(front[k] == placed[k]);
            }
        }
        if reach_y(placed, x1, x2) != 0 {
            if in_strip(placed.last(), x1, x2) && reach_y(front, x1, x2) < placed.last().3 {
                assert(in_strip(placed[placed.len() - 1], x1, x2));
            } else {
                let k = choose|k: int|
                    0 <= k < front.len() && in_strip(#[trigger] front[k], x1, x2) && front[k].3
                        == reach_y(front, x1, x2);
                assert(placed[k] == front[k]);
            }
        }
    }
}

/// No rectangle ends beyond the right and bottom edges of the whole.
pub proof fn lemma_edges(placed: Seq<Rect>)
    ensures
        0 <= right_edge(placed),
        0 <= bottom_edge(placed),
        forall|k: int| 0 <= k < placed.len() ==> (#[trigger] placed[k]).2 <= right_edge(placed),
        forall|k: int| 0 <= k < placed.len() ==> (#[trigger] placed[k]).3 <= bottom_edge(placed),
    decreases placed.len(),
{
    if placed.len() > 0 {
        let front = placed.drop_last();
        lemma_edges(front);
        assert forall|k: int| 0 <= k < placed.len() implies (#[trigger] placed[k]).2 <= right_edge(
            placed,
        ) by {
            if k < front.len() {
                assert(front[k] == placed[k]);
            }
        }
        assert forall|k: int| 0 <= k < placed.len() implies (#[trigger] placed[k]).3
            <= bottom_edge(placed) by {
            if k < front.len() {
                assert(front[k] == placed[k]);
            }
        }
    }
}

/// Adding one item adds its two sides to the span and its product to the
/// area.
pub proof fn lemma_totals_push(items: Seq<Item>, wh: Item)
    ensures
        span(items.push(wh)) == span(items) + wh.0 + wh.1,
        area(items.push(wh)) == area(items) + wh.0 * wh.1,
{
    assert(items.push(wh).drop_last() =~= items);
}

/// Span and area are never negative.
pub proof fn lemma_totals_nonnegative(items: Seq<Item>)
    ensures
        0 <= span(items),
        0 <= area(items),
    decreases items.len(),
{
    if items.len() > 0 {
        lemma_totals_nonnegative(items.drop_last());
        assert(0 <= items.last().0 * items.last().1) by (nonlinear_arith);
    }
}

/// Span and area of a front part never exceed those of the whole, and one
/// more item adds exactly its share.
pub proof fn lemma_totals_take(items: Seq<Item>, k: int)
    requires
        0 <= k <= items.len(),
    ensures
        0 <= span(items.take(k)) <= span(items),
        0 <= area(items.take(k)) <= area(items),
        k < items.len() ==> span(items.take(k + 1)) == span(items.take(k)) + items[k].0
            + items[k].1,
        k < items.len() ==> area(items.take(k + 1)) == area(items.take(k)) + items[k].0
            * items[k].1,
    decreases items.len() - k,
{
    lemma_totals_nonnegative(items.take(k));
    if k == items.len() {
        assert(items.take(k) =~= items);
    } else {
        lemma_totals_take(items, k + 1);
        assert(items.take(k + 1).drop_last() =~= items.take(k));
        assert(0 <= items[k].0 * items[k].1) by (nonlinear_arith);
    }
}

/// Span and area of two sequences in a row are the sums of their spans and
/// areas.
pub proof fn lemma_totals_concat(front: Seq<Item>, back: Seq<Item>)
    ensures
        span(front + back) == span(front) + span(back),
        area(front + back) == area(front) + area(back),
    decreases back.len(),
{
    if back.len() == 0 {
        assert(front + back =~= front);
    } else {
        lemma_totals_concat(front, back.drop_last());
        assert((front + back).drop_last() =~= front + back.drop_last());
    }
}

/// Span and area of the items from `k` on are those of item `k` plus those
/// of the items behind it, and span and area of a front part and of the
/// rest add up to those of the whole.
pub proof fn lemma_totals_skip(items: Seq<Item>, k: int)
    requires
        0 <= k <= items.len(),
    ensures
        0 <= span(items.skip(k)),
        0 <= area(items.skip(k)),
        span(items.take(k)) + span(items.skip(k)) == span(items),
        area(items.take(k)) + area(items.skip(k)) == area(items),
        k < items.len() ==> span(items.skip(k)) == items[k].0 + items[k].1 + span(
            items.skip(k + 1),
        ),
        k < items.len() ==> area(items.skip(k)) == items[k].0 * items[k].1 + area(
            items.skip(k + 1),
        ),
{
    lemma_totals_nonnegative(items.skip(k));
    lemma_totals_concat(items.take(k), items.skip(k));
    assert(items.take(k) + items.skip(k) =~= items);
    if k < items.len() {
        let one = Seq::<Item>::empty().push(items[k]);
        lemma_totals_concat(one, items.skip(k + 1));
        assert(one + items.skip(k + 1) =~= items.skip(k));
        lemma_totals_push(Seq::<Item>::empty(), items[k]);
    }
}

} // verus!
