//! The placement surface: the rectangles placed so far, the decisions that
//! placed them, and the per-column aggregates that guide the next placement.

use crate::geometry::{
    anchor_edge, area, bottom_edge, in_band, in_strip, lemma_edges, lemma_reach_x, lemma_reach_y,
    lemma_totals_nonnegative, lemma_totals_push, lemma_totals_skip, overlaps, put_at, reach_x,
    reach_y, right_edge, sides, span, spot_of, Decision, Item, Rect, Spot,
};
use vstd::prelude::*;

verus! {

/// Aggregate of one column: `(max right edge, cumulative height, last item)`.
pub type Column = (usize, usize, usize);

/// One candidate packing.
///
/// `status[k]` is the rectangle of item `goods[k]`, placed by `order[k]`.
/// `col_info[c]` and `area_info[c]` describe column `c`; columns from
/// `start_col_i` on still accept items. `ref_h` is the column height beyond
/// which a column is retired.
#[derive(Debug, PartialEq, Eq)]
pub struct Box {
    pub goods: Vec<Item>,
    pub status: Vec<Rect>,
    pub max_x: usize,
    pub max_y: usize,
    pub col_info: Vec<Column>,
    pub area_info: Vec<usize>,
    pub order: Vec<Decision>,
    pub start_col_i: usize,
    pub ref_h: usize,
}

/// The mathematical content of a [`Box`].
#[verifier::ext_equal]
pub struct Surface {
    pub goods: Seq<Item>,
    pub status: Seq<Rect>,
    pub max_x: usize,
    pub max_y: usize,
    pub col_info: Seq<Column>,
    pub area_info: Seq<usize>,
    pub order: Seq<Decision>,
    pub start_col_i: usize,
    pub ref_h: usize,
}

impl View for Box {
    type V = Surface;

    open spec fn view(&self) -> Surface {
        Surface {
            goods: self.goods@,
            status: self.status@,
            max_x: self.max_x,
            max_y: self.max_y,
            col_info: self.col_info@,
            area_info: self.area_info@,
            order: self.order@,
            start_col_i: self.start_col_i,
            ref_h: self.ref_h,
        }
    }
}

impl Surface {
    /// The surface with nothing placed on it.
    pub open spec fn empty(ref_h: usize) -> Surface {
        Surface {
            goods: Seq::empty(),
            status: Seq::empty(),
            max_x: 0,
            max_y: 0,
            col_info: Seq::empty(),
            area_info: Seq::empty(),
            order: Seq::empty(),
            start_col_i: 0,
            ref_h,
        }
    }

    /// Width plus height of the bounding box.
    pub open spec fn score(self) -> int {
        self.max_x + self.max_y
    }

    /// The predecessor that column `col_i` stands for: its last item, or
    /// `-1` for the column that does not exist yet.
    pub open spec fn anchor(self, col_i: usize) -> isize {
        if col_i == self.col_info.len() {
            -1isize
        } else {
            self.col_info[col_i as int].2 as isize
        }
    }

    /// The sequences go together: there is one rectangle and one decision
    /// for each item and one area for each column; there are no more
    /// columns than items; the first column that accepts items is a column
    /// or the next new one; every column's last item and every predecessor
    /// is an item placed before.
    #[verifier::opaque]
    pub open spec fn shaped(self) -> bool {
        &&& self.status.len() == self.goods.len()
        &&& self.order.len() == self.goods.len()
        &&& self.goods.len() <= isize::MAX
        &&& self.area_info.len() == self.col_info.len()
        &&& self.col_info.len() <= self.goods.len()
        &&& self.start_col_i <= self.col_info.len()
        &&& forall|c: int|
            0 <= c < self.col_info.len() ==> (#[trigger] self.col_info[c]).2 < self.goods.len()
        &&& forall|k: int|
            0 <= k < self.order.len() ==> -1 <= (#[trigger] self.order[k]).2 < k
    }

    /// The geometry is what the decisions say: every rectangle lies where
    /// its decision puts it next to the rectangles before it, no two
    /// rectangles overlap, and the bounding box ends at the largest right
    /// and bottom edges.
    #[verifier::opaque]
    pub open spec fn laid_out(self) -> bool {
        &&& forall|k: int|
            0 <= k < self.status.len() ==> spot_of(#[trigger] self.status[k]) == put_at(
                self.status.take(k),
                self.goods[k],
                self.order[k].0,
                self.order[k].1,
                self.order[k].2,
            )
        &&& forall|i: int, j: int|
            0 <= i < j < self.status.len() ==> !overlaps(
                #[trigger] self.status[i],
                #[trigger] self.status[j],
            )
        &&& self.max_x == right_edge(self.status)
        &&& self.max_y == bottom_edge(self.status)
    }

    /// The aggregates stay within the items: the bounding box and the
    /// columns' heights within the sum of all sides, the columns' areas
    /// within the sum of all areas.
    #[verifier::opaque]
    pub open spec fn within(self) -> bool {
        &&& self.max_x + self.max_y <= span(self.goods)
        &&& forall|c: int|
            0 <= c < self.col_info.len() ==> (#[trigger] self.col_info[c]).1 <= span(self.goods)
        &&& forall|c: int|
            0 <= c < self.area_info.len() ==> #[trigger] self.area_info[c] <= area(self.goods)
    }

    /// What holds of every surface that placements have built.
    pub open spec fn wf(self) -> bool {
        self.shaped() && self.laid_out() && self.within()
    }

    /// The aggregate of column `col_i` before a placement into it; a column
    /// that does not exist yet starts from nothing.
    pub open spec fn column(self, col_i: usize) -> (int, int, int) {
        if col_i < self.col_info.len() {
            (
                self.col_info[col_i as int].0 as int,
                self.col_info[col_i as int].1 as int,
                self.area_info[col_i as int] as int,
            )
        } else {
            (0, 0, 0)
        }
    }

    /// The right edge of the column to the left of `col_i`; `0` for the
    /// first column.
    pub open spec fn left_neighbour(self, col_i: usize) -> int {
        if 0 < col_i <= self.col_info.len() {
            self.col_info[col_i - 1].0 as int
        } else {
            0
        }
    }

    /// Whether a rectangle with right edge `x2` counts towards column
    /// `col_i`: it does unless it ends left of the neighbouring column.
    pub open spec fn counts(self, col_i: usize, x2: int) -> bool {
        self.left_neighbour(col_i) <= x2
    }

    /// Whether `wh` can be placed into column `col_i` within the machine
    /// integers: the column exists or is the next new one, and the corners,
    /// the column's height and its area all fit.
    pub open spec fn accepts(self, wh: Item, r: usize, d: char, col_i: usize) -> bool {
        let p = put_at(self.status, wh, r, d, self.anchor(col_i));
        let (_, sum_y, used) = self.column(col_i);
        &&& col_i <= self.col_info.len()
        &&& self.goods.len() < isize::MAX
        &&& p.2 <= usize::MAX
        &&& p.3 <= usize::MAX
        &&& self.counts(col_i, p.2) ==> sum_y + (p.3 - p.1) <= usize::MAX && used + wh.0
            * wh.1 <= usize::MAX
    }

    /// The surface after `wh` has been placed into column `col_i`.
    ///
    /// The item lands at `put_at` with the column's last item as predecessor.
    /// The bounding box grows to hold it. Unless the rectangle ends left of
    /// the neighbouring column, the column's width, height and area take it
    /// in and it becomes the column's last item. Once the column is higher
    /// than `ref_h`, new placements start behind it.
    pub open spec fn place(self, wh: Item, r: usize, d: char, col_i: usize) -> Surface {
        let i = self.goods.len();
        let b = self.anchor(col_i);
        let p = put_at(self.status, wh, r, d, b);
        let (max_w, sum_y, used) = self.column(col_i);
        let cols = if b == -1 {
            self.col_info.push((0, 0, i as usize))
        } else {
            self.col_info
        };
        let areas = if b == -1 {
            self.area_info.push(0)
        } else {
            self.area_info
        };
        let counted = self.counts(col_i, p.2);
        let height = if counted {
            sum_y + (p.3 - p.1)
        } else {
            sum_y
        };
        Surface {
            goods: self.goods.push(wh),
            status: self.status.push((p.0 as usize, p.1 as usize, p.2 as usize, p.3 as usize)),
            max_x: if self.max_x < p.2 {
                p.2 as usize
            } else {
                self.max_x
            },
            max_y: if self.max_y < p.3 {
                p.3 as usize
            } else {
                self.max_y
            },
            col_info: if counted {
                cols.update(
                    col_i as int,
                    (
                        (if max_w < p.2 {
                            p.2
                        } else {
                            max_w
                        }) as usize,
                        height as usize,
                        i as usize,
                    ),
                )
            } else {
                cols
            },
            area_info: if counted {
                areas.update(col_i as int, (used + wh.0 * wh.1) as usize)
            } else {
                areas
            },
            order: self.order.push((r, d, b)),
            start_col_i: if height > self.ref_h {
                (col_i + 1) as usize
            } else {
                self.start_col_i
            },
            ref_h: self.ref_h,
        }
    }

    /// Whether `items` can all be placed, wherever they go: with them on
    /// the surface, the lengths of all sides and all areas still add up
    /// within the machine integers.
    pub open spec fn room_for(self, items: Seq<Item>) -> bool {
        &&& span(self.goods) + span(items) <= usize::MAX
        &&& area(self.goods) + area(items) <= usize::MAX
        &&& self.goods.len() + items.len() <= isize::MAX
    }

    /// The column's footprint once a rectangle at `p` is on top of it: its
    /// height times the width by which it reaches past its left neighbour;
    /// `0` where it does not reach past it.
    pub open spec fn footprint(self, col_i: usize, p: Spot) -> int {
        let (max_w, sum_y, _) = self.column(col_i);
        let right = if max_w < p.2 {
            p.2
        } else {
            max_w
        };
        let width = right - self.left_neighbour(col_i);
        if width > 0 {
            (sum_y + (p.3 - p.1)) * width
        } else {
            0
        }
    }

    /// Whether both rotations of `wh` can be weighed for column `col_i`
    /// within the machine integers: the column exists or is the next new
    /// one, and for either rotation the corners and the column's height fit.
    pub open spec fn weighs(self, wh: Item, d: char, col_i: usize) -> bool {
        let b = self.anchor(col_i);
        let plain = put_at(self.status, wh, 0, d, b);
        let turned = put_at(self.status, wh, 1, d, b);
        let sum_y = self.column(col_i).1;
        &&& col_i <= self.col_info.len()
        &&& plain.2 <= usize::MAX && plain.3 <= usize::MAX
        &&& turned.2 <= usize::MAX && turned.3 <= usize::MAX
        &&& sum_y + wh.0 <= usize::MAX && sum_y + wh.1 <= usize::MAX
    }

    /// The rotation under which column `col_i` is packed more densely.
    ///
    /// The density of a rotation is the column's area with the item in it,
    /// divided by the column's footprint with the item on top. The two
    /// quotients are compared by cross-multiplication, so an empty footprint
    /// counts as denser than any other. Rotation `1` is chosen only where it
    /// is strictly denser.
    pub open spec fn best_rotation(self, wh: Item, d: char, col_i: usize) -> usize {
        let b = self.anchor(col_i);
        let filled = self.column(col_i).2 + wh.0 * wh.1;
        let plain = self.footprint(col_i, put_at(self.status, wh, 0, d, b));
        let turned = self.footprint(col_i, put_at(self.status, wh, 1, d, b));
        if filled * plain > filled * turned {
            1
        } else {
            0
        }
    }
}

/// A placement keeps the sequences of a surface together.
proof fn lemma_place_shaped(s: Surface, wh: Item, r: usize, d: char, col_i: usize)
    requires
        s.shaped(),
        col_i <= s.col_info.len(),
        s.goods.len() < isize::MAX,
    ensures
        s.place(wh, r, d, col_i).shaped(),
        -1 <= s.anchor(col_i) < s.goods.len(),
        s.anchor(col_i) == -1 <==> col_i == s.col_info.len(),
        s.place(wh, r, d, col_i).goods == s.goods.push(wh),
        s.place(wh, r, d, col_i).order == s.order.push((r, d, s.anchor(col_i))),
        s.place(wh, r, d, col_i).ref_h == s.ref_h,
        col_i >= s.start_col_i ==> s.place(wh, r, d, col_i).start_col_i >= s.start_col_i,
{
    reveal(Surface::shaped);
    let t = s.place(wh, r, d, col_i);
    let n = s.goods.len() as int;
    if col_i < s.col_info.len() {
        assert(s.col_info[col_i as int].2 < n);
    }
    assert forall|c: int| 0 <= c < t.col_info.len() implies (#[trigger] t.col_info[c]).2
        < t.goods.len() by {
        if c < s.col_info.len() && c != col_i {
            assert(t.col_info[c] == s.col_info[c]);
            assert(s.col_info[c].2 < n);
        }
    }
    assert forall|k: int| 0 <= k < t.order.len() implies -1 <= (#[trigger] t.order[k]).2 < k by {
        if k < n {
            assert(t.order[k] == s.order[k]);
        }
    }
}

/// A placement whose corners fit keeps the geometry of a surface as its
/// decisions say, and never shrinks the bounding box.
proof fn lemma_place_laid_out(s: Surface, wh: Item, r: usize, d: char, col_i: usize)
    requires
        s.shaped(),
        s.laid_out(),
        col_i <= s.col_info.len(),
        put_at(s.status, wh, r, d, s.anchor(col_i)).2 <= usize::MAX,
        put_at(s.status, wh, r, d, s.anchor(col_i)).3 <= usize::MAX,
    ensures
        s.place(wh, r, d, col_i).laid_out(),
        s.place(wh, r, d, col_i).max_x >= s.max_x,
        s.place(wh, r, d, col_i).max_y >= s.max_y,
        s.place(wh, r, d, col_i).status == s.status.push(s.place(wh, r, d, col_i).status.last()),
        spot_of(s.place(wh, r, d, col_i).status.last()) == put_at(
            s.status,
            wh,
            r,
            d,
            s.anchor(col_i),
        ),
{
    lemma_put_bounds(s, wh, r, d, col_i);
    reveal(Surface::shaped);
    reveal(Surface::laid_out);
    let t = s.place(wh, r, d, col_i);
    let n = s.goods.len() as int;
    let b = s.anchor(col_i);
    let p = put_at(s.status, wh, r, d, b);
    let (dx, dy) = sides(wh, r);
    let a = anchor_edge(s.status, d, b);
    lemma_reach_x(s.status, a, a + dy);
    lemma_reach_y(s.status, a, a + dx);
    assert(spot_of(t.status.last()) == p);
    assert(t.status.drop_last() =~= s.status);
    assert(t.status.take(n) =~= s.status);
    assert forall|k: int| 0 <= k < t.status.len() implies spot_of(#[trigger] t.status[k])
        == put_at(t.status.take(k), t.goods[k], t.order[k].0, t.order[k].1, t.order[k].2) by {
        if k < n {
            assert(t.status.take(k) =~= s.status.take(k));
            assert(t.status[k] == s.status[k]);
        }
    }
    assert forall|i: int, j: int| 0 <= i < j < t.status.len() implies !overlaps(
        #[trigger] t.status[i],
        #[trigger] t.status[j],
    ) by {
        if j < n {
            assert(!overlaps(s.status[i], s.status[j]));
        } else {
            let k = s.status[i];
            assert(t.status[i] == k);
            if d == 'U' {
                if in_strip(k, a, a + dx) {
                    assert(k.3 <= p.1);
                }
            } else {
                if in_band(k, a, a + dy) {
                    assert(k.2 <= p.0);
                }
            }
        }
    }
}

/// A placement that the surface accepts keeps its aggregates within the
/// items.
proof fn lemma_place_within(s: Surface, wh: Item, r: usize, d: char, col_i: usize)
    requires
        s.wf(),
        s.accepts(wh, r, d, col_i),
    ensures
        s.place(wh, r, d, col_i).within(),
        s.place(wh, r, d, col_i).score() <= s.score() + wh.0 + wh.1,
{
    lemma_put_bounds(s, wh, r, d, col_i);
    reveal(Surface::shaped);
    reveal(Surface::within);
    let t = s.place(wh, r, d, col_i);
    lemma_totals_push(s.goods, wh);
    lemma_totals_nonnegative(s.goods);
    assert(0 <= wh.0 * wh.1) by (nonlinear_arith);
    assert forall|c: int| 0 <= c < t.col_info.len() implies (#[trigger] t.col_info[c]).1 <= span(
        t.goods,
    ) by {
        if c < s.col_info.len() {
            assert(s.col_info[c].1 <= span(s.goods));
        }
    }
    assert forall|c: int| 0 <= c < t.area_info.len() implies #[trigger] t.area_info[c] <= area(
        t.goods,
    ) by {
        if c < s.area_info.len() {
            assert(s.area_info[c] <= area(s.goods));
        }
    }
}

/// A placement that the surface accepts leaves it well formed, never shrinks
/// the bounding box, and puts the new rectangle where its decision says. A
/// placement into a column that still accepts items never reopens a column.
pub proof fn lemma_place(s: Surface, wh: Item, r: usize, d: char, col_i: usize)
    requires
        s.wf(),
        s.accepts(wh, r, d, col_i),
    ensures
        s.place(wh, r, d, col_i).wf(),
        s.place(wh, r, d, col_i).max_x >= s.max_x,
        s.place(wh, r, d, col_i).max_y >= s.max_y,
        s.place(wh, r, d, col_i).score() <= s.score() + wh.0 + wh.1,
        s.place(wh, r, d, col_i).status == s.status.push(s.place(wh, r, d, col_i).status.last()),
        spot_of(s.place(wh, r, d, col_i).status.last()) == put_at(
            s.status,
            wh,
            r,
            d,
            s.anchor(col_i),
        ),
        -1 <= s.anchor(col_i) < s.goods.len(),
        s.anchor(col_i) == -1 <==> col_i == s.col_info.len(),
        s.place(wh, r, d, col_i).goods == s.goods.push(wh),
        s.place(wh, r, d, col_i).order == s.order.push((r, d, s.anchor(col_i))),
        s.place(wh, r, d, col_i).ref_h == s.ref_h,
        col_i >= s.start_col_i ==> s.place(wh, r, d, col_i).start_col_i >= s.start_col_i,
{
    assert(col_i <= s.col_info.len() && s.goods.len() < isize::MAX && put_at(
        s.status,
        wh,
        r,
        d,
        s.anchor(col_i),
    ).2 <= usize::MAX && put_at(s.status, wh, r, d, s.anchor(col_i)).3 <= usize::MAX) by {
    }
    lemma_place_shaped(s, wh, r, d, col_i);
    lemma_place_laid_out(s, wh, r, d, col_i);
    lemma_place_within(s, wh, r, d, col_i);
}

/// The evaluator chooses rotation `0` or rotation `1`.
pub proof fn lemma_best_rotation(s: Surface, wh: Item, d: char, col_i: usize)
    ensures
        s.best_rotation(wh, d, col_i) <= 1,
{
}

/// No two rectangles of a well-formed surface overlap.
pub proof fn lemma_no_overlap(s: Surface, i: int, j: int)
    requires
        s.wf(),
        0 <= i < s.status.len(),
        0 <= j < s.status.len(),
        i != j,
    ensures
        !overlaps(s.status[i], s.status[j]),
{
    reveal(Surface::laid_out);
    if i < j {
        assert(!overlaps(s.status[i], s.status[j]));
    } else {
        assert(!overlaps(s.status[j], s.status[i]));
    }
}

/// The items and the decisions determine the geometry: two well-formed
/// surfaces that hold the same items under the same decisions have the same
/// rectangles, the same bounding box and the same score.
pub proof fn lemma_replay(a: Surface, b: Surface)
    requires
        a.wf(),
        b.wf(),
        a.goods == b.goods,
        a.order == b.order,
    ensures
        a.status == b.status,
        a.max_x == b.max_x,
        a.max_y == b.max_y,
        a.score() == b.score(),
{
    reveal(Surface::shaped);
    reveal(Surface::laid_out);
    lemma_replay_front(a, b, a.status.len() as int);
    assert(a.status.take(a.status.len() as int) =~= a.status);
    assert(b.status.take(b.status.len() as int) =~= b.status);
}

/// Two well-formed surfaces that hold the same items under the same
/// decisions have the same first `k` rectangles.
proof fn lemma_replay_front(a: Surface, b: Surface, k: int)
    requires
        a.wf(),
        b.wf(),
        a.goods == b.goods,
        a.order == b.order,
        0 <= k <= a.status.len(),
    ensures
        a.status.take(k) == b.status.take(k),
    decreases k,
{
    reveal(Surface::shaped);
    reveal(Surface::laid_out);
    if k == 0 {
        assert(a.status.take(0) =~= b.status.take(0));
    } else {
        lemma_replay_front(a, b, k - 1);
        assert(spot_of(a.status[k - 1]) == spot_of(b.status[k - 1]));
        assert(a.status.take(k) =~= a.status.take(k - 1).push(a.status[k - 1]));
        assert(b.status.take(k) =~= b.status.take(k - 1).push(b.status[k - 1]));
    }
}

/// The score of a well-formed surface is what its rectangles say: the
/// largest right edge plus the largest bottom edge among them.
pub proof fn lemma_score(s: Surface)
    requires
        s.wf(),
    ensures
        s.score() == right_edge(s.status) + bottom_edge(s.status),
{
    reveal(Surface::laid_out);
}

/// The sequences of a well-formed surface go together: one rectangle and
/// one decision for each item, one area for each column, and the first
/// column that accepts items is a column or the next new one.
pub proof fn lemma_shape(s: Surface)
    requires
        s.wf(),
    ensures
        s.status.len() == s.goods.len(),
        s.order.len() == s.goods.len(),
        s.area_info.len() == s.col_info.len(),
        s.col_info.len() <= s.goods.len(),
        s.start_col_i <= s.col_info.len(),
        s.goods.len() <= isize::MAX,
        forall|c: int|
            0 <= c < s.col_info.len() ==> (#[trigger] s.col_info[c]).2 < s.goods.len(),
        forall|k: int| 0 <= k < s.order.len() ==> -1 <= (#[trigger] s.order[k]).2 < k,
        s.max_x == right_edge(s.status),
        s.max_y == bottom_edge(s.status),
{
    reveal(Surface::shaped);
    reveal(Surface::laid_out);
}

/// A new rectangle starts inside the bounding box and extends by its sides.
pub proof fn lemma_put_bounds(s: Surface, wh: Item, r: usize, d: char, col_i: usize)
    requires
        s.shaped(),
        s.laid_out(),
        col_i <= s.col_info.len(),
    ensures
        -1 <= s.anchor(col_i) < s.goods.len(),
        s.anchor(col_i) == -1 <==> col_i == s.col_info.len(),
        0 <= put_at(s.status, wh, r, d, s.anchor(col_i)).0 <= s.max_x,
        0 <= put_at(s.status, wh, r, d, s.anchor(col_i)).1 <= s.max_y,
        put_at(s.status, wh, r, d, s.anchor(col_i)).2 == put_at(
            s.status,
            wh,
            r,
            d,
            s.anchor(col_i),
        ).0 + sides(wh, r).0,
        put_at(s.status, wh, r, d, s.anchor(col_i)).3 == put_at(
            s.status,
            wh,
            r,
            d,
            s.anchor(col_i),
        ).1 + sides(wh, r).1,
        sides(wh, r).0 + sides(wh, r).1 == wh.0 + wh.1,
        sides(wh, r).0 * sides(wh, r).1 == wh.0 * wh.1,
{
    reveal(Surface::shaped);
    reveal(Surface::laid_out);
    let (dx, dy) = sides(wh, r);
    let a = anchor_edge(s.status, d, s.anchor(col_i));
    if col_i < s.col_info.len() {
        assert(s.col_info[col_i as int].2 < s.goods.len());
    }
    lemma_edges(s.status);
    lemma_reach_x(s.status, a, a + dy);
    lemma_reach_y(s.status, a, a + dx);
    assert(wh.0 * wh.1 == wh.1 * wh.0) by (nonlinear_arith);
}

/// A surface with room for the items from `k` on accepts item `k` in every
/// column, can weigh its rotations there, and then has room for the items
/// behind it.
pub proof fn lemma_room(s: Surface, items: Seq<Item>, k: int, r: usize, d: char, col_i: usize)
    requires
        s.wf(),
        0 <= k < items.len(),
        s.room_for(items.skip(k)),
        col_i <= s.col_info.len(),
    ensures
        s.accepts(items[k], r, d, col_i),
        s.weighs(items[k], d, col_i),
        s.place(items[k], r, d, col_i).room_for(items.skip(k + 1)),
        s.score() <= usize::MAX,
{
    reveal(Surface::shaped);
    reveal(Surface::within);
    let wh = items[k];
    lemma_totals_skip(items, k);
    lemma_totals_skip(items, k + 1);
    lemma_totals_push(s.goods, wh);
    lemma_totals_nonnegative(s.goods);
    lemma_place_shaped(s, wh, r, d, col_i);
    lemma_put_bounds(s, wh, r, d, col_i);
    lemma_put_bounds(s, wh, 0, d, col_i);
    lemma_put_bounds(s, wh, 1, d, col_i);
    assert(0 <= wh.0 * wh.1) by (nonlinear_arith);
    if col_i < s.col_info.len() {
        assert(s.col_info[col_i as int].1 <= span(s.goods));
        assert(s.area_info[col_i as int] <= area(s.goods));
    }
}

/// A surface with room for nothing more still has a score within the
/// machine integers.
pub proof fn lemma_room_score(s: Surface, items: Seq<Item>)
    requires
        s.wf(),
        s.room_for(items),
    ensures
        s.score() <= usize::MAX,
{
    reveal(Surface::within);
    lemma_totals_nonnegative(items);
}

impl Box {
    /// An empty surface with reference height `ref_h`.
    pub fn new(ref_h: usize) -> (surface: Box)
        ensures
            surface@ == Surface::empty(ref_h),
            surface@.wf(),
    {
        proof {
            reveal(Surface::shaped);
            reveal(Surface::laid_out);
            reveal(Surface::within);
        }
        let surface = Box {
            goods: Vec::new(),
            status: Vec::new(),
            max_x: 0,
            max_y: 0,
            col_info: Vec::new(),
            area_info: Vec::new(),
            order: Vec::new(),
            start_col_i: 0,
            ref_h,
        };
        assert(surface@ =~= Surface::empty(ref_h));
        surface
    }

    /// The largest right edge among the placed rectangles that reach into
    /// the band `[in_y1, in_y2)`; `0` when none does.
    pub fn max_x(&self, in_y1: usize, in_y2: usize) -> (edge: usize)
        ensures
            edge == reach_x(self.status@, in_y1 as int, in_y2 as int),
    {
        let mut edge: usize = 0;
        let mut k: usize = 0;
        while k < self.status.len()
            invariant
                k <= self.status@.len(),
                edge == reach_x(self.status@.take(k as int), in_y1 as int, in_y2 as int),
            decreases self.status@.len() - k,
        {
            let (_, y1, x2, y2) = self.status[k];
            assert(self.status@.take(k + 1).drop_last() =~= self.status@.take(k as int));
            if in_y1 < y2 && y1 < in_y2 && edge < x2 {
                edge = x2;
            }
            k += 1;
        }
        assert(self.status@.take(k as int) =~= self.status@);
        edge
    }

    /// The largest bottom edge among the placed rectangles that reach into
    /// the strip `[in_x1, in_x2)`; `0` when none does.
    pub fn max_y(&self, in_x1: usize, in_x2: usize) -> (edge: usize)
        ensures
            edge == reach_y(self.status@, in_x1 as int, in_x2 as int),
    {
        let mut edge: usize = 0;
        let mut k: usize = 0;
        while k < self.status.len()
            invariant
                k <= self.status@.len(),
                edge == reach_y(self.status@.take(k as int), in_x1 as int, in_x2 as int),
            decreases self.status@.len() - k,
        {
            let (x1, _, x2, y2) = self.status[k];
            assert(self.status@.take(k + 1).drop_last() =~= self.status@.take(k as int));
            if in_x1 < x2 && x1 < in_x2 && edge < y2 {
                edge = y2;
            }
            k += 1;
        }
        assert(self.status@.take(k as int) =~= self.status@);
        edge
    }

    /// Width plus height of the bounding box; on a well-formed surface the
    /// largest right edge plus the largest bottom edge of its rectangles.
    pub fn get_score(&self) -> (score: usize)
        requires
            self@.score() <= usize::MAX,
        ensures
            score == self@.score(),
            self@.wf() ==> score == right_edge(self.status@) + bottom_edge(self.status@),
    {
        proof {
            reveal(Surface::laid_out);
        }
        self.max_x + self.max_y
    }

    /// Where `wh` lands under decision `(r, d, b)`.
    pub fn put(&self, wh: Item, r: usize, d: char, b: isize) -> (rect: Rect)
        requires
            -1 <= b < self.status@.len(),
            put_at(self.status@, wh, r, d, b).2 <= usize::MAX,
            put_at(self.status@, wh, r, d, b).3 <= usize::MAX,
        ensures
            spot_of(rect) == put_at(self.status@, wh, r, d, b),
    {
        let (dx, dy) = if r == 0 {
            wh
        } else {
            (wh.1, wh.0)
        };
        if d == 'U' {
            let x1 = if b == -1 {
                0
            } else {
                self.status[b as usize].2
            };
            proof {
                lemma_reach_y(self.status@, x1 as int, x1 + dx);
            }
            let x2 = x1 + dx;
            let y1 = self.max_y(x1, x2);
            let y2 = y1 + dy;
            (x1, y1, x2, y2)
        } else {
            let y1 = if b == -1 {
                0
            } else {
                self.status[b as usize].3
            };
            proof {
                lemma_reach_x(self.status@, y1 as int, y1 + dy);
            }
            let y2 = y1 + dy;
            let x1 = self.max_x(y1, y2);
            let x2 = x1 + dx;
            (x1, y1, x2, y2)
        }
    }

    /// Where `wh` lands under decision `(r, d, b)`, or `None` where a corner
    /// of that rectangle lies beyond the machine integers.
    pub fn try_put(&self, wh: Item, r: usize, d: char, b: isize) -> (found: Option<Rect>)
        requires
            -1 <= b < self.status@.len(),
        ensures
            found is Some <==> put_at(self.status@, wh, r, d, b).2 <= usize::MAX && put_at(
                self.status@,
                wh,
                r,
                d,
                b,
            ).3 <= usize::MAX,
            found matches Some(rect) ==> spot_of(rect) == put_at(self.status@, wh, r, d, b),
    {
        let (dx, dy) = if r == 0 {
            wh
        } else {
            (wh.1, wh.0)
        };
        if d == 'U' {
            let x1 = if b == -1 {
                0
            } else {
                self.status[b as usize].2
            };
            proof {
                lemma_reach_y(self.status@, x1 as int, x1 + dx);
            }
            let x2 = match x1.checked_add(dx) {
                Some(x2) => x2,
                None => {
                    return None;
                },
            };
            let y1 = self.max_y(x1, x2);
            match y1.checked_add(dy) {
                Some(y2) => Some((x1, y1, x2, y2)),
                None => None,
            }
        } else {
            let y1 = if b == -1 {
                0
            } else {
                self.status[b as usize].3
            };
            proof {
                lemma_reach_x(self.status@, y1 as int, y1 + dy);
            }
            let y2 = match y1.checked_add(dy) {
                Some(y2) => y2,
                None => {
                    return None;
                },
            };
            let x1 = self.max_x(y1, y2);
            match x1.checked_add(dx) {
                Some(x2) => Some((x1, y1, x2, y2)),
                None => None,
            }
        }
    }

    /// Whether [`Box::add`] can place `wh` into column `col_i`.
    pub fn fits(&self, wh: Item, r: usize, d: char, col_i: usize) -> (ok: bool)
        requires
            self@.wf(),
        ensures
            ok == self@.accepts(wh, r, d, col_i),
    {
        proof {
            reveal(Surface::shaped);
        }
        if col_i > self.col_info.len() || self.goods.len() >= isize::MAX as usize {
            return false;
        }
        let fresh = col_i == self.col_info.len();
        if !fresh {
            assert(self@.col_info[col_i as int].2 < self@.goods.len());
        }
        let b: isize = if fresh {
            -1
        } else {
            self.col_info[col_i].2 as isize
        };
        let (x1, y1, x2, y2) = match self.try_put(wh, r, d, b) {
            Some(rect) => rect,
            None => {
                return false;
            },
        };
        let pre = if col_i > 0 {
            self.col_info[col_i - 1].0
        } else {
            0
        };
        if pre > x2 {
            return true;
        }
        let (sum_y, used) = if fresh {
            (0, 0)
        } else {
            (self.col_info[col_i].1, self.area_info[col_i])
        };
        if sum_y.checked_add(y2 - y1).is_none() {
            return false;
        }
        match wh.0.checked_mul(wh.1) {
            Some(more) => used.checked_add(more).is_some(),
            None => false,
        }
    }

    /// Places `wh` into column `col_i`, rotated by `r` and sliding along
    /// `d`, with the column's last item as predecessor; `col_i` one past the
    /// last column starts a new column at the origin.
    pub fn add(&mut self, wh: Item, r: usize, d: char, col_i: usize)
        requires
            old(self)@.wf(),
            old(self)@.accepts(wh, r, d, col_i),
        ensures
            final(self)@ == old(self)@.place(wh, r, d, col_i),
            final(self)@.wf(),
            final(self).max_x >= old(self).max_x,
            final(self).max_y >= old(self).max_y,
            col_i >= old(self).start_col_i ==> final(self).start_col_i >= old(self).start_col_i,
    {
        proof {
            reveal(Surface::shaped);
            lemma_place(old(self)@, wh, r, d, col_i);
        }
        let i = self.goods.len();
        let b: isize = if col_i == self.col_info.len() {
            -1
        } else {
            self.col_info[col_i].2 as isize
        };
        if b == -1 {
            self.col_info.push((0, 0, i));
            self.area_info.push(0);
        }
        self.goods.push(wh);
        self.order.push((r, d, b));
        let (x1, y1, x2, y2) = self.put(wh, r, d, b);
        self.status.push((x1, y1, x2, y2));
        if self.max_x < x2 {
            self.max_x = x2;
        }
        if self.max_y < y2 {
            self.max_y = y2;
        }
        let (mut max_w, mut sum_y, _) = self.col_info[col_i];
        let pre_max_x = if col_i > 0 {
            self.col_info[col_i - 1].0
        } else {
            0
        };
        if pre_max_x <= x2 {
            if max_w < x2 {
                max_w = x2;
            }
            sum_y = sum_y + (y2 - y1);
            self.col_info.set(col_i, (max_w, sum_y, i));
            let used = self.area_info[col_i];
            self.area_info.set(col_i, used + wh.0 * wh.1);
        }
        if sum_y > self.ref_h {
            self.start_col_i = col_i + 1;
        }
        assert(self@ =~= old(self)@.place(wh, r, d, col_i));
    }

    /// The rotation of `wh` that packs column `col_i` more densely, together
    /// with the direction `d` it was asked for.
    pub fn opt_instruction(&self, wh: Item, d: char, col_i: usize) -> (choice: (usize, char))
        requires
            self@.wf(),
            self@.weighs(wh, d, col_i),
        ensures
            choice == (self@.best_rotation(wh, d, col_i), d),
    {
        proof {
            reveal(Surface::shaped);
        }
        let fresh = col_i == self.col_info.len();
        if !fresh {
            assert(self@.col_info[col_i as int].2 < self@.goods.len());
        }
        let b: isize = if fresh {
            -1
        } else {
            self.col_info[col_i].2 as isize
        };
        let (max_w, sum_y, used) = if fresh {
            (0, 0, 0)
        } else {
            (self.col_info[col_i].0, self.col_info[col_i].1, self.area_info[col_i])
        };
        let pre = if col_i > 0 {
            self.col_info[col_i - 1].0
        } else {
            0
        };
        let plain = footprint_of(max_w, sum_y, pre, self.put(wh, 0, d, b));
        let turned = footprint_of(max_w, sum_y, pre, self.put(wh, 1, d, b));
        proof {
            let filled = used + wh.0 * wh.1;
            assert(0 <= wh.0 * wh.1) by (nonlinear_arith);
            assert(wh.0 * wh.1 > 0 <==> wh.0 > 0 && wh.1 > 0) by (nonlinear_arith);
            assert(filled * plain > filled * turned <==> filled > 0 && plain > turned)
                by (nonlinear_arith)
                requires
                    filled >= 0,
            ;
        }
        if (used > 0 || (wh.0 > 0 && wh.1 > 0)) && turned < plain {
            (1, d)
        } else {
            (0, d)
        }
    }

    /// The plan as it is submitted: for each placed item its index, its
    /// rotation, its direction and its predecessor.
    pub fn ans(&self) -> (lines: Vec<(usize, usize, char, isize)>)
        ensures
            lines@.len() == self.order@.len(),
            forall|k: int|
                0 <= k < lines@.len() ==> #[trigger] lines@[k] == (
                    k as usize,
                    self.order@[k].0,
                    self.order@[k].1,
                    self.order@[k].2,
                ),
    {
        let mut lines: Vec<(usize, usize, char, isize)> = Vec::new();
        let mut k: usize = 0;
        while k < self.order.len()
            invariant
                k <= self.order@.len(),
                lines@.len() == k,
                forall|j: int|
                    0 <= j < k ==> #[trigger] lines@[j] == (
                        j as usize,
                        self.order@[j].0,
                        self.order@[j].1,
                        self.order@[j].2,
                    ),
            decreases self.order@.len() - k,
        {
            let (r, d, b) = self.order[k];
            lines.push((k, r, d, b));
            k += 1;
        }
        lines
    }
}

impl Clone for Box {
    /// A surface with the same content that shares nothing with this one.
    fn clone(&self) -> (copy: Box)
        ensures
            copy@ == self@,
    {
        let copy = Box {
            goods: copy_of(&self.goods),
            status: copy_of(&self.status),
            max_x: self.max_x,
            max_y: self.max_y,
            col_info: copy_of(&self.col_info),
            area_info: copy_of(&self.area_info),
            order: copy_of(&self.order),
            start_col_i: self.start_col_i,
            ref_h: self.ref_h,
        };
        assert(copy@ =~= self@);
        copy
    }
}

/// A vector with the same elements.
pub fn copy_of<T: Copy>(v: &Vec<T>) -> (copy: Vec<T>)
    ensures
        copy@ == v@,
{
    let mut copy: Vec<T> = Vec::new();
    let mut k: usize = 0;
    while k < v.len()
        invariant
            k <= v@.len(),
            copy@ == v@.take(k as int),
        decreases v@.len() - k,
    {
        copy.push(v[k]);
        assert(v@.take(k + 1) =~= v@.take(k as int).push(v@[k as int]));
        k += 1;
    }
    assert(v@.take(k as int) =~= v@);
    copy
}

/// The footprint of a column with aggregate `(max_w, sum_y)` and left
/// neighbour `pre` once rectangle `p` is on top of it.
fn footprint_of(max_w: usize, sum_y: usize, pre: usize, p: Rect) -> (f: u128)
    requires
        p.1 <= p.3,
        sum_y + (p.3 - p.1) <= usize::MAX,
    ensures
        f == {
            let right = if max_w < p.2 {
                p.2
            } else {
                max_w
            };
            if right - pre > 0 {
                (sum_y + (p.3 - p.1)) * (right - pre)
            } else {
                0
            }
        },
{
    let right = if max_w < p.2 {
        p.2
    } else {
        max_w
    };
    if right <= pre {
        0
    } else {
        let height = sum_y + (p.3 - p.1);
        let width = right - pre;
        assert(height * width <= usize::MAX * usize::MAX) by (nonlinear_arith)
            requires
                0 <= height <= usize::MAX,
                0 <= width <= usize::MAX,
        ;
        assert(usize::MAX * usize::MAX <= u128::MAX) by (nonlinear_arith)
            requires
                usize::MAX <= 0xffff_ffff_ffff_ffff,
                u128::MAX == 0xffff_ffff_ffff_ffff_ffff_ffff_ffff_ffff,
        ;
        (height as u128) * (width as u128)
    }
}

} // verus!
