//! The solver: greedy playouts, the beam search over placement decisions,
//! and the turns in which its plans are submitted.

use crate::beam::{admits, lemma_admits, lemma_popped, Beam, Entry};
use crate::geometry::{area, lemma_totals_skip, lemma_totals_take, span, Item};
use crate::hashing::{digest, offered, DuplicateFilter};
use crate::judge::{perturb, Judge, JudgeState};
use crate::random::{draw, seeded};
use crate::surface::{
    copy_of, lemma_best_rotation, lemma_place, lemma_room, lemma_room_score, lemma_shape, Box,
    Surface,
};
use rand::rngs::StdRng;
use std::collections::VecDeque;
use vstd::prelude::*;

verus! {

/// The number of trials that a round spends on each surface, times the
/// number of items.
pub const TRIAL_BUDGET: usize = 600;

/// The seed of the search's pseudo-random source.
pub const SEED: u64 = 42;

/// A packing task: `n` items of sizes `wh`, to be submitted in `t` turns to
/// `judge`. `s` is a parameter of the task that the search does not use.
pub struct Solver {
    pub n: usize,
    pub t: usize,
    pub s: usize,
    pub wh: Vec<Item>,
    pub judge: Judge,
}

/// The mathematical content of a [`Solver`].
#[verifier::ext_equal]
pub struct SolverState {
    pub n: usize,
    pub t: usize,
    pub s: usize,
    pub wh: Seq<Item>,
    pub judge: JudgeState,
}

impl View for Solver {
    type V = SolverState;

    open spec fn view(&self) -> SolverState {
        SolverState { n: self.n, t: self.t, s: self.s, wh: self.wh@, judge: self.judge@ }
    }
}

/// The surface after the items from `k` on have been placed greedily: each
/// into the first column that still accepts items, sliding along `'L'`, in
/// the rotation that packs that column more densely.
pub open spec fn greedy(s: Surface, items: Seq<Item>, k: int) -> Surface
    decreases items.len() - k,
{
    if 0 <= k < items.len() {
        let col = s.start_col_i;
        let r = s.best_rotation(items[k], 'L', col);
        greedy(s.place(items[k], r, 'L', col), items, k + 1)
    } else {
        s
    }
}

/// Whether the greedy placement of the items from `k` on stays within the
/// machine integers: every item can be weighed and placed where it goes,
/// and the score at the end fits.
pub open spec fn playable(s: Surface, items: Seq<Item>, k: int) -> bool
    decreases items.len() - k,
{
    if 0 <= k < items.len() {
        let col = s.start_col_i;
        let r = s.best_rotation(items[k], 'L', col);
        &&& s.weighs(items[k], 'L', col)
        &&& s.accepts(items[k], r, 'L', col)
        &&& playable(s.place(items[k], r, 'L', col), items, k + 1)
    } else {
        s.score() <= usize::MAX
    }
}

/// `r` is the largest integer whose square is at most `n`.
pub open spec fn is_floor_sqrt(n: int, r: int) -> bool {
    0 <= r && r * r <= n && n < (r + 1) * (r + 1)
}

/// The largest integer whose square is at most `n`.
pub open spec fn floor_sqrt(n: int) -> int {
    choose|r: int| is_floor_sqrt(n, r)
}

/// Only one integer is the floor of a square root.
pub proof fn lemma_floor_sqrt_unique(n: int, a: int, b: int)
    requires
        is_floor_sqrt(n, a),
        is_floor_sqrt(n, b),
    ensures
        a == b,
{
    if a < b {
        assert((a + 1) * (a + 1) <= b * b) by (nonlinear_arith)
            requires
                0 <= a,
                a + 1 <= b,
        ;
    }
    if b < a {
        assert((b + 1) * (b + 1) <= a * a) by (nonlinear_arith)
            requires
                0 <= b,
                b + 1 <= a,
        ;
    }
}

/// The largest integer whose square is at most `n`.
pub fn isqrt(n: usize) -> (r: usize)
    ensures
        is_floor_sqrt(n as int, r as int),
        r == floor_sqrt(n as int),
{
    let mut lo: u128 = 0;
    let mut hi: u128 = 0x1_0000_0000;
    while hi - lo > 1
        invariant
            lo < hi <= 0x1_0000_0000,
            lo * lo <= n < hi * hi,
        decreases hi - lo,
    {
        let mid = lo + (hi - lo) / 2;
        assert(mid * mid <= 0x1_0000_0000 * 0x1_0000_0000) by (nonlinear_arith)
            requires
                0 <= mid <= 0x1_0000_0000,
        ;
        if mid * mid <= n as u128 {
            lo = mid;
        } else {
            hi = mid;
        }
    }
    proof {
        assert(is_floor_sqrt(n as int, lo as int));
        lemma_floor_sqrt_unique(n as int, lo as int, floor_sqrt(n as int));
    }
    lo as usize
}

/// The decision of trial `j` on surface `s`: the first trial takes the
/// denser rotation in the first column that still accepts items; every other
/// trial takes the rotation and the column that were drawn.
pub open spec fn candidate(s: Surface, wh: Item, j: usize, drawn_r: usize, drawn_col: usize) -> (
    usize,
    char,
    usize,
) {
    if j == 0 {
        (s.best_rotation(wh, 'L', s.start_col_i), 'L', s.start_col_i)
    } else {
        (drawn_r, 'L', drawn_col)
    }
}

/// Whether trial `j` of item `i` on `parent` stays within the machine
/// integers: the first trial can weigh the item's rotations, the column of
/// the decision is a column or the next new one, and a child that the filter
/// with `seen` lets pass can be placed and played out.
pub open spec fn branches(
    parent: Surface,
    items: Seq<Item>,
    i: int,
    j: usize,
    drawn_r: usize,
    drawn_col: usize,
    seen: Set<u64>,
) -> bool {
    let (r, d, col) = candidate(parent, items[i], j, drawn_r, drawn_col);
    let child = parent.place(items[i], r, d, col);
    &&& j == 0 ==> parent.weighs(items[i], 'L', parent.start_col_i)
    &&& col <= parent.col_info.len()
    &&& offered(seen, digest(child.order)).0 ==> parent.accepts(items[i], r, d, col) && playable(
        child,
        items,
        i + 1,
    )
}

/// `s` is a surface that the search can build from the first `k` of
/// `items`: the empty surface whose reference height is the floor of the
/// square root of the items' area, with the items placed in their order,
/// each rotated or not, sliding along `'L'`, into a column between the first
/// one that still accepts items and the next new one.
pub open spec fn built(items: Seq<Item>, s: Surface, k: int) -> bool
    decreases k,
{
    if k <= 0 {
        s.ref_h == floor_sqrt(area(items)) && s == Surface::empty(s.ref_h)
    } else {
        exists|prev: Surface, r: usize, col: usize|
            built(items, prev, k - 1) && r <= 1 && prev.start_col_i <= col <= prev.col_info.len()
                && s == #[trigger] prev.place(items[k - 1], r, 'L', col)
    }
}

/// One more placement of the search's kind builds on what was built.
pub proof fn lemma_built_step(items: Seq<Item>, prev: Surface, r: usize, col: usize, k: int)
    requires
        0 <= k,
        built(items, prev, k),
        r <= 1,
        prev.start_col_i <= col <= prev.col_info.len(),
    ensures
        built(items, prev.place(items[k], r, 'L', col), k + 1),
{
    let s = prev.place(items[k], r, 'L', col);
    assert(built(items, prev, (k + 1) - 1) && s == prev.place(items[(k + 1) - 1], r, 'L', col));
}

/// No two entries of `pool` have decision sequences of the same hash.
pub open spec fn distinct(pool: Seq<Entry>) -> bool {
    forall|a: int, b: int|
        0 <= a < b < pool.len() ==> digest((#[trigger] pool[a]).1.order) != digest(
            (#[trigger] pool[b]).1.order,
        )
}

/// A pool of distinct entries stays one when it is offered an entry whose
/// hash none of them has.
pub proof fn lemma_admits_distinct(before: Seq<Entry>, width: usize, e: Entry, after: Seq<Entry>)
    requires
        before.len() <= width,
        admits(before, width, e, after),
        distinct(before),
        forall|k: int|
            0 <= k < before.len() ==> digest((#[trigger] before[k]).1.order) != digest(e.1.order),
    ensures
        distinct(after),
{
    broadcast use vstd::multiset::group_multiset_axioms;

    before.to_multiset_ensures();
    after.to_multiset_ensures();
    assert(before.no_duplicates()) by {
        assert forall|i: int, j: int|
            0 <= i < before.len() && 0 <= j < before.len() && i != j implies before[i]
            != before[j] by {
            if i < j {
                assert(digest(before[i].1.order) != digest(before[j].1.order));
            } else {
                assert(digest(before[j].1.order) != digest(before[i].1.order));
            }
        }
    }
    before.lemma_multiset_has_no_duplicates();
    if !before.contains(e) {
        assert(before.to_multiset().count(e) == 0);
    } else {
        let m = choose|m: int| 0 <= m < before.len() && before[m] == e;
        assert(digest(before[m].1.order) != digest(e.1.order));
    }
    assert forall|x: Entry| after.to_multiset().contains(x) implies after.to_multiset().count(x)
        == 1 by {
        if before.to_multiset().contains(x) {
            assert(before.to_multiset().count(x) == 1);
        }
    }
    after.lemma_multiset_has_no_duplicates_conv();
    lemma_admits(before, width, e, after);
    assert forall|a: int, b: int| 0 <= a < b < after.len() implies digest(
        (#[trigger] after[a]).1.order,
    ) != digest((#[trigger] after[b]).1.order) by {
        let x = after[a];
        let y = after[b];
        assert(x != y);
        if x == e {
            let m = choose|m: int| 0 <= m < before.len() && before[m] == y;
            assert(digest(before[m].1.order) != digest(e.1.order));
        } else if y == e {
            let m = choose|m: int| 0 <= m < before.len() && before[m] == x;
            assert(digest(before[m].1.order) != digest(e.1.order));
        } else {
            let m = choose|m: int| 0 <= m < before.len() && before[m] == x;
            let n = choose|n: int| 0 <= n < before.len() && before[n] == y;
            if m < n {
                assert(digest(before[m].1.order) != digest(before[n].1.order));
            } else {
                assert(digest(before[n].1.order) != digest(before[m].1.order));
            }
        }
    }
}

impl SolverState {
    /// The sides and areas of all items add up within the machine integers,
    /// and so does their number.
    pub open spec fn bounded(self) -> bool {
        &&& span(self.wh) <= usize::MAX
        &&& area(self.wh) <= usize::MAX
        &&& self.wh.len() <= isize::MAX
    }

    /// The reference height of the task: the side of the square that has
    /// the area of all items, rounded down.
    pub open spec fn reference(self) -> int {
        floor_sqrt(area(self.wh))
    }

    /// `s` is a plan for the first `k` items: a well-formed surface that
    /// the search can build from them, holding them in their order.
    pub open spec fn plans(self, s: Surface, k: int) -> bool {
        &&& built(self.wh, s, k)
        &&& s.wf()
        &&& s.goods == self.wh.take(k)
        &&& s.ref_h == self.reference()
    }

    /// `e` is a plan for the first `k` items, ranked by the score that its
    /// greedy completion reaches. Before the first item the rank is open.
    pub open spec fn ranks(self, e: Entry, k: int) -> bool {
        &&& self.plans(e.1, k)
        &&& k > 0 ==> e.0 == greedy(e.1, self.wh, k).score()
    }

    /// The child of trial `j` of item `i` on `parent`, ranked by its greedy
    /// playout.
    pub open spec fn trial(
        self,
        parent: Surface,
        i: int,
        j: usize,
        drawn_r: usize,
        drawn_col: usize,
    ) -> Entry {
        let (r, d, col) = candidate(parent, self.wh[i], j, drawn_r, drawn_col);
        let child = parent.place(self.wh[i], r, d, col);
        (greedy(child, self.wh, i + 1).score() as usize, child)
    }

    /// The item count matches the items, and the judge's true surface is
    /// well formed.
    pub open spec fn wf(self) -> bool {
        self.n == self.wh.len() && self.judge.real_box.wf()
    }

    /// This state with `truth` as the judge's true surface.
    pub open spec fn with_real(self, truth: Surface) -> SolverState {
        SolverState { judge: JudgeState { real_box: truth, ..self.judge }, ..self }
    }

    /// The judge's true surface after the placement of item `i`: where the
    /// judge knows the item's true size and its surface accepts it, the
    /// true size has been placed in the same way.
    pub open spec fn followed(self, i: usize, r: usize, d: char, col_i: usize) -> Surface {
        let truth = self.judge.real_box;
        if i < self.judge.wh.len() && truth.accepts(self.judge.wh[i as int], r, d, col_i) {
            truth.place(self.judge.wh[i as int], r, d, col_i)
        } else {
            truth
        }
    }

    /// The state after the placement of item `i`.
    pub open spec fn added(self, i: usize, r: usize, d: char, col_i: usize) -> SolverState {
        self.with_real(self.followed(i, r, d, col_i))
    }

    /// The state after a greedy playout from surface `s` and item `k`: the
    /// judge has followed every placement of it.
    pub open spec fn played(self, s: Surface, k: int) -> SolverState
        decreases self.wh.len() - k,
    {
        if 0 <= k < self.wh.len() {
            let col = s.start_col_i;
            let r = s.best_rotation(self.wh[k], 'L', col);
            self.added(k as usize, r, 'L', col).played(s.place(self.wh[k], r, 'L', col), k + 1)
        } else {
            self
        }
    }

    /// Whether `surface` can be submitted within the machine integers: the
    /// judge can answer, and the three scores of the turn fit.
    pub open spec fn answers(self, surface: Surface, measured: Option<(usize, usize)>) -> bool {
        &&& surface.score() <= usize::MAX
        &&& self.judge.real_box.score() <= usize::MAX
        &&& self.judge.answers(measured)
        &&& self.judge.response(measured).0 + self.judge.response(measured).1 <= usize::MAX
    }

    /// `other` is this state but for the judge's true surface, which is
    /// well formed.
    pub open spec fn same_task(self, other: SolverState) -> bool {
        other == self.with_real(other.judge.real_box) && other.judge.real_box.wf()
    }
}

/// The best scores seen over the turns so far: the lowest estimate, the
/// lowest score that the judge answered with, and the lowest true score.
/// Each is `usize::MAX` before the first turn.
#[derive(Clone, Copy, Debug, PartialEq, Eq)]
pub struct Tally {
    pub estimated: usize,
    pub score: usize,
    pub real: usize,
}

/// The smaller of two scores.
pub open spec fn lower(a: usize, b: usize) -> usize {
    if b < a {
        b
    } else {
        a
    }
}

impl Tally {
    /// The tally before the first turn.
    pub fn new() -> (tally: Tally)
        ensures
            tally == (Tally { estimated: usize::MAX, score: usize::MAX, real: usize::MAX }),
    {
        Tally { estimated: usize::MAX, score: usize::MAX, real: usize::MAX }
    }

    /// Takes in the scores of one turn: each best score falls to the turn's
    /// score where that is lower.
    pub fn record(&mut self, scores: (usize, usize, usize))
        ensures
            *final(self) == (Tally {
                estimated: lower(old(self).estimated, scores.0),
                score: lower(old(self).score, scores.1),
                real: lower(old(self).real, scores.2),
            }),
    {
        if scores.0 < self.estimated {
            self.estimated = scores.0;
        }
        if scores.1 < self.score {
            self.score = scores.1;
        }
        if scores.2 < self.real {
            self.real = scores.2;
        }
    }
}

impl Solver {
    /// A solver for items `wh`, with a judge that knows the true sizes
    /// `real_wh` and the per-turn errors `dwh` of a simulation; both are
    /// empty without one.
    pub fn new(
        n: usize,
        t: usize,
        s: usize,
        wh: Vec<Item>,
        real_wh: Vec<Item>,
        dwh: Vec<(isize, isize)>,
    ) -> (solver: Solver)
        ensures
            solver@ == (SolverState {
                n,
                t,
                s,
                wh: wh@,
                judge: JudgeState {
                    n,
                    t,
                    s,
                    wh: real_wh@,
                    dwh: dwh@,
                    turn: 0,
                    real_box: Surface::empty(0),
                },
            }),
            solver@.judge.real_box.wf(),
    {
        let judge = Judge::new(n, t, s, real_wh, dwh);
        Solver { n, t, s, wh, judge }
    }

    /// Places item `i` on `surface`, and lets the judge follow with the
    /// item's true size where it knows it and its surface accepts it.
    pub fn add(&mut self, surface: &mut Box, i: usize, r: usize, d: char, col_i: usize)
        requires
            i < old(self)@.wh.len(),
            old(surface)@.wf(),
            old(surface)@.accepts(old(self)@.wh[i as int], r, d, col_i),
            old(self)@.judge.real_box.wf(),
        ensures
            final(surface)@ == old(surface)@.place(old(self)@.wh[i as int], r, d, col_i),
            final(surface)@.wf(),
            final(self)@ == old(self)@.added(i, r, d, col_i),
            final(self)@.judge.real_box.wf(),
    {
        surface.add(self.wh[i], r, d, col_i);
        if i < self.judge.wh.len() {
            let real_wh = self.judge.wh[i];
            if self.judge.real_box.fits(real_wh, r, d, col_i) {
                self.judge.real_box.add(real_wh, r, d, col_i);
            }
        }
    }

    /// The score that `org_box` reaches when the items from `next_i` on are
    /// placed greedily, as far as that stays within the machine integers.
    /// `org_box` itself stays as it is; the judge follows every placement.
    pub fn playout(&mut self, org_box: &Box, next_i: usize) -> (score: usize)
        requires
            old(self)@.wf(),
            org_box@.wf(),
            next_i <= old(self)@.wh.len(),
            playable(org_box@, old(self)@.wh, next_i as int),
        ensures
            score == greedy(org_box@, old(self)@.wh, next_i as int).score(),
            final(self)@ == old(self)@.played(org_box@, next_i as int),
            final(self)@.judge.real_box.wf(),
    {
        let mut surface = org_box.clone();
        let mut i = next_i;
        while i < self.n
            invariant
                self@.wf(),
                self@.wh == old(self)@.wh,
                next_i <= i <= self.n,
                surface@.wf(),
                playable(surface@, self@.wh, i as int),
                greedy(surface@, self@.wh, i as int) == greedy(
                    org_box@,
                    old(self)@.wh,
                    next_i as int,
                ),
                self@.played(surface@, i as int) == old(self)@.played(org_box@, next_i as int),
            decreases self.n - i,
        {
            let col_i = surface.start_col_i;
            let (r, d) = surface.opt_instruction(self.wh[i], 'L', col_i);
            self.add(&mut surface, i, r, d, col_i);
            i += 1;
        }
        surface.get_score()
    }

    /// Whether the search can run within the machine integers.
    pub fn bounded(&self) -> (ok: bool)
        ensures
            ok == self@.bounded(),
    {
        if self.wh.len() > isize::MAX as usize {
            return false;
        }
        let mut sides: usize = 0;
        let mut cover: usize = 0;
        let mut k: usize = 0;
        while k < self.wh.len()
            invariant
                k <= self.wh@.len(),
                sides == span(self.wh@.take(k as int)),
                cover == area(self.wh@.take(k as int)),
            decreases self.wh@.len() - k,
        {
            let (w, h) = self.wh[k];
            proof {
                lemma_totals_take(self.wh@, k as int);
                lemma_totals_take(self.wh@, k + 1);
                assert(0 <= w * h) by (nonlinear_arith);
            }
            let both = match w.checked_add(h) {
                Some(both) => both,
                None => {
                    return false;
                },
            };
            sides = match sides.checked_add(both) {
                Some(sides) => sides,
                None => {
                    return false;
                },
            };
            let more = match w.checked_mul(h) {
                Some(more) => more,
                None => {
                    return false;
                },
            };
            cover = match cover.checked_add(more) {
                Some(cover) => cover,
                None => {
                    return false;
                },
            };
            k += 1;
        }
        assert(self.wh@.take(k as int) =~= self.wh@);
        true
    }

    /// The area of all items.
    pub fn total_area(&self) -> (sum: usize)
        requires
            area(self@.wh) <= usize::MAX,
        ensures
            sum == area(self@.wh),
    {
        let mut sum: usize = 0;
        let mut k: usize = 0;
        while k < self.wh.len()
            invariant
                k <= self.wh@.len(),
                sum == area(self.wh@.take(k as int)),
                area(self.wh@) <= usize::MAX,
            decreases self.wh@.len() - k,
        {
            let (w, h) = self.wh[k];
            proof {
                lemma_totals_take(self.wh@, k as int);
                lemma_totals_take(self.wh@, k + 1);
                assert(0 <= w * h) by (nonlinear_arith);
            }
            sum = sum + w * h;
            k += 1;
        }
        assert(self.wh@.take(k as int) =~= self.wh@);
        sum
    }

    /// One trial of the search: decides how item `i` goes onto `parent`,
    /// and unless the filter has seen the resulting decision sequence,
    /// offers the child to `next`, ranked by its greedy playout.
    ///
    /// `drawn_r` and `drawn_col` are the rotation and the column drawn for
    /// this trial; the first trial of a parent does not use them.
    pub fn branch(
        &mut self,
        parent: &Box,
        i: usize,
        j: usize,
        drawn_r: usize,
        drawn_col: usize,
        filter: &mut DuplicateFilter,
        next: &mut Beam,
    )
        requires
            old(self)@.wf(),
            i < old(self)@.wh.len(),
            parent@.wf(),
            branches(parent@, old(self)@.wh, i as int, j, drawn_r, drawn_col, old(filter)@),
            old(next).wf(),
        ensures
            ({
                let wh = old(self)@.wh;
                let (r, d, col) = candidate(parent@, wh[i as int], j, drawn_r, drawn_col);
                let child = parent@.place(wh[i as int], r, d, col);
                let (fresh, seen) = offered(old(filter)@, digest(child.order));
                &&& final(filter)@ == seen
                &&& if fresh {
                    &&& admits(
                        old(next)@,
                        old(next).width,
                        (greedy(child, wh, i + 1).score() as usize, child),
                        final(next)@,
                    )
                    &&& final(self)@ == old(self)@.added(i, r, d, col).played(child, i + 1)
                } else {
                    &&& final(next)@ == old(next)@
                    &&& final(self)@ == old(self)@
                }
            }),
            final(next).wf(),
            final(next).width == old(next).width,
            old(self)@.same_task(final(self)@),
    {
        let wh = self.wh[i];
        let start = parent.start_col_i;
        let (r, d, col_i) = if j == 0 {
            let (r, d) = parent.opt_instruction(wh, 'L', start);
            (r, d, start)
        } else {
            (drawn_r, 'L', drawn_col)
        };
        proof {
            assert(self@ == self@.with_real(self@.judge.real_box));
        }
        let b: isize = if col_i == parent.col_info.len() {
            -1
        } else {
            parent.col_info[col_i].2 as isize
        };
        let mut order = copy_of(&parent.order);
        order.push((r, d, b));
        if !filter.try_register(&order) {
            return ;
        }
        proof {
            lemma_place(parent@, wh, r, d, col_i);
            lemma_greedy(parent@.place(wh, r, d, col_i), self@.wh, i + 1);
            lemma_followed(self@, i, r, d, col_i);
            lemma_played(self@.added(i, r, d, col_i), parent@.place(wh, r, d, col_i), i + 1);
        }
        let mut child = parent.clone();
        self.add(&mut child, i, r, d, col_i);
        let score = self.playout(&child, i + 1);
        next.push(score, child);
    }

    /// One round of the search: every surface of `beams`, worst first, is
    /// tried `trial` times with item `i`, and the best children survive, at
    /// most `t` of them. No two children of a round have decision sequences
    /// of the same hash. Where there is a surface to try, a trial to spend
    /// and a turn to play, a child survives.
    pub fn expand(&mut self, beams: Beam, i: usize, trial: usize, rng: &mut StdRng) -> (next: Beam)
        requires
            old(self)@.wf(),
            old(self)@.bounded(),
            i < old(self)@.wh.len(),
            beams.wf(),
            forall|k: int|
                0 <= k < beams@.len() ==> old(self)@.ranks(#[trigger] beams@[k], i as int),
        ensures
            next.wf(),
            next.width == old(self).t,
            next@.len() <= old(self).t,
            forall|k: int| 0 <= k < next@.len() ==> old(self)@.ranks(#[trigger] next@[k], i + 1),
            distinct(next@),
            old(self).t > 0 && trial > 0 && beams@.len() > 0 ==> next@.len() > 0,
            old(self)@.same_task(final(self)@),
    {
        let ghost pool_at_start = beams@;
        let mut beams = beams;
        let mut next = Beam::new(self.t);
        let mut filter = DuplicateFilter::new();
        loop
            invariant
                self@.wf(),
                old(self)@.same_task(self@),
                old(self)@.bounded(),
                i < old(self)@.wh.len(),
                beams.wf(),
                forall|k: int|
                    0 <= k < beams@.len() ==> old(self)@.ranks(#[trigger] beams@[k], i as int),
                next.wf(),
                next.width == old(self).t,
                forall|k: int|
                    0 <= k < next@.len() ==> old(self)@.ranks(#[trigger] next@[k], i + 1),
                filter@ == Set::<u64>::empty() || old(self).t == 0 || next@.len() > 0,
                trial > 0 && filter@ == Set::<u64>::empty() ==> beams@ == pool_at_start,
                distinct(next@),
                forall|k: int|
                    0 <= k < next@.len() ==> filter@.contains(
                        digest((#[trigger] next@[k]).1.order),
                    ),
            ensures
                self@.wf(),
                old(self)@.same_task(self@),
                next.wf(),
                next.width == old(self).t,
                distinct(next@),
                forall|k: int|
                    0 <= k < next@.len() ==> old(self)@.ranks(#[trigger] next@[k], i + 1),
                old(self).t > 0 && trial > 0 && pool_at_start.len() > 0 ==> next@.len() > 0,
            decreases beams@.len(),
        {
            let ghost pool = beams@;
            let popped = beams.pop();
            if popped.is_none() {
                break ;
            }
            let (_, parent) = popped.unwrap();
            proof {
                lemma_popped(pool, beams@);
                assert(old(self)@.ranks(pool[0], i as int));
                assert forall|k: int| 0 <= k < beams@.len() implies old(self)@.ranks(
                    #[trigger] beams@[k],
                    i as int,
                ) by {
                    let m = choose|m: int| 0 <= m < pool.len() && pool[m] == beams@[k];
                    assert(old(self)@.ranks(pool[m], i as int));
                }
            }
            let mut j: usize = 0;
            while j < trial
                invariant
                    self@.wf(),
                    old(self)@.same_task(self@),
                    old(self)@.bounded(),
                    i < self@.wh.len(),
                    old(self)@.plans(parent@, i as int),
                    next.wf(),
                    next.width == old(self).t,
                    forall|k: int|
                        0 <= k < next@.len() ==> old(self)@.ranks(#[trigger] next@[k], i + 1),
                    filter@ == Set::<u64>::empty() || old(self).t == 0 || next@.len() > 0,
                    j > 0 ==> filter@ != Set::<u64>::empty(),
                    distinct(next@),
                    forall|k: int|
                        0 <= k < next@.len() ==> filter@.contains(
                            digest((#[trigger] next@[k]).1.order),
                        ),
                decreases trial - j,
            {
                proof {
                    lemma_shape(parent@);
                }
                let drawn_r = draw(rng, 0, 1);
                let drawn_col = draw(rng, parent.start_col_i, parent.col_info.len());
                let ghost before = next@;
                let ghost seen = filter@;
                let ghost e = old(self)@.trial(parent@, i as int, j, drawn_r, drawn_col);
                proof {
                    lemma_trial_ready(old(self)@, parent@, i as int, j, drawn_r, drawn_col, seen);
                }
                self.branch(&parent, i, j, drawn_r, drawn_col, &mut filter, &mut next);
                proof {
                    if offered(seen, digest(e.1.order)).0 {
                        lemma_trial_kept(old(self)@, i + 1, before, next.width, e, next@, seen);
                    }
                }
                j += 1;
            }
        }
        next
    }

    /// Searches for plans that place all items: one round per item, from a
    /// single empty surface, with `TRIAL_BUDGET / n` trials for every
    /// surface of a round and the `t` best children surviving it.
    ///
    /// Every surface of the beam is built from the empty surface of the
    /// task's reference height by placing all items in their order, and is
    /// ranked by its own score. No two of them have decision sequences of
    /// the same hash. With a turn to play and no more than `TRIAL_BUDGET`
    /// items the beam is not empty. Which surfaces survive depends on what
    /// the pseudo-random source draws. Nothing of the task changes but the
    /// judge's true surface, which follows every placement of the search.
    pub fn optimize(&mut self) -> (beams: Beam)
        requires
            old(self)@.wf(),
            old(self)@.bounded(),
            old(self).n > 0,
        ensures
            beams.wf(),
            beams.width == old(self).t,
            beams@.len() <= old(self).t,
            old(self).t > 0 && old(self).n <= TRIAL_BUDGET ==> beams@.len() > 0,
            distinct(beams@),
            forall|k: int|
                0 <= k < beams@.len() ==> {
                    &&& (#[trigger] beams@[k]).1.wf()
                    &&& beams@[k].1.goods == old(self)@.wh
                    &&& beams@[k].1.ref_h == old(self)@.reference()
                    &&& beams@[k].0 == beams@[k].1.score()
                    &&& built(old(self)@.wh, beams@[k].1, old(self).n as int)
                },
            old(self)@.same_task(final(self)@),
    {
        let mut rng = seeded(SEED);
        let ref_h = isqrt(self.total_area());
        let trial = TRIAL_BUDGET / self.n;
        proof {
            let n = self.n as int;
            let budget = TRIAL_BUDGET as int;
            if n <= budget {
                assert(budget / n >= 1) by (nonlinear_arith)
                    requires
                        0 < n <= budget,
                ;
            } else {
                assert(budget / n == 0) by (nonlinear_arith)
                    requires
                        0 <= budget < n,
                ;
            }
        }
        let mut beams = Beam::new(1);
        beams.push(usize::MAX, Box::new(ref_h));
        proof {
            let first = (usize::MAX, Surface::empty(ref_h));
            lemma_admits(Seq::<Entry>::empty(), 1, first, beams@);
            assert(self@.wh.take(0) =~= Seq::<Item>::empty());
            assert(self@.ranks(first, 0));
            assert(self@ == self@.with_real(self@.judge.real_box));
        }
        let mut i: usize = 0;
        while i < self.n
            invariant
                self@.wf(),
                old(self)@.same_task(self@),
                old(self)@.bounded(),
                i <= self.n,
                trial > 0 <==> self.n <= TRIAL_BUDGET,
                beams.wf(),
                i > 0 ==> beams.width == old(self).t,
                i > 0 ==> distinct(beams@),
                forall|k: int|
                    0 <= k < beams@.len() ==> old(self)@.ranks(#[trigger] beams@[k], i as int),
                old(self).t > 0 && self.n <= TRIAL_BUDGET ==> beams@.len() > 0,
            decreases self.n - i,
        {
            let ghost state = self@;
            beams = self.expand(beams, i, trial, &mut rng);
            proof {
                assert forall|k: int| 0 <= k < beams@.len() implies old(self)@.ranks(
                    #[trigger] beams@[k],
                    i + 1,
                ) by {
                    assert(state.ranks(beams@[k], i + 1));
                }
            }
            i += 1;
        }
        proof {
            assert(self@.wh.take(self.n as int) =~= self@.wh);
        }
        beams
    }

    /// The plan of the next turn: the best one left in `plans`, which are
    /// ranked with the best last; an empty surface once none is left.
    pub fn next_plan(plans: &mut VecDeque<(usize, Box)>) -> (plan: Box)
        ensures
            old(plans)@.len() > 0 ==> plan@ == old(plans)@.last().1@ && final(plans)@ == old(
                plans,
            )@.drop_last(),
            old(plans)@.len() == 0 ==> plan@ == Surface::empty(0) && final(plans)@ == old(plans)@,
    {
        match plans.pop_back() {
            Some((_, plan)) => plan,
            None => Box::new(0),
        }
    }

    /// Whether [`Solver::ans`] can submit `surface` in this turn.
    pub fn answers(&self, surface: &Box, measured: Option<(usize, usize)>) -> (ok: bool)
        ensures
            ok == self@.answers(surface@, measured),
    {
        if surface.max_x.checked_add(surface.max_y).is_none() {
            return false;
        }
        if self.judge.real_box.max_x.checked_add(self.judge.real_box.max_y).is_none() {
            return false;
        }
        if !self.judge.answers(measured) {
            return false;
        }
        let (w, h) = match measured {
            Some(size) => size,
            None => {
                let (dw, dh) = self.judge.dwh[self.judge.turn];
                (perturb(self.judge.real_box.max_x, dw), perturb(self.judge.real_box.max_y, dh))
            },
        };
        w.checked_add(h).is_some()
    }

    /// Submits `surface` as the plan of this turn and returns its scores:
    /// the score it was estimated at, the score of the size that the judge
    /// answers with, and the score of the judge's true surface.
    ///
    /// `measured` is the size that was measured outside; without it the
    /// judge simulates its answer.
    pub fn ans(&mut self, surface: Box, measured: Option<(usize, usize)>) -> (scores: (
        usize,
        usize,
        usize,
    ))
        requires
            old(self)@.answers(surface@, measured),
        ensures
            scores.0 == surface@.score(),
            scores.1 == old(self)@.judge.response(measured).0 + old(self)@.judge.response(
                measured,
            ).1,
            scores.2 == old(self)@.judge.real_box.score(),
            final(self)@ == (SolverState { judge: old(self)@.judge.answered(), ..old(self)@ }),
            final(self)@.judge.real_box.wf(),
    {
        let estimated_score = surface.get_score();
        let real_score = self.judge.real_box.get_score();
        let (w, h) = self.judge.ans(measured);
        (estimated_score, w + h, real_score)
    }
}

/// In a task within the machine integers every trial on a plan for the
/// first `i` items stays within them, and its child is a plan for one item
/// more, ranked by its greedy playout.
pub proof fn lemma_trial_ready(
    state: SolverState,
    parent: Surface,
    i: int,
    j: usize,
    drawn_r: usize,
    drawn_col: usize,
    seen: Set<u64>,
)
    requires
        state.bounded(),
        0 <= i < state.wh.len(),
        state.plans(parent, i),
        drawn_r <= 1,
        parent.start_col_i <= drawn_col <= parent.col_info.len(),
    ensures
        branches(parent, state.wh, i, j, drawn_r, drawn_col, seen),
        state.ranks(state.trial(parent, i, j, drawn_r, drawn_col), i + 1),
{
    let wh = state.wh;
    let (r, d, col) = candidate(parent, wh[i], j, drawn_r, drawn_col);
    let child = parent.place(wh[i], r, d, col);
    lemma_shape(parent);
    lemma_totals_skip(wh, i);
    lemma_best_rotation(parent, wh[i], 'L', parent.start_col_i);
    lemma_room(parent, wh, i, r, d, col);
    lemma_room(parent, wh, i, r, 'L', parent.start_col_i);
    lemma_place(parent, wh[i], r, d, col);
    lemma_playable(child, wh, i + 1);
    lemma_greedy(child, wh, i + 1);
    lemma_built_step(wh, parent, r, col, i);
    assert(wh.take(i + 1) =~= wh.take(i).push(wh[i]));
}

/// A pool of distinct plans whose hashes the filter has seen stays one when
/// a plan that the filter lets pass is offered to it, with that plan's hash
/// seen too.
pub proof fn lemma_trial_kept(
    state: SolverState,
    k: int,
    before: Seq<Entry>,
    width: usize,
    e: Entry,
    after: Seq<Entry>,
    seen: Set<u64>,
)
    requires
        before.len() <= width,
        admits(before, width, e, after),
        state.ranks(e, k),
        !seen.contains(digest(e.1.order)),
        distinct(before),
        forall|m: int| 0 <= m < before.len() ==> state.ranks(#[trigger] before[m], k),
        forall|m: int|
            0 <= m < before.len() ==> seen.contains(digest((#[trigger] before[m]).1.order)),
    ensures
        after.len() <= width,
        width > 0 ==> after.len() > 0,
        distinct(after),
        forall|m: int| 0 <= m < after.len() ==> state.ranks(#[trigger] after[m], k),
        forall|m: int|
            0 <= m < after.len() ==> seen.insert(digest(e.1.order)).contains(
                digest((#[trigger] after[m]).1.order),
            ),
{
    lemma_admits(before, width, e, after);
    assert forall|m: int| 0 <= m < before.len() implies digest((#[trigger] before[m]).1.order)
        != digest(e.1.order) by {
        assert(seen.contains(digest(before[m].1.order)));
    }
    lemma_admits_distinct(before, width, e, after);
    assert forall|m: int| 0 <= m < after.len() implies state.ranks(#[trigger] after[m], k)
        && seen.insert(digest(e.1.order)).contains(digest(after[m].1.order)) by {
        if after[m] != e {
            let n = choose|n: int| 0 <= n < before.len() && before[n] == after[m];
            assert(state.ranks(before[n], k));
            assert(seen.contains(digest(before[n].1.order)));
        }
    }
}

/// A surface with room for the items from `k` on can play them out.
pub proof fn lemma_playable(s: Surface, items: Seq<Item>, k: int)
    requires
        s.wf(),
        0 <= k <= items.len(),
        s.room_for(items.skip(k)),
    ensures
        playable(s, items, k),
    decreases items.len() - k,
{
    if k < items.len() {
        let col = s.start_col_i;
        let r = s.best_rotation(items[k], 'L', col);
        lemma_shape(s);
        lemma_room(s, items, k, r, 'L', col);
        lemma_place(s, items[k], r, 'L', col);
        lemma_playable(s.place(items[k], r, 'L', col), items, k + 1);
    } else {
        lemma_room_score(s, items.skip(k));
    }
}

/// A greedy playout that stays within the machine integers leaves a
/// well-formed surface that holds the items that were there and those that
/// came, with a score that fits.
pub proof fn lemma_greedy(s: Surface, items: Seq<Item>, k: int)
    requires
        s.wf(),
        0 <= k <= items.len(),
        playable(s, items, k),
    ensures
        greedy(s, items, k).wf(),
        greedy(s, items, k).goods == s.goods + items.skip(k),
        greedy(s, items, k).ref_h == s.ref_h,
        greedy(s, items, k).score() <= usize::MAX,
    decreases items.len() - k,
{
    if k < items.len() {
        let col = s.start_col_i;
        let r = s.best_rotation(items[k], 'L', col);
        lemma_place(s, items[k], r, 'L', col);
        let t = s.place(items[k], r, 'L', col);
        lemma_greedy(t, items, k + 1);
        assert(t.goods + items.skip(k + 1) =~= s.goods + items.skip(k));
    } else {
        assert(s.goods + items.skip(k) =~= s.goods);
    }
}

/// A greedy playout changes nothing of a task but the judge's true surface,
/// which stays well formed.
pub proof fn lemma_played(state: SolverState, s: Surface, k: int)
    requires
        state.judge.real_box.wf(),
    ensures
        state.same_task(state.played(s, k)),
    decreases state.wh.len() - k,
{
    if 0 <= k < state.wh.len() {
        let col = s.start_col_i;
        let r = s.best_rotation(state.wh[k], 'L', col);
        let next = state.added(k as usize, r, 'L', col);
        lemma_followed(state, k as usize, r, 'L', col);
        lemma_played(next, s.place(state.wh[k], r, 'L', col), k + 1);
    }
}

/// The judge's true surface stays well formed when it follows a placement.
pub proof fn lemma_followed(state: SolverState, i: usize, r: usize, d: char, col_i: usize)
    requires
        state.judge.real_box.wf(),
    ensures
        state.followed(i, r, d, col_i).wf(),
        state.same_task(state.added(i, r, d, col_i)),
{
    let truth = state.judge.real_box;
    if i < state.judge.wh.len() && truth.accepts(state.judge.wh[i as int], r, d, col_i) {
        lemma_place(truth, state.judge.wh[i as int], r, d, col_i);
    }
}

} // verus!
