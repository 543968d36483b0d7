//! The beam: a bounded pool of ranked surfaces that gives up its worst
//! entry first.

use crate::surface::{Box, Surface};
use std::collections::VecDeque;
use vstd::multiset::Multiset;
use vstd::prelude::*;
use vstd::seq_lib::to_multiset_update;

verus! {

/// A surface with the score it is ranked by; a lower score is better.
pub type Entry = (usize, Surface);

/// The entries of a vector of ranked surfaces, in the vector's order.
pub open spec fn ranked(v: Seq<(usize, Box)>) -> Seq<Entry> {
    Seq::new(v.len(), |k: int| (v[k].0, v[k].1@))
}

/// The index of the entry above `k` in the heap.
pub open spec fn parent(k: int) -> int {
    (k - 1) / 2
}

/// The entry at `k` ranks no worse than the one above it.
pub open spec fn settled(s: Seq<Entry>, k: int) -> bool {
    s[parent(k)].0 >= s[k].0
}

/// The entry at `k` ranks no worse than the one two levels above it.
pub open spec fn bounded(s: Seq<Entry>, k: int) -> bool {
    s[parent(parent(k))].0 >= s[k].0
}

/// No entry ranks worse than the one above it.
pub open spec fn heap_ordered(s: Seq<Entry>) -> bool {
    forall|k: int| 0 < k < s.len() ==> #[trigger] settled(s, k)
}

/// `heap_ordered`, but for the entry at `pos` against the entries below it;
/// those are bounded by the entry above `pos` instead.
pub open spec fn ordered_but_below(s: Seq<Entry>, pos: int) -> bool {
    &&& forall|k: int| 0 < k < s.len() && parent(k) != pos ==> #[trigger] settled(s, k)
    &&& forall|k: int| 0 < k < s.len() && parent(k) == pos && pos > 0 ==> #[trigger] bounded(s, k)
}

/// `heap_ordered`, but for the entry at `pos` against the entry above it;
/// the entries below `pos` are bounded by the entry above `pos` instead.
pub open spec fn ordered_but_above(s: Seq<Entry>, pos: int) -> bool {
    &&& forall|k: int| 0 < k < s.len() && k != pos ==> #[trigger] settled(s, k)
    &&& forall|k: int| 0 < k < s.len() && parent(k) == pos && pos > 0 ==> #[trigger] bounded(s, k)
}

/// `after` is what a heap `before` of at most `width` entries becomes when
/// `e` is offered to it: with room left it takes `e` in; when full it stays
/// as it is unless `e` ranks strictly better than its worst entry, which
/// then leaves in favour of `e`.
pub open spec fn admits(before: Seq<Entry>, width: usize, e: Entry, after: Seq<Entry>) -> bool {
    &&& heap_ordered(after)
    &&& if before.len() < width {
        &&& after.to_multiset() == before.to_multiset().insert(e)
        &&& after.len() == before.len() + 1
    } else if width == 0 || e.0 >= before[0].0 {
        after == before
    } else {
        &&& after.to_multiset() == before.to_multiset().remove(before[0]).insert(e)
        &&& after.len() == before.len()
    }
}

/// After an offer every entry is the one offered or was there before, and a
/// heap of positive width is not empty.
pub proof fn lemma_admits(before: Seq<Entry>, width: usize, e: Entry, after: Seq<Entry>)
    requires
        before.len() <= width,
        admits(before, width, e, after),
    ensures
        after.len() <= width,
        width > 0 ==> after.len() > 0,
        forall|k: int|
            0 <= k < after.len() ==> #[trigger] after[k] == e || before.contains(after[k]),
{
    broadcast use vstd::multiset::group_multiset_axioms;

    before.to_multiset_ensures();
    after.to_multiset_ensures();
    assert forall|k: int| 0 <= k < after.len() implies #[trigger] after[k] == e || before.contains(
        after[k],
    ) by {
        let x = after[k];
        assert(after.contains(x));
        assert(after.to_multiset().count(x) > 0);
        if x != e {
            if before.len() < width {
                assert(before.to_multiset().count(x) > 0);
            } else if width == 0 || e.0 >= before[0].0 {
            } else {
                assert(before.to_multiset().remove(before[0]).count(x) > 0);
                assert(before.to_multiset().count(x) > 0);
            }
        }
    }
}

/// Every entry of a heap whose first entry was taken out was there before.
pub proof fn lemma_popped(before: Seq<Entry>, after: Seq<Entry>)
    requires
        before.len() > 0,
        after.to_multiset() == before.to_multiset().remove(before[0]),
    ensures
        forall|k: int| 0 <= k < after.len() ==> before.contains(#[trigger] after[k]),
{
    broadcast use vstd::multiset::group_multiset_axioms;

    before.to_multiset_ensures();
    after.to_multiset_ensures();
    assert forall|k: int| 0 <= k < after.len() implies before.contains(#[trigger] after[k]) by {
        let x = after[k];
        assert(after.contains(x));
        assert(after.to_multiset().count(x) > 0);
        assert(before.to_multiset().count(x) > 0);
    }
}

/// A bounded pool of at most `width` ranked surfaces, kept as a binary
/// max-heap: the worst entry is at index `0`.
pub struct Beam {
    pub width: usize,
    pub heap: Vec<(usize, Box)>,
}

impl View for Beam {
    type V = Seq<Entry>;

    open spec fn view(&self) -> Seq<Entry> {
        ranked(self.heap@)
    }
}

/// In an ordered heap no entry ranks worse than the first.
pub proof fn lemma_root_is_worst(s: Seq<Entry>, k: int)
    requires
        heap_ordered(s),
        0 <= k < s.len(),
    ensures
        s[k].0 <= s[0].0,
    decreases k,
{
    if k > 0 {
        assert(settled(s, k));
        lemma_root_is_worst(s, parent(k));
    }
}

/// Exchanging two entries keeps the entries as a multiset.
pub proof fn lemma_exchange(s: Seq<Entry>, i: int, j: int)
    requires
        0 <= i < s.len(),
        0 <= j < s.len(),
        i != j,
    ensures
        s.update(i, s[j]).update(j, s[i]).to_multiset() == s.to_multiset(),
{
    broadcast use vstd::multiset::group_multiset_axioms;

    let mid = s.update(i, s[j]);
    to_multiset_update(s, i, s[j]);
    to_multiset_update(mid, j, s[i]);
    assert(mid[j] == s[j]);
    s.to_multiset_ensures();
    assert(s.contains(s[i]) && s.contains(s[j]));
    let m = s.to_multiset();
    assert(m.count(s[i]) > 0 && m.count(s[j]) > 0);
    assert forall|e: Entry|
        m.insert(s[j]).remove(s[i]).insert(s[i]).remove(s[j]).count(e) == m.count(e) by {
        let m1 = m.insert(s[j]);
        let m2 = m1.remove(s[i]);
        let m3 = m2.insert(s[i]);
        assert(m1.count(s[i]) > 0);
        assert(m3.count(s[j]) > 0);
    }
    assert(m.insert(s[j]).remove(s[i]).insert(s[i]).remove(s[j]) =~= m);
}

/// Exchanges the entries at `i` and `j`.
fn exchange(heap: &mut Vec<(usize, Box)>, i: usize, j: usize)
    requires
        i < old(heap)@.len(),
        j < old(heap)@.len(),
        i != j,
    ensures
        final(heap)@ == old(heap)@.update(i as int, old(heap)@[j as int]).update(
            j as int,
            old(heap)@[i as int],
        ),
        ranked(final(heap)@) == ranked(old(heap)@).update(
            i as int,
            ranked(old(heap)@)[j as int],
        ).update(j as int, ranked(old(heap)@)[i as int]),
        ranked(final(heap)@).to_multiset() == ranked(old(heap)@).to_multiset(),
{
    let mut spare = (0usize, Box::new(0));
    core::mem::swap(&mut spare, &mut heap[i]);
    core::mem::swap(&mut spare, &mut heap[j]);
    core::mem::swap(&mut spare, &mut heap[i]);
    proof {
        assert(heap@ =~= old(heap)@.update(i as int, old(heap)@[j as int]).update(
            j as int,
            old(heap)@[i as int],
        ));
        assert(ranked(heap@) =~= ranked(old(heap)@).update(
            i as int,
            ranked(old(heap)@)[j as int],
        ).update(j as int, ranked(old(heap)@)[i as int]));
        lemma_exchange(ranked(old(heap)@), i as int, j as int);
    }
}

/// One step of sifting down keeps the heap ordered but below the entry
/// that moved.
proof fn lemma_step_down(before: Seq<Entry>, pos: int, child: int)
    requires
        0 <= pos < before.len(),
        0 < child < before.len(),
        parent(child) == pos,
        ordered_but_below(before, pos),
        before[child].0 > before[pos].0,
        forall|k: int| 0 < k < before.len() && parent(k) == pos ==> before[k].0 <= before[child].0,
    ensures
        ordered_but_below(before.update(pos, before[child]).update(child, before[pos]), child),
{
    let s = before.update(pos, before[child]).update(child, before[pos]);
    assert forall|k: int| 0 < k < s.len() && parent(k) != child implies #[trigger] settled(
        s,
        k,
    ) by {
        if parent(k) == pos {
        } else if k == pos {
            assert(bounded(before, child));
        } else {
            assert(settled(before, k));
        }
    }
    assert forall|k: int|
        0 < k < s.len() && parent(k) == child && child > 0 implies #[trigger] bounded(s, k) by {
        assert(settled(before, k));
    }
}

/// Where the entry at `pos` ranks no better than the entries below it, a
/// heap that is ordered but below `pos` is ordered.
proof fn lemma_done_down(s: Seq<Entry>, pos: int)
    requires
        ordered_but_below(s, pos),
        forall|k: int| 0 < k < s.len() && parent(k) == pos ==> s[k].0 <= s[pos].0,
    ensures
        heap_ordered(s),
{
    assert forall|k: int| 0 < k < s.len() implies #[trigger] settled(s, k) by {
        if parent(k) != pos {
            assert(settled(s, k));
        }
    }
}

/// Moves the first entry down until no entry below it ranks worse.
fn sift_down(heap: &mut Vec<(usize, Box)>)
    requires
        ordered_but_below(ranked(old(heap)@), 0),
    ensures
        heap_ordered(ranked(final(heap)@)),
        ranked(final(heap)@).to_multiset() == ranked(old(heap)@).to_multiset(),
        final(heap)@.len() == old(heap)@.len(),
{
    let len = heap.len();
    let mut pos: usize = 0;
    while pos < len / 2
        invariant
            heap@.len() == len,
            pos < len || len == 0,
            ordered_but_below(ranked(heap@), pos as int),
            ranked(heap@).to_multiset() == ranked(old(heap)@).to_multiset(),
        ensures
            heap@.len() == len,
            heap_ordered(ranked(heap@)),
            ranked(heap@).to_multiset() == ranked(old(heap)@).to_multiset(),
        decreases len - pos,
    {
        let left = 2 * pos + 1;
        let right = left + 1;
        let child = if right < len && heap[right].0 > heap[left].0 {
            right
        } else {
            left
        };
        let ghost before = ranked(heap@);
        assert forall|k: int| 0 < k < before.len() && parent(k) == pos implies before[k].0
            <= before[child as int].0 by {
            assert(k == left || k == right);
        }
        if heap[child].0 <= heap[pos].0 {
            proof {
                lemma_done_down(before, pos as int);
            }
            break ;
        }
        exchange(heap, pos, child);
        proof {
            lemma_step_down(before, pos as int, child as int);
        }
        pos = child;
    }
    proof {
        if pos >= len / 2 {
            lemma_done_down(ranked(heap@), pos as int);
        }
    }
}

/// One step of sifting up keeps the heap ordered but above the entry that
/// moved.
proof fn lemma_step_up(before: Seq<Entry>, pos: int)
    requires
        0 < pos < before.len(),
        ordered_but_above(before, pos),
        before[parent(pos)].0 < before[pos].0,
    ensures
        ordered_but_above(
            before.update(parent(pos), before[pos]).update(pos, before[parent(pos)]),
            parent(pos),
        ),
{
    let above = parent(pos);
    let s = before.update(above, before[pos]).update(pos, before[above]);
    assert forall|k: int| 0 < k < s.len() && k != above implies #[trigger] settled(s, k) by {
        if k == pos {
        } else if parent(k) == above {
            assert(settled(before, k));
        } else if parent(k) == pos {
            assert(bounded(before, k));
        } else {
            assert(settled(before, k));
        }
    }
    assert forall|k: int|
        0 < k < s.len() && parent(k) == above && above > 0 implies #[trigger] bounded(s, k) by {
        assert(settled(before, above));
        if k != pos {
            assert(settled(before, k));
        }
    }
}

/// Where the entry at `pos` ranks no worse than the one above it, a heap
/// that is ordered but above `pos` is ordered.
proof fn lemma_done_up(s: Seq<Entry>, pos: int)
    requires
        ordered_but_above(s, pos),
        0 <= pos < s.len(),
        pos > 0 ==> s[parent(pos)].0 >= s[pos].0,
    ensures
        heap_ordered(s),
{
    assert forall|k: int| 0 < k < s.len() implies #[trigger] settled(s, k) by {
        if k != pos {
            assert(settled(s, k));
        }
    }
}

/// Moves the last entry up until the entry above it ranks no better.
fn sift_up(heap: &mut Vec<(usize, Box)>)
    requires
        old(heap)@.len() > 0,
        ordered_but_above(ranked(old(heap)@), old(heap)@.len() - 1),
    ensures
        heap_ordered(ranked(final(heap)@)),
        ranked(final(heap)@).to_multiset() == ranked(old(heap)@).to_multiset(),
        final(heap)@.len() == old(heap)@.len(),
{
    let len = heap.len();
    let mut pos: usize = len - 1;
    while pos > 0
        invariant
            heap@.len() == len,
            pos < len,
            ordered_but_above(ranked(heap@), pos as int),
            ranked(heap@).to_multiset() == ranked(old(heap)@).to_multiset(),
        ensures
            heap@.len() == len,
            heap_ordered(ranked(heap@)),
            ranked(heap@).to_multiset() == ranked(old(heap)@).to_multiset(),
        decreases pos,
    {
        let above = (pos - 1) / 2;
        let ghost before = ranked(heap@);
        if heap[above].0 >= heap[pos].0 {
            proof {
                lemma_done_up(before, pos as int);
            }
            break ;
        }
        exchange(heap, above, pos);
        proof {
            lemma_step_up(before, pos as int);
        }
        pos = above;
    }
    proof {
        if pos == 0 {
            lemma_done_up(ranked(heap@), 0);
        }
    }
}

/// A heap with one more entry at its end is ordered but above that entry.
proof fn lemma_pushed(before: Seq<Entry>, e: Entry)
    requires
        heap_ordered(before),
    ensures
        ordered_but_above(before.push(e), before.len() as int),
{
    let s = before.push(e);
    assert forall|k: int| 0 < k < s.len() && k != before.len() implies #[trigger] settled(
        s,
        k,
    ) by {
        assert(settled(before, k));
    }
}

/// A heap whose first entry was replaced is ordered but below that entry.
proof fn lemma_replaced(before: Seq<Entry>, e: Entry)
    requires
        heap_ordered(before),
        before.len() > 0,
    ensures
        ordered_but_below(before.update(0, e), 0),
{
    let s = before.update(0, e);
    assert forall|k: int| 0 < k < s.len() && parent(k) != 0 implies #[trigger] settled(s, k) by {
        assert(settled(before, k));
    }
}

/// A heap whose first entry was replaced by its last, which left, is
/// ordered but below the first entry, and has lost the old first entry.
proof fn lemma_removed(before: Seq<Entry>)
    requires
        heap_ordered(before),
        before.len() > 0,
    ensures
        ordered_but_below(before.update(0, before.last()).drop_last(), 0),
        before.update(0, before.last()).drop_last().to_multiset() == before.to_multiset().remove(
            before[0],
        ),
{
    broadcast use vstd::multiset::group_multiset_axioms;

    let n = before.len() as int;
    let mid = before.update(0, before.last());
    let s = mid.drop_last();
    assert forall|k: int| 0 < k < s.len() && parent(k) != 0 implies #[trigger] settled(s, k) by {
        assert(settled(before, k));
    }
    let m = before.to_multiset();
    before.to_multiset_ensures();
    mid.to_multiset_ensures();
    to_multiset_update(before, 0, before.last());
    assert(s =~= mid.remove(n - 1));
    assert(mid.remove(n - 1).to_multiset() =~= mid.to_multiset().remove(mid[n - 1]));
    assert(before.contains(before[0]) && before.contains(before[n - 1]));
    assert(m.count(before[0]) > 0);
    assert forall|e: Entry|
        m.insert(before.last()).remove(before[0]).remove(mid[n - 1]).count(e) == m.remove(
            before[0],
        ).count(e) by {
        let m1 = m.insert(before.last());
        let m2 = m1.remove(before[0]);
        assert(mid.contains(mid[n - 1]));
        assert(m2.count(mid[n - 1]) > 0);
    }
    assert(mid.to_multiset().remove(mid[n - 1]) =~= m.remove(before[0]));
}

/// Replacing the first entry takes it out of the multiset and puts the new
/// one in.
proof fn lemma_replaced_entries(before: Seq<Entry>, e: Entry)
    requires
        before.len() > 0,
    ensures
        before.update(0, e).to_multiset() == before.to_multiset().remove(before[0]).insert(e),
{
    broadcast use vstd::multiset::group_multiset_axioms;

    let m = before.to_multiset();
    before.to_multiset_ensures();
    to_multiset_update(before, 0, e);
    assert(before.contains(before[0]));
    assert(m.count(before[0]) > 0);
    assert(m.insert(e).remove(before[0]) =~= m.remove(before[0]).insert(e));
}

impl Beam {
    /// The beam holds no more than its width and is ordered as a heap.
    pub open spec fn wf(&self) -> bool {
        self@.len() <= self.width && heap_ordered(self@)
    }

    /// The entries without their order.
    pub open spec fn entries(&self) -> Multiset<Entry> {
        self@.to_multiset()
    }

    /// An empty beam that will hold up to `width` entries.
    pub fn new(width: usize) -> (beam: Beam)
        ensures
            beam.wf(),
            beam.width == width,
            beam@ == Seq::<Entry>::empty(),
    {
        let beam = Beam { width, heap: Vec::new() };
        assert(beam@ =~= Seq::<Entry>::empty());
        beam
    }

    /// The number of entries.
    pub fn len(&self) -> (n: usize)
        ensures
            n == self@.len(),
    {
        self.heap.len()
    }

    /// Whether the beam holds no entry.
    pub fn is_empty(&self) -> (none: bool)
        ensures
            none == (self@.len() == 0),
    {
        self.heap.len() == 0
    }

    /// Offers `surface` with rank `score`.
    ///
    /// A beam with room takes it in. A full beam holds on to what it has
    /// unless the newcomer ranks strictly better than its worst entry, which
    /// then leaves in its favour.
    pub fn push(&mut self, score: usize, surface: Box)
        requires
            old(self).wf(),
        ensures
            final(self).wf(),
            final(self).width == old(self).width,
            admits(old(self)@, old(self).width, (score, surface@), final(self)@),
    {
        let ghost before = self@;
        if self.heap.len() < self.width {
            self.heap.push((score, surface));
            proof {
                assert(self@ =~= before.push((score, surface@)));
                lemma_pushed(before, (score, surface@));
                before.to_multiset_ensures();
            }
            sift_up(&mut self.heap);
        } else if self.width > 0 && score < self.heap[0].0 {
            self.heap.push((score, surface));
            let _ = self.heap.swap_remove(0);
            proof {
                assert(self@ =~= before.update(0, (score, surface@)));
                lemma_replaced(before, (score, surface@));
                lemma_replaced_entries(before, (score, surface@));
            }
            sift_down(&mut self.heap);
        }
    }

    /// Takes the worst entry out; `None` when the beam is empty.
    pub fn pop(&mut self) -> (popped: Option<(usize, Box)>)
        requires
            old(self).wf(),
        ensures
            final(self).wf(),
            final(self).width == old(self).width,
            old(self)@.len() == 0 ==> popped is None && final(self)@ == old(self)@,
            old(self)@.len() > 0 ==> (popped matches Some(e) && (e.0, e.1@) == old(self)@[0]),
            old(self)@.len() > 0 ==> final(self).entries() == old(self).entries().remove(
                old(self)@[0],
            ),
            old(self)@.len() > 0 ==> final(self)@.len() == old(self)@.len() - 1,
            forall|k: int|
                0 <= k < old(self)@.len() ==> (#[trigger] old(self)@[k]).0 <= old(self)@[0].0,
    {
        proof {
            assert forall|k: int| 0 <= k < self@.len() implies (#[trigger] self@[k]).0
                <= self@[0].0 by {
                lemma_root_is_worst(self@, k);
            }
        }
        if self.heap.len() == 0 {
            return None;
        }
        let ghost before = self@;
        let worst = self.heap.swap_remove(0);
        proof {
            assert(self@ =~= before.update(0, before.last()).drop_last());
            lemma_removed(before);
        }
        sift_down(&mut self.heap);
        Some(worst)
    }

    /// Empties the beam into a ranking: worst entry first, best entry last.
    pub fn ranking(self) -> (plans: VecDeque<(usize, Box)>)
        requires
            self.wf(),
        ensures
            ranked(plans@).to_multiset() == self.entries(),
            plans@.len() == self@.len(),
            forall|a: int, b: int|
                0 <= a <= b < plans@.len() ==> (#[trigger] plans@[a]).0 >= (#[trigger] plans@[b]).0,
    {
        broadcast use vstd::multiset::group_multiset_axioms;

        let mut beam = self;
        let mut plans: VecDeque<(usize, Box)> = VecDeque::new();
        proof {
            assert(ranked(plans@) =~= Seq::<Entry>::empty());
            ranked(plans@).to_multiset_ensures();
            assert(ranked(plans@).to_multiset().add(beam.entries()) =~= self.entries());
        }
        loop
            invariant
                beam.wf(),
                ranked(plans@).to_multiset().add(beam.entries()) == self.entries(),
                plans@.len() + beam@.len() == self@.len(),
                forall|a: int, b: int|
                    0 <= a <= b < plans@.len() ==> (#[trigger] plans@[a]).0 >= (
                    #[trigger] plans@[b]).0,
                forall|a: int, k: int|
                    0 <= a < plans@.len() && 0 <= k < beam@.len() ==> (#[trigger] plans@[a]).0 >= (
                    #[trigger] beam@[k]).0,
            ensures
                ranked(plans@).to_multiset() == self.entries(),
                plans@.len() == self@.len(),
                forall|a: int, b: int|
                    0 <= a <= b < plans@.len() ==> (#[trigger] plans@[a]).0 >= (
                    #[trigger] plans@[b]).0,
            decreases beam@.len(),
        {
            let ghost pool = beam@;
            let ghost done = plans@;
            let popped = beam.pop();
            if popped.is_none() {
                proof {
                    pool.to_multiset_ensures();
                    assert(pool.to_multiset().len() == 0);
                    assert(ranked(plans@).to_multiset().add(pool.to_multiset()) =~= ranked(
                        plans@,
                    ).to_multiset());
                }
                break ;
            }
            let e = popped.unwrap();
            plans.push_back(e);
            proof {
                lemma_popped(pool, beam@);
                pool.to_multiset_ensures();
                ranked(done).to_multiset_ensures();
                assert(ranked(plans@) =~= ranked(done).push(pool[0]));
                assert(pool.contains(pool[0]));
                assert(ranked(done).push(pool[0]).to_multiset().add(
                    pool.to_multiset().remove(pool[0]),
                ) =~= ranked(done).to_multiset().add(pool.to_multiset()));
                assert forall|a: int, k: int|
                    0 <= a < plans@.len() && 0 <= k < beam@.len() implies (#[trigger] plans@[a]).0
                    >= (#[trigger] beam@[k]).0 by {
                    let m = choose|m: int| 0 <= m < pool.len() && pool[m] == beam@[k];
                    if a < done.len() {
                        assert(done[a].0 >= pool[m].0);
                    } else {
                        lemma_root_is_worst(pool, m);
                    }
                }
                assert forall|a: int, b: int| 0 <= a <= b < plans@.len() implies (
                #[trigger] plans@[a]).0 >= (#[trigger] plans@[b]).0 by {
                    if b == done.len() && a < b {
                        assert(done[a].0 >= pool[0].0);
                    }
                }
            }
        }
        plans
    }
}

} // verus!
