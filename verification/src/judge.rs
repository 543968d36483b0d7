//! The judge's side of a turn: the size that a submitted plan is answered
//! with, measured outside or simulated from the true item sizes.

use crate::geometry::Item;
use crate::surface::{Box, Surface};
use vstd::prelude::*;

verus! {

/// The judge of a run of `t` turns over `n` items.
///
/// In a simulation `wh` holds the true item sizes, `dwh` the error that the
/// judge adds to its measurement in each turn, and `real_box` the surface
/// that the true sizes have built since the last answer. Against a judge
/// outside, `wh` and `dwh` are empty and `real_box` stays empty.
pub struct Judge {
    pub n: usize,
    pub t: usize,
    pub s: usize,
    pub wh: Vec<Item>,
    pub dwh: Vec<(isize, isize)>,
    pub turn: usize,
    pub real_box: Box,
}

/// The mathematical content of a [`Judge`].
#[verifier::ext_equal]
pub struct JudgeState {
    pub n: usize,
    pub t: usize,
    pub s: usize,
    pub wh: Seq<Item>,
    pub dwh: Seq<(isize, isize)>,
    pub turn: usize,
    pub real_box: Surface,
}

impl View for Judge {
    type V = JudgeState;

    open spec fn view(&self) -> JudgeState {
        JudgeState {
            n: self.n,
            t: self.t,
            s: self.s,
            wh: self.wh@,
            dwh: self.dwh@,
            turn: self.turn,
            real_box: self.real_box@,
        }
    }
}

/// A measured side with the judge's error added; a result that is not
/// positive counts as `1`.
pub open spec fn perturbed(side: usize, error: isize) -> int {
    if side + error > 0 {
        side + error
    } else {
        1
    }
}

impl JudgeState {
    /// The size that the judge answers with in this turn: the size measured
    /// outside where there is one, else the true bounding box with this
    /// turn's error added to either side.
    pub open spec fn response(self, measured: Option<(usize, usize)>) -> (int, int) {
        match measured {
            Some(size) => (size.0 as int, size.1 as int),
            None => (
                perturbed(self.real_box.max_x, self.dwh[self.turn as int].0),
                perturbed(self.real_box.max_y, self.dwh[self.turn as int].1),
            ),
        }
    }

    /// Whether the judge can answer within the machine integers: the turn
    /// counter can advance and, in a simulation, this turn has an error
    /// recorded and the answer fits.
    pub open spec fn answers(self, measured: Option<(usize, usize)>) -> bool {
        &&& self.turn < usize::MAX
        &&& measured is None ==> {
            &&& self.turn < self.dwh.len()
            &&& self.response(measured).0 <= usize::MAX
            &&& self.response(measured).1 <= usize::MAX
        }
    }

    /// The judge after an answer: one turn on, with an empty true surface.
    pub open spec fn answered(self) -> JudgeState {
        JudgeState {
            turn: (self.turn + 1) as usize,
            real_box: Surface::empty(self.real_box.ref_h),
            ..self
        }
    }
}

/// A measured side with the judge's error added; a result that is not
/// positive counts as `1`.
pub fn perturb(side: usize, error: isize) -> (moved: usize)
    requires
        side + error <= usize::MAX,
    ensures
        moved == perturbed(side, error),
{
    let sum: i128 = side as i128 + error as i128;
    if sum > 0 {
        sum as usize
    } else {
        1
    }
}

impl Judge {
    /// A judge before the first turn. `wh` and `dwh` are the true sizes and
    /// the per-turn errors of a simulation, both empty without one.
    pub fn new(n: usize, t: usize, s: usize, wh: Vec<Item>, dwh: Vec<(isize, isize)>) -> (judge:
        Judge)
        ensures
            judge@ == (JudgeState {
                n,
                t,
                s,
                wh: wh@,
                dwh: dwh@,
                turn: 0,
                real_box: Surface::empty(0),
            }),
            judge@.real_box.wf(),
    {
        Judge { n, t, s, wh, dwh, turn: 0, real_box: Box::new(0) }
    }

    /// Whether [`Judge::ans`] can answer this turn.
    pub fn answers(&self, measured: Option<(usize, usize)>) -> (ok: bool)
        ensures
            ok == self@.answers(measured),
    {
        if self.turn == usize::MAX {
            return false;
        }
        if measured.is_some() {
            return true;
        }
        if self.turn >= self.dwh.len() {
            return false;
        }
        let (dw, dh) = self.dwh[self.turn];
        let limit = usize::MAX as i128;
        self.real_box.max_x as i128 + dw as i128 <= limit && self.real_box.max_y as i128
            + dh as i128 <= limit
    }

    /// Answers the plan of this turn and moves on to the next.
    ///
    /// `measured` is the size that was measured outside; without it the
    /// answer is simulated from the true surface.
    pub fn ans(&mut self, measured: Option<(usize, usize)>) -> (size: (usize, usize))
        requires
            old(self)@.answers(measured),
        ensures
            (size.0 as int, size.1 as int) == old(self)@.response(measured),
            final(self)@ == old(self)@.answered(),
            final(self)@.real_box.wf(),
    {
        let size = match measured {
            Some(size) => size,
            None => {
                let (dw, dh) = self.dwh[self.turn];
                (perturb(self.real_box.max_x, dw), perturb(self.real_box.max_y, dh))
            },
        };
        self.turn += 1;
        self.real_box = Box::new(self.real_box.ref_h);
        size
    }
}

} // verus!
