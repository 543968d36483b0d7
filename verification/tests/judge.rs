use beam_packing::judge::{perturb, Judge};

#[test]
fn new_judge_is_before_the_first_turn() {
    let judge = Judge::new(2, 3, 4, vec![(1, 2), (3, 4)], vec![(0, 0), (1, -1), (2, 2)]);
    assert_eq!((judge.n, judge.t, judge.s, judge.turn), (2, 3, 4, 0));
    assert_eq!(judge.wh, vec![(1, 2), (3, 4)]);
    assert_eq!(judge.dwh, vec![(0, 0), (1, -1), (2, 2)]);
    assert!(judge.real_box.status.is_empty());
    assert_eq!(judge.real_box.ref_h, 0);
}

#[test]
fn perturbation_adds_the_error() {
    assert_eq!(perturb(10, 3), 13);
    assert_eq!(perturb(10, -3), 7);
    assert_eq!(perturb(10, 0), 10);
}

#[test]
fn perturbation_floors_at_one() {
    assert_eq!(perturb(10, -10), 1);
    assert_eq!(perturb(10, -11), 1);
    assert_eq!(perturb(0, 0), 1);
    assert_eq!(perturb(0, isize::MIN), 1);
    assert_eq!(perturb(1, 0), 1);
    assert_eq!(perturb(2, -1), 1);
}

#[test]
fn perturbation_reaches_the_largest_integer() {
    assert_eq!(perturb(usize::MAX, 0), usize::MAX);
    assert_eq!(perturb(usize::MAX - 5, 5), usize::MAX);
    assert_eq!(perturb(usize::MAX, isize::MIN), usize::MAX - (isize::MAX as usize) - 1);
}

#[test]
fn zero_perturbation_returns_the_true_size() {
    let mut judge = Judge::new(2, 1, 0, vec![(3, 4), (2, 2)], vec![(0, 0)]);
    judge.real_box.add((3, 4), 0, 'L', 0);
    judge.real_box.add((2, 2), 0, 'L', 1);
    assert_eq!((judge.real_box.max_x, judge.real_box.max_y), (5, 4));
    assert_eq!(judge.ans(None), (5, 4));
}

#[test]
fn simulated_answer_applies_this_turns_error() {
    let mut judge = Judge::new(1, 2, 0, vec![(3, 4)], vec![(2, -1), (-9, 9)]);
    judge.real_box.add((3, 4), 0, 'L', 0);
    assert_eq!(judge.ans(None), (5, 3));
    judge.real_box.add((3, 4), 0, 'L', 0);
    assert_eq!(judge.ans(None), (1, 13));
}

#[test]
fn answer_moves_to_the_next_turn_and_clears_the_true_surface() {
    let mut judge = Judge::new(1, 2, 0, vec![(3, 4)], vec![(0, 0), (0, 0)]);
    judge.real_box.ref_h = 6;
    judge.real_box.add((3, 4), 0, 'L', 0);
    let _ = judge.ans(None);
    assert_eq!(judge.turn, 1);
    assert!(judge.real_box.status.is_empty());
    assert!(judge.real_box.order.is_empty());
    assert_eq!((judge.real_box.max_x, judge.real_box.max_y), (0, 0));
    assert_eq!(judge.real_box.ref_h, 6);
    assert_eq!(judge.wh, vec![(3, 4)]);
    assert_eq!(judge.dwh, vec![(0, 0), (0, 0)]);
}

#[test]
fn empty_true_surface_is_answered_with_unit_size() {
    let mut judge = Judge::new(1, 1, 0, vec![(3, 4)], vec![(0, 0)]);
    assert_eq!(judge.ans(None), (1, 1));
}

#[test]
fn measured_size_is_handed_through() {
    let mut judge = Judge::new(1, 2, 0, vec![], vec![]);
    assert_eq!(judge.ans(Some((12, 34))), (12, 34));
    assert_eq!(judge.ans(Some((0, 0))), (0, 0));
    assert_eq!(judge.turn, 2);
}
