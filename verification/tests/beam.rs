use beam_packing::beam::Beam;
use beam_packing::surface::Box;

fn tagged(tag: usize) -> Box {
    Box::new(tag)
}

fn scores(beam: &Beam) -> Vec<usize> {
    let mut all: Vec<usize> = beam.heap.iter().map(|e| e.0).collect();
    all.sort();
    all
}

#[test]
fn new_beam_is_empty() {
    let beam = Beam::new(3);
    assert_eq!(beam.width, 3);
    assert_eq!(beam.len(), 0);
    assert!(beam.is_empty());
}

#[test]
fn beam_with_room_takes_every_entry() {
    let mut beam = Beam::new(4);
    for s in [5, 1, 9, 3] {
        beam.push(s, tagged(s));
    }
    assert_eq!(beam.len(), 4);
    assert!(!beam.is_empty());
    assert_eq!(scores(&beam), vec![1, 3, 5, 9]);
    assert_eq!(beam.heap[0].0, 9);
}

#[test]
fn full_beam_gives_up_its_worst_entry() {
    let mut beam = Beam::new(3);
    for s in [5, 1, 9, 3, 7, 2] {
        beam.push(s, tagged(s));
        assert!(beam.len() <= 3);
    }
    assert_eq!(scores(&beam), vec![1, 2, 3]);
    for e in beam.heap.iter() {
        assert_eq!(e.0, e.1.ref_h);
    }
}

#[test]
fn full_beam_refuses_a_worse_entry() {
    let mut beam = Beam::new(2);
    beam.push(4, tagged(40));
    beam.push(6, tagged(60));
    beam.push(8, tagged(80));
    assert_eq!(scores(&beam), vec![4, 6]);
}

#[test]
fn full_beam_keeps_the_earlier_of_equals() {
    let mut beam = Beam::new(1);
    beam.push(7, tagged(1));
    beam.push(7, tagged(2));
    assert_eq!(beam.len(), 1);
    assert_eq!(beam.heap[0].0, 7);
    assert_eq!(beam.heap[0].1.ref_h, 1);
}

#[test]
fn beam_of_width_zero_stays_empty() {
    let mut beam = Beam::new(0);
    beam.push(1, tagged(1));
    beam.push(0, tagged(0));
    assert!(beam.is_empty());
    assert!(beam.pop().is_none());
}

#[test]
fn pop_takes_the_worst_first() {
    let mut beam = Beam::new(8);
    for s in [5, 1, 9, 3, 7, 2, 8, 4] {
        beam.push(s, tagged(s));
    }
    let mut out = vec![];
    while let Some((s, b)) = beam.pop() {
        assert_eq!(s, b.ref_h);
        out.push(s);
    }
    assert_eq!(out, vec![9, 8, 7, 5, 4, 3, 2, 1]);
    assert!(beam.is_empty());
}

#[test]
fn pop_on_empty_beam_gives_nothing() {
    let mut beam = Beam::new(2);
    assert!(beam.pop().is_none());
    assert_eq!(beam.len(), 0);
}

#[test]
fn ranking_puts_the_best_last() {
    let mut beam = Beam::new(5);
    for s in [5, 1, 9, 3, 7, 2] {
        beam.push(s, tagged(s));
    }
    let plans = beam.ranking();
    let order: Vec<usize> = plans.iter().map(|e| e.0).collect();
    assert_eq!(order, vec![7, 5, 3, 2, 1]);
    for e in plans.iter() {
        assert_eq!(e.0, e.1.ref_h);
    }
}

#[test]
fn ranking_of_empty_beam_is_empty() {
    assert!(Beam::new(3).ranking().is_empty());
}
