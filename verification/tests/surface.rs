use beam_packing::surface::Box;

fn overlap(a: (usize, usize, usize, usize), b: (usize, usize, usize, usize)) -> bool {
    a.0 < b.2 && b.0 < a.2 && a.1 < b.3 && b.1 < a.3
}

fn sample() -> Box {
    let mut b = Box::new(3);
    b.add((5, 2), 0, 'L', 0);
    b.add((2, 4), 1, 'L', 0);
    b
}

#[test]
fn new_surface_is_empty() {
    let b = Box::new(9);
    assert!(b.goods.is_empty());
    assert!(b.status.is_empty());
    assert!(b.col_info.is_empty());
    assert!(b.area_info.is_empty());
    assert!(b.order.is_empty());
    assert_eq!((b.max_x, b.max_y, b.start_col_i, b.ref_h), (0, 0, 0, 9));
    assert_eq!(b.get_score(), 0);
}

#[test]
fn single_item_unrotated_at_origin() {
    let mut b = Box::new(3);
    b.add((3, 4), 0, 'L', 0);
    assert_eq!(b.status, vec![(0, 0, 3, 4)]);
    assert_eq!(b.order, vec![(0, 'L', -1)]);
    assert_eq!((b.max_x, b.max_y), (3, 4));
    assert_eq!(b.get_score(), 7);
}

#[test]
fn second_square_upwards_against_first() {
    let mut b = Box::new(2);
    b.add((2, 2), 0, 'U', 0);
    b.add((2, 2), 0, 'U', 0);
    assert_eq!(b.status, vec![(0, 0, 2, 2), (2, 0, 4, 2)]);
    assert_eq!(b.order, vec![(0, 'U', -1), (0, 'U', 0)]);
    assert_eq!((b.max_x, b.max_y), (4, 2));
    assert_eq!(b.get_score(), 6);
}

#[test]
fn second_square_leftwards_against_first() {
    let mut b = Box::new(2);
    b.add((2, 2), 0, 'L', 0);
    b.add((2, 2), 0, 'L', 0);
    assert_eq!(b.status, vec![(0, 0, 2, 2), (0, 2, 2, 4)]);
    assert_eq!((b.max_x, b.max_y), (2, 4));
    assert_eq!(b.get_score(), 6);
}

#[test]
fn column_aggregate_follows_placements() {
    let b = sample();
    assert_eq!(b.goods, vec![(5, 2), (2, 4)]);
    assert_eq!(b.status, vec![(0, 0, 5, 2), (0, 2, 4, 4)]);
    assert_eq!(b.col_info, vec![(5, 4, 1)]);
    assert_eq!(b.area_info, vec![18]);
    assert_eq!(b.order, vec![(0, 'L', -1), (1, 'L', 0)]);
    assert_eq!((b.max_x, b.max_y), (5, 4));
}

#[test]
fn column_retires_once_higher_than_reference() {
    let mut b = Box::new(3);
    b.add((5, 2), 0, 'L', 0);
    assert_eq!(b.start_col_i, 0);
    b.add((2, 4), 1, 'L', 0);
    assert_eq!(b.start_col_i, 1);
}

#[test]
fn column_at_reference_height_stays_open() {
    let mut b = Box::new(4);
    b.add((5, 2), 0, 'L', 0);
    b.add((2, 4), 1, 'L', 0);
    assert_eq!(b.col_info, vec![(5, 4, 1)]);
    assert_eq!(b.start_col_i, 0);
}

#[test]
fn new_column_starts_right_of_what_it_meets() {
    let mut b = sample();
    b.add((1, 1), 0, 'L', 1);
    assert_eq!(b.status[2], (5, 0, 6, 1));
    assert_eq!(b.order[2], (0, 'L', -1));
    assert_eq!(b.col_info, vec![(5, 4, 1), (6, 1, 2)]);
    assert_eq!(b.area_info, vec![18, 1]);
    assert_eq!((b.max_x, b.max_y), (6, 4));
}

#[test]
fn rectangle_left_of_neighbour_column_is_not_counted() {
    let mut b = sample();
    b.add((2, 3), 0, 'U', 1);
    assert_eq!(b.status[2], (0, 4, 2, 7));
    assert_eq!(b.col_info, vec![(5, 4, 1), (0, 0, 2)]);
    assert_eq!(b.area_info, vec![18, 0]);
    assert_eq!(b.start_col_i, 1);
    assert_eq!((b.max_x, b.max_y), (5, 7));
}

#[test]
fn nonzero_rotation_swaps_sides() {
    let b = Box::new(0);
    assert_eq!(b.put((3, 4), 0, 'L', -1), (0, 0, 3, 4));
    assert_eq!(b.put((3, 4), 1, 'L', -1), (0, 0, 4, 3));
    assert_eq!(b.put((3, 4), 7, 'L', -1), (0, 0, 4, 3));
}

#[test]
fn any_direction_but_up_slides_left() {
    let b = sample();
    assert_eq!(b.put((1, 1), 0, 'L', 1), (0, 4, 1, 5));
    assert_eq!(b.put((1, 1), 0, 'x', 1), (0, 4, 1, 5));
    assert_eq!(b.put((1, 1), 0, 'U', 1), (4, 2, 5, 3));
}

#[test]
fn try_put_agrees_with_put_where_the_corners_fit() {
    let b = sample();
    assert_eq!(b.try_put((1, 1), 0, 'L', 1), Some((0, 4, 1, 5)));
    assert_eq!(b.try_put((1, 1), 0, 'U', 1), Some((4, 2, 5, 3)));
    assert_eq!(b.try_put((3, 4), 1, 'L', -1), Some((5, 0, 9, 3)));
    assert_eq!(b.try_put((usize::MAX - 5, 2), 0, 'L', -1), Some((5, 0, usize::MAX, 2)));
}

#[test]
fn try_put_finds_nothing_beyond_the_integers() {
    let b = sample();
    assert_eq!(b.try_put((usize::MAX - 4, 2), 0, 'L', -1), None);
    assert_eq!(b.try_put((1, usize::MAX - 3), 0, 'L', 1), None);
    assert_eq!(b.try_put((usize::MAX - 3, 1), 0, 'U', 1), None);
    assert_eq!(b.try_put((5, usize::MAX - 1), 0, 'U', -1), None);
    assert_eq!(b.try_put((5, usize::MAX - 4), 0, 'U', -1), Some((0, 4, 5, usize::MAX)));
}

#[test]
fn put_does_not_change_the_surface() {
    let b = sample();
    let before = b.clone();
    let _ = b.put((9, 9), 1, 'U', 0);
    assert_eq!(b.status, before.status);
    assert_eq!(b.order, before.order);
}

#[test]
fn skyline_queries_take_the_largest_edge_in_range() {
    let b = sample();
    assert_eq!(b.max_x(0, 2), 5);
    assert_eq!(b.max_x(2, 4), 4);
    assert_eq!(b.max_x(1, 3), 5);
    assert_eq!(b.max_x(4, 9), 0);
    assert_eq!(b.max_y(0, 4), 4);
    assert_eq!(b.max_y(4, 5), 2);
    assert_eq!(b.max_y(5, 9), 0);
}

#[test]
fn skyline_queries_ignore_empty_ranges_and_touching_edges() {
    let b = sample();
    assert_eq!(b.max_x(2, 2), 0);
    assert_eq!(b.max_x(3, 3), 4);
    assert_eq!(b.max_x(0, 0), 0);
    assert_eq!(b.max_y(5, 5), 0);
    assert_eq!(Box::new(1).max_x(0, 100), 0);
    assert_eq!(Box::new(1).max_y(0, 100), 0);
}

#[test]
fn placements_never_overlap() {
    let mut b = Box::new(4);
    let items = [(3, 2), (1, 5), (4, 4), (2, 2), (6, 1), (1, 1), (3, 3), (2, 7)];
    for (k, wh) in items.iter().enumerate() {
        let col = if k % 3 == 0 { b.col_info.len() } else { k % b.col_info.len() };
        let d = if k % 2 == 0 { 'L' } else { 'U' };
        assert!(b.fits(*wh, k % 2, d, col));
        b.add(*wh, k % 2, d, col);
    }
    assert_eq!(b.status.len(), items.len());
    for i in 0..b.status.len() {
        for j in 0..b.status.len() {
            if i != j {
                assert!(!overlap(b.status[i], b.status[j]));
            }
        }
    }
}

#[test]
fn bounding_box_never_shrinks() {
    let mut b = Box::new(4);
    let items = [(3, 2), (1, 5), (4, 4), (2, 2), (6, 1), (1, 1)];
    for (k, wh) in items.iter().enumerate() {
        let (x, y) = (b.max_x, b.max_y);
        let col = k % (b.col_info.len() + 1);
        b.add(*wh, k % 2, 'L', col);
        assert!(b.max_x >= x && b.max_y >= y);
    }
}

#[test]
fn score_matches_the_rectangles() {
    let mut b = Box::new(4);
    for (k, wh) in [(3, 2), (1, 5), (4, 4), (2, 2)].iter().enumerate() {
        b.add(*wh, k % 2, 'L', k % (b.col_info.len() + 1));
        let right = b.status.iter().map(|r| r.2).max().unwrap();
        let bottom = b.status.iter().map(|r| r.3).max().unwrap();
        assert_eq!(b.get_score(), right + bottom);
    }
}

#[test]
fn same_decisions_give_the_same_surface() {
    let items = [(3, 2), (1, 5), (4, 4), (2, 2), (6, 1)];
    let cols = [0, 0, 1, 1, 2];
    let mut a = Box::new(5);
    let mut b = Box::new(5);
    for k in 0..items.len() {
        a.add(items[k], k % 2, 'L', cols[k]);
    }
    for k in 0..items.len() {
        b.add(items[k], k % 2, 'L', cols[k]);
    }
    assert_eq!(a.order, b.order);
    assert_eq!(a.status, b.status);
    assert_eq!(a.col_info, b.col_info);
    assert_eq!(a.get_score(), b.get_score());
}

#[test]
fn recorded_decisions_rebuild_the_rectangles() {
    let items = [(3, 2), (1, 5), (4, 4), (2, 2), (6, 1)];
    let cols = [0, 0, 1, 1, 2];
    let mut a = Box::new(5);
    for k in 0..items.len() {
        a.add(items[k], k % 2, 'L', cols[k]);
    }
    let mut b = Box::new(5);
    for k in 0..items.len() {
        let (r, d, pred) = a.order[k];
        let rect = b.put(items[k], r, d, pred);
        b.goods.push(items[k]);
        b.order.push((r, d, pred));
        b.status.push(rect);
    }
    assert_eq!(a.status, b.status);
}

#[test]
fn predecessors_name_earlier_rectangles() {
    let mut b = Box::new(2);
    for (k, wh) in [(3, 2), (1, 5), (4, 4), (2, 2), (6, 1)].iter().enumerate() {
        b.add(*wh, 0, 'L', k % (b.col_info.len() + 1));
    }
    for (k, d) in b.order.iter().enumerate() {
        assert!(d.2 == -1 || (0 <= d.2 && (d.2 as usize) < k));
    }
}

#[test]
fn fits_refuses_a_column_that_does_not_exist() {
    let b = sample();
    assert!(b.fits((1, 1), 0, 'L', 0));
    assert!(b.fits((1, 1), 0, 'L', 1));
    assert!(!b.fits((1, 1), 0, 'L', 2));
}

#[test]
fn fits_refuses_corners_beyond_the_integers() {
    let b = sample();
    assert!(!b.fits((1, usize::MAX), 0, 'L', 0));
    assert!(!b.fits((usize::MAX, 1), 0, 'U', 0));
    assert!(b.fits((usize::MAX, 0), 0, 'L', 1));
    assert!(!b.fits((usize::MAX, 2), 0, 'L', 1));
}

#[test]
fn fits_refuses_an_area_beyond_the_integers() {
    let b = Box::new(0);
    let half = 1usize << (usize::BITS / 2);
    assert!(b.fits((half - 1, half), 0, 'L', 0));
    assert!(!b.fits((half, half), 0, 'L', 0));
    assert!(!sample().fits((usize::MAX, 1), 0, 'L', 0));
}

#[test]
fn equal_densities_keep_the_item_unrotated() {
    let b = Box::new(10);
    assert_eq!(b.opt_instruction((3, 4), 'L', 0), (0, 'L'));
    assert_eq!(b.opt_instruction((2, 2), 'U', 0), (0, 'U'));
}

#[test]
fn denser_rotation_is_chosen() {
    let mut b = Box::new(10);
    b.add((5, 2), 0, 'L', 0);
    assert_eq!(b.opt_instruction((2, 4), 'L', 0), (1, 'L'));
    assert_eq!(b.opt_instruction((4, 2), 'L', 0), (0, 'L'));
}

#[test]
fn empty_footprint_counts_as_densest() {
    let mut b = Box::new(10);
    b.add((5, 2), 0, 'L', 0);
    b.add((1, 1), 0, 'L', 1);
    assert_eq!(b.col_info, vec![(5, 2, 0), (6, 1, 1)]);
    assert_eq!(b.opt_instruction((0, 3), 'U', 2), (0, 'U'));
    assert_eq!(b.opt_instruction((7, 3), 'U', 2), (1, 'U'));
}

#[test]
fn item_without_area_in_fresh_column_stays_unrotated() {
    let b = Box::new(10);
    assert_eq!(b.opt_instruction((0, 5), 'L', 0), (0, 'L'));
    assert_eq!(b.opt_instruction((5, 0), 'L', 0), (0, 'L'));
}

#[test]
fn plan_lists_every_decision_with_its_index() {
    let b = sample();
    assert_eq!(b.ans(), vec![(0, 0, 'L', -1), (1, 1, 'L', 0)]);
    assert!(Box::new(0).ans().is_empty());
}

#[test]
fn clone_shares_nothing() {
    let a = sample();
    let mut b = a.clone();
    b.add((1, 1), 0, 'L', 1);
    assert_eq!(a.status.len(), 2);
    assert_eq!(b.status.len(), 3);
    assert_eq!(a.col_info, vec![(5, 4, 1)]);
}
