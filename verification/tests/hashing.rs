use beam_packing::hashing::{calculate_hash, DuplicateFilter};
use std::collections::hash_map::DefaultHasher;
use std::hash::{Hash, Hasher};

fn reference_hash(order: &Vec<(usize, char, isize)>) -> u64 {
    let mut hasher = DefaultHasher::new();
    order.hash(&mut hasher);
    hasher.finish()
}

#[test]
fn hash_is_the_standard_hash_of_the_sequence() {
    let order = vec![(0, 'L', -1), (1, 'L', 0), (0, 'U', 1)];
    assert_eq!(calculate_hash(&order), reference_hash(&order));
    let none: Vec<(usize, char, isize)> = vec![];
    assert_eq!(calculate_hash(&none), reference_hash(&none));
}

#[test]
fn hash_depends_on_the_sequence() {
    let none: Vec<(usize, char, isize)> = vec![];
    let a = vec![(0, 'L', -1)];
    let b = vec![(1, 'L', -1)];
    let c = vec![(0, 'L', -1), (0, 'L', 0)];
    assert_ne!(calculate_hash(&a), calculate_hash(&none));
    assert_ne!(calculate_hash(&a), calculate_hash(&b));
    assert_ne!(calculate_hash(&a), calculate_hash(&c));
}

#[test]
fn equal_sequences_hash_alike() {
    let a = vec![(0, 'L', -1), (1, 'L', 0)];
    let b = vec![(0, 'L', -1), (1, 'L', 0)];
    assert_eq!(calculate_hash(&a), calculate_hash(&b));
}

#[test]
fn new_filter_lets_a_hash_pass_once() {
    let mut filter = DuplicateFilter::new();
    assert!(filter.hashes.is_empty());
    assert!(filter.register(17));
    assert!(!filter.register(17));
    assert!(filter.hashes.contains(&17));
    assert_eq!(filter.hashes.len(), 1);
}

#[test]
fn second_registration_is_rejected_whatever_came_between() {
    let mut filter = DuplicateFilter::new();
    assert!(filter.register(5));
    assert!(filter.register(6));
    assert!(filter.register(7));
    assert!(!filter.register(5));
    assert!(!filter.register(6));
    assert_eq!(filter.hashes.len(), 3);
}

#[test]
fn same_sequence_is_rejected_the_second_time() {
    let mut filter = DuplicateFilter::new();
    let a = vec![(0, 'L', -1), (1, 'L', 0)];
    let b = vec![(0, 'L', -1), (0, 'L', 0)];
    assert!(filter.try_register(&a));
    assert!(filter.try_register(&b));
    assert!(!filter.try_register(&a.clone()));
    assert!(!filter.try_register(&b));
    assert!(filter.hashes.contains(&calculate_hash(&a)));
}

#[test]
fn fresh_filter_has_forgotten_earlier_rounds() {
    let a = vec![(0, 'L', -1)];
    let mut first = DuplicateFilter::new();
    assert!(first.try_register(&a));
    let mut second = DuplicateFilter::new();
    assert!(second.try_register(&a));
}
