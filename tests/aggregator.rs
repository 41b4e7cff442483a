use heap_profiler::aggregator::{Aggregator, AggregatorError};
use heap_profiler::merge::merge_parts;
use heap_profiler::stack::Stack;

fn totals(a: &Aggregator) -> Vec<(Vec<usize>, i128)> {
    let mut v: Vec<(Vec<usize>, i128)> = a
        .export()
        .unwrap()
        .iter()
        .map(|(s, t)| (s.to_vec(), *t))
        .collect();
    v.sort();
    v
}

#[test]
fn scenario_single_stack_sums_weights() {
    let mut a = Aggregator::new().unwrap();
    let s1 = Stack::from_frames(&[0x100, 0x200, 0x300]);
    assert!(a.record(&s1, 10));
    assert!(a.record(&s1, 20));
    assert!(a.record(&s1, -5));
    assert_eq!(totals(&a), vec![(vec![0x100, 0x200, 0x300], 25)]);
}

#[test]
fn scenario_two_stacks_kept_apart() {
    let mut a = Aggregator::new().unwrap();
    let s1 = Stack::from_frames(&[1, 2, 3]);
    let s2 = Stack::from_frames(&[4, 5, 6]);
    assert!(a.record(&s1, 100));
    assert!(a.record(&s2, 50));
    assert_eq!(totals(&a), vec![(vec![1, 2, 3], 100), (vec![4, 5, 6], 50)]);
}

#[test]
fn equal_stacks_share_one_entry() {
    let mut a = Aggregator::new().unwrap();
    let first = Stack::from_frames(&[9, 8, 7]);
    let mut second = Stack::new();
    second.push(9);
    second.push(8);
    second.push(7);
    assert!(a.record(&first, 3));
    assert!(a.record(&second, 4));
    assert_eq!(totals(&a), vec![(vec![9, 8, 7], 7)]);
}

#[test]
fn empty_aggregator_exports_nothing() {
    let a = Aggregator::new().unwrap();
    assert!(a.export().unwrap().is_empty());
}

#[test]
fn totals_may_go_negative_and_back_to_zero() {
    let mut a = Aggregator::new().unwrap();
    let s = Stack::from_frames(&[1]);
    assert!(a.record(&s, -40));
    assert_eq!(totals(&a), vec![(vec![1], -40)]);
    assert!(a.record(&s, 40));
    assert_eq!(totals(&a), vec![(vec![1], 0)]);
}

#[test]
fn many_records_lose_no_update() {
    let mut a = Aggregator::new().unwrap();
    let s = Stack::from_frames(&[11, 22]);
    for _ in 0..8 {
        for _ in 0..250 {
            assert!(a.record(&s, 1));
        }
    }
    assert_eq!(totals(&a), vec![(vec![11, 22], 2000)]);
}

#[test]
fn empty_stack_is_a_stack_of_its_own() {
    let mut a = Aggregator::new().unwrap();
    assert!(a.record(&Stack::new(), 5));
    assert!(a.record(&Stack::from_frames(&[1]), 6));
    assert_eq!(totals(&a), vec![(vec![], 5), (vec![1], 6)]);
}

#[test]
fn weight_beyond_volume_bound_is_dropped() {
    let mut a = Aggregator::new().unwrap();
    let s = Stack::from_frames(&[1, 2]);
    assert!(!a.record(&s, isize::MIN));
    assert!(a.export().unwrap().is_empty());
    assert!(a.record(&s, isize::MAX));
    assert!(!a.record(&s, 1));
    assert!(!a.record(&Stack::from_frames(&[3]), -1));
    assert_eq!(totals(&a), vec![(vec![1, 2], isize::MAX as i128)]);
}

#[test]
fn storage_error_is_comparable() {
    assert_eq!(AggregatorError::Storage, AggregatorError::Storage);
}

#[test]
fn merge_sums_split_entries() {
    let a = Stack::from_frames(&[1, 2]).key();
    let b = Stack::from_frames(&[3]).key();
    let entries = vec![(a, 5isize), (b, 7), (a, -2), (a, isize::MAX), (a, isize::MAX)];
    let mut out: Vec<(Vec<usize>, i128)> = merge_parts(&entries)
        .iter()
        .map(|(s, t)| (s.to_vec(), *t))
        .collect();
    out.sort();
    assert_eq!(out, vec![(vec![1, 2], 3 + 2 * (isize::MAX as i128)), (vec![3], 7)]);
}
