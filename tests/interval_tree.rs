use enso_data::interval_tree::{Interval, IntervalTree, RightOpenInterval};
use std::cmp::Ordering;

fn raw(vals: &[(usize, usize)]) -> Vec<RightOpenInterval> {
    vals.iter().map(|t| Interval(t.0, t.1).into()).collect()
}

fn intervals(tree: &IntervalTree) -> Vec<RightOpenInterval> {
    (0..tree.interval_count()).map(|ix| tree.index(ix).unwrap()).collect()
}

#[test]
fn test_1() {
    let mut v = IntervalTree::new();
    v.insert(10); assert_eq!(intervals(&v), raw(&[(10, 10)]));
    v.insert(9); assert_eq!(intervals(&v), raw(&[(9, 10)]));
    v.insert(9); assert_eq!(intervals(&v), raw(&[(9, 10)]));
    v.insert(10); assert_eq!(intervals(&v), raw(&[(9, 10)]));
    v.insert(11); assert_eq!(intervals(&v), raw(&[(9, 11)]));
    v.insert(7); assert_eq!(intervals(&v), raw(&[(7, 7), (9, 11)]));
    v.insert(7); assert_eq!(intervals(&v), raw(&[(7, 7), (9, 11)]));
    v.insert(6); assert_eq!(intervals(&v), raw(&[(6, 7), (9, 11)]));
    v.insert(8); assert_eq!(intervals(&v), raw(&[(6, 11)]));
    v.insert(13); assert_eq!(intervals(&v), raw(&[(6, 11), (13, 13)]));
    v.insert(12); assert_eq!(intervals(&v), raw(&[(6, 13)]));
    v.insert(15); assert_eq!(intervals(&v), raw(&[(6, 13), (15, 15)]));
    v.insert(16); assert_eq!(intervals(&v), raw(&[(6, 13), (15, 16)]));
    assert_eq!(v.first_item(), Some(6));
    assert_eq!(v.last_item(), Some(16));
    assert_eq!(v.interval_count(), 2);
    assert_eq!(v.item_count(), 10);
    assert_eq!(v.take_last_item(), Some(16)); assert_eq!(intervals(&v), raw(&[(6, 13), (15, 15)]));
    assert_eq!(v.take_first_item(), Some(6)); assert_eq!(intervals(&v), raw(&[(7, 13), (15, 15)]));
    assert_eq!(v.take_last_item(), Some(15)); assert_eq!(intervals(&v), raw(&[(7, 13)]));
    assert_eq!(v.take_first_item(), Some(7)); assert_eq!(intervals(&v), raw(&[(8, 13)]));
    assert_eq!(v.take_last_item(), Some(13)); assert_eq!(intervals(&v), raw(&[(8, 12)]));
    assert_eq!(v.take_first_item(), Some(8)); assert_eq!(intervals(&v), raw(&[(9, 12)]));
    assert_eq!(v.take_last_item(), Some(12)); assert_eq!(intervals(&v), raw(&[(9, 11)]));
    assert_eq!(v.take_first_item(), Some(9)); assert_eq!(intervals(&v), raw(&[(10, 11)]));
    assert_eq!(v.take_last_item(), Some(11)); assert_eq!(intervals(&v), raw(&[(10, 10)]));
    assert_eq!(v.take_first_item(), Some(10)); assert_eq!(intervals(&v), raw(&[]));
    v.insert(10); assert_eq!(intervals(&v), raw(&[(10, 10)]));
    assert_eq!(v.take_last_item(), Some(10)); assert_eq!(intervals(&v), raw(&[]));
    assert_eq!(v.take_first_item(), None); assert_eq!(intervals(&v), raw(&[]));
    assert_eq!(v.take_last_item(), None); assert_eq!(intervals(&v), raw(&[]));
    assert_eq!(v.interval_count(), 0);
    assert_eq!(v.item_count(), 0);
    assert_eq!(v.first_item(), None);
    assert_eq!(v.last_item(), None);
}

#[test]
fn test_2() {
    let mut v = IntervalTree::new();
    v.insert(10); assert_eq!(intervals(&v), raw(&[(10, 10)]));
    v.insert(12); assert_eq!(intervals(&v), raw(&[(10, 10), (12, 12)]));
    v.insert(14); assert_eq!(intervals(&v), raw(&[(10, 10), (12, 12), (14, 14)]));
    v.insert(13); assert_eq!(intervals(&v), raw(&[(10, 10), (12, 14)]));
    v.insert(11); assert_eq!(intervals(&v), raw(&[(10, 14)]));
}

#[test]
fn interval_conversions() {
    assert_eq!(RightOpenInterval::from(Interval(3, 5)), RightOpenInterval(3, 6));
    assert_eq!(Interval::from(RightOpenInterval(3, 6)), Interval(3, 5));
    assert_eq!(RightOpenInterval::from(Interval(1, usize::MAX)), RightOpenInterval(1, usize::MAX));
    assert_eq!(Interval::from(RightOpenInterval(0, 0)), Interval(0, 0));
    let t = RightOpenInterval(4, 9);
    assert_eq!(RightOpenInterval::from(&t), t);
}

#[test]
fn close_to_value_comparison() {
    let t = RightOpenInterval(1, 2);
    assert_eq!(t.cmp_close_to_value(0), Ordering::Greater);
    assert_eq!(t.cmp_close_to_value(1), Ordering::Equal);
    assert_eq!(t.cmp_close_to_value(2), Ordering::Equal);
    assert_eq!(t.cmp_close_to_value(3), Ordering::Less);
    assert!(t.check_valid());
    assert!(!RightOpenInterval(2, 2).check_valid());
}

#[test]
fn first_and_last_intervals() {
    let mut v = IntervalTree::new();
    assert_eq!(v.first_interval(), None);
    assert_eq!(v.last_interval(), None);
    assert_eq!(v.index(0), None);
    v.insert(5);
    v.insert(6);
    v.insert(20);
    assert_eq!(v.first_interval(), Some(Interval(5, 6)));
    assert_eq!(v.last_interval(), Some(Interval(20, 20)));
    assert_eq!(v.index(1), Some(RightOpenInterval(20, 21)));
    assert_eq!(v.index(2), None);
    assert_eq!(v.item_count(), 3);
}

#[test]
fn insert_at_edges_of_range() {
    let mut v = IntervalTree::new();
    v.insert(0);
    v.insert(usize::MAX - 1);
    v.insert(usize::MAX - 2);
    assert_eq!(intervals(&v), vec![RightOpenInterval(0, 1), RightOpenInterval(usize::MAX - 2, usize::MAX)]);
    assert_eq!(v.take_last_item(), Some(usize::MAX - 1));
    assert_eq!(v.take_first_item(), Some(0));
    assert_eq!(v.item_count(), 1);
}
