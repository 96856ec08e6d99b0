use lib::structures::traits::map::{MapMut, UniqueValueMap, ValueIndexed};
use lib::random::Random;
use lib::structures::collections::measured::multi_set::MultiSet;
use lib::structures::collections::measured::tally::Tally;
use lib::structures::collections::sequences::labeled_ordered_set::LabeledOrderedSet;
use lib::structures::collections::sequences::ordered_set::OrderedSet;
use lib::structures::collections::sequences::priority_queue::PriorityQueue;
use lib::structures::collections::sequences::ring_buffer::RingBuffer;
use lib::structures::collections::sets::label_indexed_set::LabelIndexedSet;
use lib::structures::collections::sets::subscription_set::SubscriptionSet;
use lib::structures::collections::sets::unordered_set::UnorderedSet;
use lib::structures::range_end::RangeEnd;
use lib::structures::sampling::{shuffle, uniform_indices};

fn sorted<T: Ord>(mut items: Vec<T>) -> Vec<T> {
    items.sort();
    items
}

#[test]
fn unordered_set_basics() {
    let mut set = UnorderedSet::from_vec(vec![3u32, 1, 3, 2]);
    assert_eq!(set.len(), 3);
    assert!(set.insert(4));
    assert!(!set.insert(4));
    assert!(set.remove(&1));
    assert!(!set.remove(&1));
    assert_eq!(set.take(&2), Some(2));
    assert_eq!(sorted(set.iter()), vec![3, 4]);
    set.retain(|x| *x > 3);
    assert_eq!(set.iter(), vec![4]);
    assert_eq!(sorted(set.drain()), vec![4]);
    assert!(set.is_empty());
}

#[test]
fn unordered_set_algebra() {
    let a = UnorderedSet::from_vec(vec![1u8, 2, 3]);
    let b = UnorderedSet::from_vec(vec![2u8, 3, 4]);
    assert_eq!(sorted(a.union(&b).iter()), vec![1, 2, 3, 4]);
    assert_eq!(sorted(a.intersection(&b).iter()), vec![2, 3]);
    assert_eq!(sorted(a.difference(&b).iter()), vec![1]);
    assert_eq!(sorted(a.symmetric_difference(&b).iter()), vec![1, 4]);
    assert!(a.intersection(&b).is_subset(&a));
    assert!(a.is_superset(&a.intersection(&b)));
    assert!(!a.is_disjoint(&b));
    assert!(a.difference(&b).is_disjoint(&b));
    assert!(a.union(&b).same_members(&b.union(&a)));
    let all = a.union_all(&vec![b.duplicate(), UnorderedSet::from_vec(vec![9u8])]);
    assert_eq!(sorted(all.iter()), vec![1, 2, 3, 4, 9]);
    let common = a.intersection_all(&vec![b.duplicate()]);
    assert_eq!(sorted(common.iter()), vec![2, 3]);
}

#[test]
fn ordered_set_keeps_insertion_order() {
    let mut set = OrderedSet::from_vec(&vec![5i32, 3, 5, 9]);
    assert_eq!(set.iter(), vec![5, 3, 9]);
    assert!(set.push(1));
    assert!(!set.push(3));
    assert!(set.insert_at(1, 7));
    assert_eq!(set.iter(), vec![5, 7, 3, 9, 1]);
    assert_eq!(set.index_of(&9), Some(3));
    assert!(set.move_to(&1, 0));
    assert_eq!(set.iter(), vec![1, 5, 7, 3, 9]);
    assert!(set.move_by(&1, 2));
    assert_eq!(set.iter(), vec![5, 7, 1, 3, 9]);
    assert!(set.swap(&5, &9));
    assert_eq!(set.iter(), vec![9, 7, 1, 3, 5]);
    assert_eq!(set.remove_at(1), Some(7));
    assert_eq!(set.pop_first(), Some(9));
    assert_eq!(set.pop_last(), Some(5));
    assert_eq!(set.iter(), vec![1, 3]);
    set.reverse();
    assert_eq!(set.iter(), vec![3, 1]);
}

#[test]
fn ordered_set_algebra_and_slices() {
    let a = OrderedSet::from_vec(&vec![1u16, 2, 3, 4]);
    let b = OrderedSet::from_vec(&vec![4u16, 2, 6]);
    assert_eq!(a.union(&b).iter(), vec![1, 2, 3, 4, 6]);
    assert_eq!(a.intersection(&b).iter(), vec![2, 4]);
    assert_eq!(a.difference(&b).iter(), vec![1, 3]);
    assert_eq!(a.slice(1, 3).iter(), vec![2, 3]);
    assert!(a.slice(0, 2).is_subset(&a));
    assert!(!a.equals(&b));
    assert!(a.equals(&OrderedSet::from_vec(&vec![1u16, 2, 3, 4])));
    assert_eq!(a.partition_point(|x| *x < 3), 2);
}

#[test]
fn ordered_set_shuffle_keeps_members() {
    let mut set = OrderedSet::from_vec(&(0u32..50).collect::<Vec<_>>());
    let mut random = Random::new(11);
    set.shuffle(&mut random);
    assert_eq!(sorted(set.iter()), (0u32..50).collect::<Vec<_>>());
}

#[test]
fn multiset_counts() {
    let mut bag = MultiSet::new();
    bag.insert(7u8);
    bag.insert_times(7, 2);
    bag.insert(8);
    assert_eq!(bag.count_of(&7), 3);
    assert_eq!(bag.len(), 2);
    assert_eq!(bag.distinct_len(), 2);
    assert_eq!(bag.total_count(), 4);
    assert_eq!(bag.remove_times(&7, 5), 3);
    assert_eq!(bag.count_of(&7), 0);
    assert!(bag.remove(&8));
    assert!(!bag.remove(&8));
    assert!(bag.is_empty());
}

#[test]
fn multiset_algebra() {
    let mut a = MultiSet::new();
    a.insert_times(1u8, 3);
    a.insert_times(2, 1);
    let mut b = MultiSet::new();
    b.insert_times(1u8, 1);
    b.insert_times(3, 2);
    assert_eq!(a.sum(&b).count_of(&1), 4);
    assert_eq!(a.union(&b).count_of(&1), 3);
    assert_eq!(a.union(&b).count_of(&3), 2);
    assert_eq!(a.intersection(&b).count_of(&1), 1);
    assert_eq!(a.intersection(&b).count_of(&2), 0);
    assert_eq!(a.difference(&b).count_of(&1), 2);
    assert_eq!(a.symmetric_difference(&b).count_of(&3), 2);
    assert!(a.intersection(&b).is_subset(&a));
    assert!(!a.is_disjoint(&b));
    let mut kept = a.duplicate();
    kept.retain(|_, n| n > 1);
    assert_eq!(kept.distinct(), vec![1]);
}

#[test]
fn tally_values() {
    let mut tally = Tally::new();
    assert_eq!(tally.set(3u32, 5), None);
    assert_eq!(tally.set(3, 2), Some(5));
    assert_eq!(tally.set(4, 1), None);
    assert_eq!(tally.total(), 3);
    assert_eq!(tally.get(&3), Some(2));
    assert_eq!(tally.update(&4, None), Some(1));
    assert_eq!(tally.remove(&3), Some(2));
    assert_eq!(tally.total(), 0);
    assert!(tally.is_empty());
}

#[test]
fn ring_buffer_drops_the_oldest() {
    let mut ring = RingBuffer::new(3);
    assert_eq!(ring.push_back(1u8), None);
    assert_eq!(ring.push_back(2), None);
    assert_eq!(ring.push_back(3), None);
    assert!(ring.is_full());
    assert_eq!(ring.push_back(4), Some(1));
    assert_eq!(ring.iter(), vec![2, 3, 4]);
    assert_eq!(ring.push_front(9), Some(4));
    assert_eq!(ring.iter(), vec![9, 2, 3]);
    assert_eq!(ring.get_wrapping(0), Some(3));
    assert_eq!(ring.get_wrapping(1), Some(9));
    assert_eq!(ring.get_wrapping(-1), Some(2));
    assert_eq!(ring.get_from_back(0), Some(3));
    assert_eq!(ring.insert_at(1, 5), Some(9));
    assert_eq!(ring.iter(), vec![5, 2, 3]);
    assert_eq!(ring.remove(&2), Some(2));
    assert_eq!(ring.pop_front(), Some(5));
    assert_eq!(ring.pop_back(), Some(3));
    assert_eq!(ring.pop_back(), None);
    assert_eq!(ring.capacity(), 3);
}

#[test]
fn priority_queue_is_stable() {
    let mut queue = PriorityQueue::new();
    assert!(queue.push('a', 5));
    assert!(queue.push('b', 1));
    assert!(queue.push('c', 5));
    assert!(queue.push('d', 3));
    assert!(!queue.push('a', 0));
    assert_eq!(queue.iter(), vec![('b', 1), ('d', 3), ('a', 5), ('c', 5)]);
    assert_eq!(queue.change_priority(&'b', 5), Some(1));
    assert_eq!(queue.iter(), vec![('d', 3), ('a', 5), ('c', 5), ('b', 5)]);
    assert_eq!(queue.push_or_change('e', 4), None);
    assert_eq!(queue.get_priority(&'e'), Some(4));
    assert_eq!(
        queue.range(RangeEnd::Excluded(3), RangeEnd::Included(5)),
        vec![('e', 4), ('a', 5), ('c', 5), ('b', 5)]
    );
    assert_eq!(queue.range(RangeEnd::Unbounded, RangeEnd::Excluded(4)), vec![('d', 3)]);
    assert_eq!(queue.pop_first(), Some(('d', 3)));
    assert_eq!(queue.pop_last(), Some(('b', 5)));
    assert_eq!(queue.remove(&'a'), Some(('a', 5)));
    assert_eq!(queue.into_sorted_vec(), vec![('e', 4), ('c', 5)]);
}

#[test]
fn labeled_ordered_set_pairs() {
    let mut set = LabeledOrderedSet::new();
    assert!(set.push(10u32, 'x'));
    assert!(set.push(20, 'y'));
    assert!(!set.push(10, 'z'));
    assert!(!set.push(30, 'y'));
    assert_eq!(set.label_of(&20), Some('y'));
    assert_eq!(set.get_by_label(&'x'), Some(10));
    assert!(set.insert_at(0, 5, 'w'));
    assert_eq!(set.iter(), vec![(5, 'w'), (10, 'x'), (20, 'y')]);
    assert_eq!(set.remove_by_label(&'x'), Some(10));
    assert_eq!(set.remove(&5), Some('w'));
    assert_eq!(set.first(), Some((20, 'y')));
    assert!(!set.contains_label(&'x'));
}

#[test]
fn subscription_set_membership() {
    let mut set = SubscriptionSet::new(|_: &u8| ());
    assert!(set.insert(1u8));
    assert!(!set.insert(1));
    assert!(set.insert(2));
    assert!(set.remove(&1));
    assert_eq!(set.iter(), vec![2]);
    set.clear();
    assert!(set.is_empty());
}

const EVEN: u8 = 0;
const ODD: u8 = 1;
const BIG: u8 = 2;

fn parity_and_size(x: &u32) -> Vec<u8> {
    let mut labels = vec![if *x % 2 == 0 { EVEN } else { ODD }];
    if *x >= 10 {
        labels.push(BIG);
    }
    labels
}

#[test]
fn label_indexed_set_queries() {
    let mut set = LabelIndexedSet::new(parity_and_size);
    assert!(set.insert(3));
    assert!(set.insert(12));
    assert!(set.insert(15));
    assert!(!set.insert(3));
    assert_eq!(sorted(set.with_any_label(&vec![BIG]).iter()), vec![12, 15]);
    assert_eq!(sorted(set.with_all_labels(&vec![ODD, BIG]).iter()), vec![15]);
    assert_eq!(sorted(set.with_all_labels(&Vec::new()).iter()), vec![3, 12, 15]);
    assert_eq!(sorted(set.with_any_label(&vec![EVEN, ODD]).iter()), vec![3, 12, 15]);
    assert!(set.remove(&15));
    assert_eq!(sorted(set.with_any_label(&vec![BIG]).iter()), vec![12]);
    set.retain(|x| *x < 10);
    assert_eq!(set.iter(), vec![3]);
    assert!(set.with_any_label(&vec![EVEN]).is_empty());
}

#[test]
fn sampling_helpers() {
    let mut items: Vec<u32> = (0..20).collect();
    let mut random = Random::new(5);
    shuffle(&mut items, &mut random);
    assert_eq!(sorted(items.clone()), (0..20).collect::<Vec<_>>());
    let picked = uniform_indices(10, 4, Some(&mut random));
    assert_eq!(picked.len(), 4);
    let distinct = UnorderedSet::from_vec(picked.clone());
    assert_eq!(distinct.len(), 4);
    assert!(picked.iter().all(|i| *i < 10));
    assert_eq!(uniform_indices(3, 5, None), vec![0, 1, 2]);
}

#[test]
fn labeled_ordered_set_insert_pair_replaces_clashes() {
    let mut set = LabeledOrderedSet::new();
    set.push(1u8, 'a');
    set.push(2u8, 'b');
    assert!(!set.insert_pair(1, 'a'));
    assert!(set.insert_pair(1, 'b'));
    assert_eq!(set.iter(), vec![(1, 'b')]);
    assert_eq!(set.key_of(&'b'), Some(1));
    assert_eq!(set.values(), vec!['b']);
    assert!(!set.remove_pair(&1, &'a'));
    assert!(set.remove_pair(&1, &'b'));
    assert!(set.is_empty());
}

#[test]
fn unordered_set_cartesian_product() {
    let left = UnorderedSet::from_vec(vec![1u8, 2]);
    let others = vec![UnorderedSet::from_vec(vec![3u8]), UnorderedSet::from_vec(vec![4u8, 5])];
    let mut tuples = left.cartesian_product(&others);
    tuples.sort();
    assert_eq!(tuples, vec![vec![1, 3, 4], vec![1, 3, 5], vec![2, 3, 4], vec![2, 3, 5]]);
    let mut singles = left.cartesian_product(&vec![]);
    singles.sort();
    assert_eq!(singles, vec![vec![1], vec![2]]);
    let none = left.cartesian_product(&vec![UnorderedSet::new()]);
    assert!(none.is_empty());
}

#[test]
fn sequences_sort_by_a_comparison() {
    let mut set = OrderedSet::from_vec(&vec![5i32, 3, 9, 1]);
    set.sort_by(|a: &i32, b: &i32| a.cmp(b));
    assert_eq!(set.iter(), vec![1, 3, 5, 9]);
    set.sort_by(|a: &i32, b: &i32| b.cmp(a));
    assert_eq!(set.iter(), vec![9, 5, 3, 1]);

    let mut ring = RingBuffer::new(4);
    for v in [3u8, 1, 3, 2] {
        ring.push_back(v);
    }
    ring.sort_by(|a: &u8, b: &u8| a.cmp(b));
    assert_eq!(ring.iter(), vec![1, 2, 3, 3]);

    // Equal keys keep their order: sort by parity only.
    let mut stable = OrderedSet::from_vec(&vec![4u8, 1, 2, 3]);
    stable.sort_by(|a: &u8, b: &u8| (a % 2).cmp(&(b % 2)));
    assert_eq!(stable.iter(), vec![4, 2, 1, 3]);
}

#[test]
fn labeled_ordered_set_reorders() {
    let mut set = LabeledOrderedSet::new();
    set.push(10u32, 'c');
    set.push(20, 'a');
    set.push(30, 'b');
    set.sort_by_label(|a: &char, b: &char| a.cmp(b));
    assert_eq!(set.iter(), vec![(20, 'a'), (30, 'b'), (10, 'c')]);
    set.sort_by(|a: &u32, b: &u32| a.cmp(b));
    assert_eq!(set.iter(), vec![(10, 'c'), (20, 'a'), (30, 'b')]);
    set.reverse();
    assert_eq!(set.iter(), vec![(30, 'b'), (20, 'a'), (10, 'c')]);
    let mut random = Random::new(7);
    set.shuffle(&mut random);
    let mut pairs = set.iter();
    pairs.sort();
    assert_eq!(pairs, vec![(10, 'c'), (20, 'a'), (30, 'b')]);
    assert_eq!(set.label_of(&20), Some('a'));
}
