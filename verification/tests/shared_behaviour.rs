use lib::random::Random;
use lib::structures::collections::sequences::labeled_ordered_set::LabeledOrderedSet;
use lib::structures::collections::sequences::ordered_set::OrderedSet;
use lib::structures::collections::sequences::ring_buffer::RingBuffer;
use lib::structures::collections::sets::unordered_set::UnorderedSet;
use lib::structures::mappings::grouped::grouped_multi_map::GroupedMultiMap;
use lib::structures::mappings::multi::multi_map::MultiMap;
use lib::structures::mappings::single::single_map::SingleMap;
use lib::structures::sampling::shuffle;
use lib::structures::traits::collection::{Choose, ChooseMut, Collection, SetAlgebra};
use lib::structures::traits::grouping::Grouping;
use lib::structures::traits::map::{MapMut, Mapping, ValueIndexed};
use lib::structures::traits::sequence::Sequence;

fn ordered(items: &[u32]) -> OrderedSet<u32> {
    let mut set = OrderedSet::new();
    for item in items {
        set.push(*item);
    }
    set
}

#[test]
fn subsequence_keeps_order_with_gaps() {
    let long = ordered(&[1, 2, 3, 4, 5]);
    assert!(Sequence::is_subsequence_of(&ordered(&[1, 3, 5]), &long));
    assert!(Sequence::is_subsequence_of(&ordered(&[]), &long));
    assert!(!Sequence::is_subsequence_of(&ordered(&[3, 1]), &long));
    assert!(!Sequence::is_subsequence_of(&ordered(&[6]), &long));
    assert!(!Sequence::is_subsequence_of(&long, &ordered(&[1, 3, 5])));
}

#[test]
fn disjoint_through_the_shared_default() {
    let a = ordered(&[1, 2]);
    let b = ordered(&[3, 4]);
    let c = ordered(&[2, 9]);
    let a_set = UnorderedSet::from_vec(vec![1u32, 2]);
    let c_set = UnorderedSet::from_vec(vec![2u32, 9]);
    assert!(SetAlgebra::is_disjoint(&a, &b));
    assert!(!SetAlgebra::is_disjoint(&a, &c));
    assert!(!SetAlgebra::is_disjoint(&a_set, &c_set));
}

#[test]
fn submap_compares_pairs() {
    let mut small = SingleMap::new();
    small.insert(1u8, 10u8);
    let mut large = SingleMap::new();
    large.insert(1u8, 10u8);
    large.insert(2u8, 20u8);
    assert!(small.is_submap(&large));
    assert!(!large.is_submap(&small));
    assert!(large.is_supermap(&small));
    let mut other = SingleMap::new();
    other.insert(1u8, 11u8);
    other.insert(2u8, 20u8);
    assert!(!small.is_submap(&other));

    let mut multi = MultiMap::new();
    multi.insert(1u8, 10u8);
    multi.insert(1u8, 11u8);
    let mut more = MultiMap::new();
    more.insert(1u8, 10u8);
    more.insert(1u8, 11u8);
    more.insert(2u8, 12u8);
    assert_eq!(Mapping::pair_count(&multi), 2);
    assert!(Mapping::is_submap(&multi, &more));
    assert!(!Mapping::is_submap(&more, &multi));
}

#[test]
fn group_membership_through_the_shared_default() {
    let mut groups = GroupedMultiMap::new();
    groups.insert(1u8, 'x');
    groups.insert(2u8, 'x');
    groups.insert(2u8, 'y');
    assert!(Grouping::is_in_group(&groups, &1, &'x'));
    assert!(Grouping::is_in_group(&groups, &2, &'y'));
    assert!(!Grouping::is_in_group(&groups, &1, &'y'));
    assert!(!Grouping::is_in_group(&groups, &3, &'x'));
}

#[test]
fn choices_depend_only_on_contents_and_seed() {
    let set = ordered(&[10, 20, 30, 40, 50]);
    let mut first = Random::new(9);
    let mut second = Random::new(9);
    let one = set.choose_one(&mut first);
    assert_eq!(one, set.choose_one(&mut second));
    assert!(one.is_some() && set.contains(&one.unwrap()));
    let empty = ordered(&[]);
    assert_eq!(empty.choose_one(&mut first), None);

    let mut a = Random::new(4);
    let mut b = Random::new(4);
    let picked = set.choose_multiple(&mut a, 3);
    assert_eq!(picked.len(), 3);
    assert_eq!(picked, set.choose_multiple(&mut b, 3));
    assert_eq!(set.choose_multiple(&mut a, 9).len(), 5);
    assert_eq!(set.choose_multiple(&mut a, 0), Vec::<u32>::new());

    let mut taken_from = ordered(&[10, 20, 30, 40, 50]);
    let mut c = Random::new(4);
    let taken = taken_from.take_multiple_random(&mut c, 3);
    assert_eq!(taken, picked);
    assert_eq!(Collection::len(&taken_from), 2);
    assert!(taken.iter().all(|x| !taken_from.contains(x)));
}

#[test]
fn ring_buffer_shuffle_matches_plain_shuffle() {
    let mut buffer = RingBuffer::new(8);
    let mut plain: Vec<u32> = Vec::new();
    for value in 0..6u32 {
        buffer.push_back(value);
        plain.push(value);
    }
    let mut a = Random::new(21);
    let mut b = Random::new(21);
    buffer.shuffle(&mut a);
    shuffle(&mut plain, &mut b);
    assert_eq!(buffer.iter(), plain);
    assert_eq!(a.next_u64(), b.next_u64());
}

#[test]
fn insert_pair_evicts_the_label_owner() {
    let mut set = LabeledOrderedSet::new();
    set.push(1u8, 'a');
    set.push(2u8, 'b');
    set.push(3u8, 'c');
    assert!(set.insert_pair(4, 'a'));
    assert_eq!(set.iter(), vec![(2, 'b'), (3, 'c'), (4, 'a')]);
    assert!(set.insert_pair(2, 'c'));
    assert_eq!(set.iter(), vec![(4, 'a'), (2, 'c')]);
    assert_eq!(ValueIndexed::values(&set), vec!['a', 'c']);
}
