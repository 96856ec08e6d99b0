use lib::structures::collections::sparse::index_runs::IndexRuns;
use lib::structures::collections::sparse::sparse_sequence::SparseSequence;
use lib::structures::collections::sparse::sparse_set_sequence::SparseSetSequence;
use lib::structures::collections::sets::unordered_set::UnorderedSet;
use lib::structures::indices::property_query::{FuseError, FuseMode, PropertyQuery};
use lib::structures::indices::property_storage::PropertyKind;
use lib::structures::indices::query_expr::Expr;
use lib::structures::range_end::RangeEnd;

fn sorted<T: Ord>(mut items: Vec<T>) -> Vec<T> {
    items.sort();
    items
}

fn slot_members(slots: Vec<(i64, UnorderedSet<char>)>) -> Vec<(i64, Vec<char>)> {
    slots.into_iter().map(|(index, set)| (index, sorted(set.iter()))).collect()
}

#[test]
fn index_runs_track_free_indices() {
    let mut runs = IndexRuns::new();
    assert_eq!(runs.first_free(), 0);
    runs.insert(0);
    runs.insert(1);
    runs.insert(3);
    assert_eq!(runs.first_free(), 2);
    runs.insert(2);
    assert_eq!(runs.first_free(), 4);
    runs.remove(1);
    assert_eq!(runs.first_free(), 1);
    runs.insert(-5);
    assert_eq!(runs.first_free(), 1);
    assert!(runs.has_free());
    runs.clear();
    assert_eq!(runs.first_free(), 0);
}

#[test]
fn sparse_sequence_fills_gaps() {
    let mut sequence = SparseSequence::new();
    assert_eq!(sequence.push('a'), 0);
    assert_eq!(sequence.insert_at(5, 'f'), None);
    assert_eq!(sequence.push('b'), 1);
    assert_eq!(sequence.insert_at(-2, 'z'), None);
    assert_eq!(sequence.iter(), vec![(-2, 'z'), (0, 'a'), (1, 'b'), (5, 'f')]);
    assert_eq!(sequence.insert_at(1, 'c'), Some('b'));
    assert_eq!(sequence.replace(3, 'q'), None);
    assert_eq!(sequence.get(3), None);
    assert_eq!(sequence.first(), Some(&'z'));
    assert_eq!(sequence.last(), Some(&'f'));
    assert_eq!(sequence.range(RangeEnd::Included(0), RangeEnd::Excluded(5)), vec![(0, 'a'), (1, 'c')]);
    sequence.insert_shifting(0, 'n');
    assert_eq!(sequence.iter(), vec![(-2, 'z'), (0, 'n'), (1, 'a'), (2, 'c'), (6, 'f')]);
    assert_eq!(sequence.remove_at(1), Some('a'));
    sequence.compact();
    assert_eq!(sequence.iter(), vec![(0, 'z'), (1, 'n'), (2, 'c'), (3, 'f')]);
    assert_eq!(sequence.pop_first(), Some((0, 'z')));
    assert_eq!(sequence.pop_last(), Some((3, 'f')));
    assert_eq!(sequence.values(), vec!['n', 'c']);
}

#[test]
fn sparse_sequence_occurrences() {
    let mut sequence = SparseSequence::from_values(vec![1u8, 2, 1, 3, 1]);
    assert!(sequence.contains(&3));
    assert_eq!(sequence.remove_first_of(&1), Some(0));
    assert_eq!(sequence.remove_last_of(&1), Some(4));
    assert_eq!(sequence.remove_all_of(&1), 1);
    assert_eq!(sequence.iter(), vec![(1, 2), (3, 3)]);
    sequence.retain(|index, _| index > 1);
    assert_eq!(sequence.iter(), vec![(3, 3)]);
    let pairs = SparseSequence::from_pairs(vec![(4, 1u8), (2, 2), (4, 3)]);
    assert_eq!(pairs.iter(), vec![(2, 2), (4, 3)]);
    let window = SparseSequence::from_values(vec![2u8, 3]);
    assert!(window.is_window_of(&pairs));
    assert!(!SparseSequence::from_values(vec![3u8, 2]).is_window_of(&pairs));
    assert!(pairs.same_entries(&SparseSequence::from_pairs(vec![(2, 2u8), (4, 3)])));
    assert_eq!(SparseSequence::from_values(vec![5u8, 6, 7]).partition_point(|x| *x < 7), 2);
}

#[test]
fn sparse_set_sequence_slots() {
    let mut sequence = SparseSetSequence::new();
    assert!(sequence.insert_at(2, 'a'));
    assert!(sequence.insert_at(2, 'b'));
    assert!(!sequence.insert_at(2, 'a'));
    assert_eq!(sequence.push('c'), 0);
    assert_eq!(sequence.len(), 3);
    assert_eq!(sequence.slot_count(), 2);
    sequence.insert_shifting(1, 'd');
    assert_eq!(
        slot_members(sequence.iter()),
        vec![(0, vec!['c']), (1, vec!['d']), (3, vec!['a', 'b'])]
    );
    assert!(sequence.remove_at(1, &'d'));
    assert!(sequence.get(1).is_none());
    assert_eq!(sequence.remove_first_of(&'b'), Some(3));
    sequence.compact();
    assert_eq!(slot_members(sequence.iter()), vec![(0, vec!['c']), (1, vec!['a'])]);
    sequence.extend_at(1, vec!['x', 'y']);
    assert_eq!(sequence.remove_all_of(&'x'), 1);
    sequence.retain(|_, item| *item != 'y');
    assert_eq!(slot_members(sequence.iter()), vec![(0, vec!['c']), (1, vec!['a'])]);
    sequence.reverse_slots();
    assert_eq!(slot_members(sequence.iter()), vec![(0, vec!['a']), (1, vec!['c'])]);
    let popped = sequence.pop_last().unwrap();
    assert_eq!((popped.0, popped.1.iter()), (1, vec!['c']));
    assert_eq!(sequence.len(), 1);
}

const COLOR: u8 = 0;
const TAG: u8 = 1;
const ALIVE: u8 = 2;
const ID: u8 = 3;

fn sample_query() -> PropertyQuery<u32, u8, u16> {
    let mut query = PropertyQuery::with_properties(&vec![
        (COLOR, PropertyKind::SINGLE),
        (TAG, PropertyKind::MULTI),
        (ALIVE, PropertyKind::FLAG),
        (ID, PropertyKind::UNIQUE_SINGLE),
    ]);
    query.set(1, COLOR, 10);
    query.set(2, COLOR, 20);
    query.set(3, COLOR, 10);
    query.add_value(1, TAG, 7);
    query.add_value(1, TAG, 8);
    query.add_value(2, TAG, 8);
    query.set_flag(1, ALIVE);
    query.set_flag(3, ALIVE);
    query.insert_element(4);
    query
}

#[test]
fn property_query_reads() {
    let query = sample_query();
    // Element 4 is in the universe but holds no property.
    assert_eq!(query.len(), 3);
    assert!(query.universe().contains(&4));
    assert!(!query.contains(&4));
    assert_eq!(query.get(&1, &COLOR), Some(10));
    assert_eq!(query.get(&4, &COLOR), None);
    assert_eq!(sorted(query.values(&1, &TAG).iter()), vec![7, 8]);
    assert!(query.has(&3, &ALIVE));
    assert!(!query.has(&2, &ALIVE));
    assert!(query.has_value(&2, &TAG, &8));
    assert!(query.is_value_used(&COLOR, &20));
    assert_eq!(sorted(query.members_with(&COLOR, &10).iter()), vec![1, 3]);
    assert_eq!(query.property_len(&TAG), 2);
    assert_eq!(query.value_len(&TAG, &8), 2);
    assert!(query.matches(&1, &vec![(COLOR, 10), (TAG, 7)]));
    assert!(!query.matches(&1, &vec![(COLOR, 20)]));
    assert_eq!(query.property_kind(&TAG), Some(PropertyKind::MULTI));
}

#[test]
fn property_query_expressions() {
    let mut query = sample_query();
    let alive_red = Expr::and(vec![Expr::has(ALIVE), Expr::is(COLOR, 10)]);
    assert_eq!(sorted(query.query(&alive_red).iter()), vec![1, 3]);
    let not_alive = Expr::negate(Expr::has(ALIVE));
    assert_eq!(sorted(query.query(&not_alive).iter()), vec![2, 4]);
    let either = Expr::or(vec![Expr::is(TAG, 8), Expr::is(COLOR, 10)]);
    assert_eq!(sorted(query.query(&either).iter()), vec![1, 2, 3]);
    assert!(query.cache_len() > 0);
    assert_eq!(sorted(query.query(&either).iter()), sorted(query.query_uncached(&either).iter()));
    query.set(2, COLOR, 10);
    assert_eq!(sorted(query.query(&alive_red).iter()), vec![1, 3]);
    assert_eq!(sorted(query.query_all(&vec![(COLOR, 10), (TAG, 8)]).iter()), vec![1, 2]);
    assert_eq!(sorted(query.query_any(&vec![(TAG, 7), (COLOR, 99)]).iter()), vec![1]);
    query.clear_cache();
    assert_eq!(query.cache_len(), 0);
    assert!(Expr::and(vec![Expr::<u8, u16>::has(TAG)]).same_as(&Expr::and(vec![Expr::has(TAG)])));
    assert!(!Expr::<u8, u16>::has(TAG).same_as(&Expr::has(ALIVE)));
}

#[test]
fn property_query_unique_values_move() {
    let mut query = sample_query();
    query.set(1, ID, 500);
    query.set(2, ID, 500);
    assert_eq!(query.get(&1, &ID), None);
    assert_eq!(query.get(&2, &ID), Some(500));
    assert_eq!(sorted(query.members_with(&ID, &500).iter()), vec![2]);
}

#[test]
fn property_query_removals() {
    let mut query = sample_query();
    assert!(query.remove_value(&1, &TAG, &7));
    assert!(!query.remove_value(&1, &TAG, &7));
    assert!(query.clear_property(&1, &COLOR));
    assert_eq!(query.get(&1, &COLOR), None);
    assert!(query.remove_element(&3));
    assert!(!query.contains(&3));
    assert!(query.members_with(&COLOR, &10).is_empty());
    assert!(query.unregister_property(&ALIVE));
    assert!(!query.has_property(&ALIVE));
    query.remove_elements(&vec![1, 2]);
    assert_eq!(query.len(), 0);
    assert!(query.universe().contains(&4));
    assert!(!query.universe().contains(&1));
    query.clear();
    assert!(query.is_empty());
}

#[test]
fn property_query_fuse() {
    let mut left = sample_query();
    let mut right = PropertyQuery::new();
    right.set(9, COLOR, 30);
    right.add_value(1, TAG, 9);
    left.fuse(&right, FuseMode::Merge).unwrap();
    assert_eq!(left.get(&9, &COLOR), Some(30));
    assert_eq!(sorted(left.values(&1, &TAG).iter()), vec![7, 8, 9]);
    let mut clashing = PropertyQuery::new();
    clashing.set_flag(5, COLOR);
    let before = left.len();
    assert_eq!(
        left.fuse(&clashing, FuseMode::Overwrite),
        Err(FuseError { property: COLOR, current: PropertyKind::SINGLE, incoming: PropertyKind::FLAG })
    );
    assert_eq!(left.len(), before);
    assert!(!left.contains(&5));
}

fn incoming_query() -> PropertyQuery<u32, u8, u16> {
    let mut query = PropertyQuery::with_properties(&vec![
        (COLOR, PropertyKind::SINGLE),
        (TAG, PropertyKind::MULTI),
        (ALIVE, PropertyKind::FLAG),
        (ID, PropertyKind::UNIQUE_SINGLE),
    ]);
    query.set(1, COLOR, 99);
    query.set(5, COLOR, 50);
    query.add_value(1, TAG, 9);
    query.set_flag(2, ALIVE);
    query.set(4, ID, 7);
    query
}

#[test]
fn property_query_fuse_merge_keeps_single_values() {
    let mut left = sample_query();
    left.fuse(&incoming_query(), FuseMode::Merge).unwrap();
    assert_eq!(left.get(&1, &COLOR), Some(10));
    assert_eq!(left.get(&5, &COLOR), Some(50));
    assert_eq!(sorted(left.values(&1, &TAG).iter()), vec![7, 8, 9]);
    assert_eq!(sorted(left.values(&2, &TAG).iter()), vec![8]);
    assert_eq!(sorted(left.members_with(&COLOR, &10).iter()), vec![1, 3]);
    assert!(left.has(&1, &ALIVE) && left.has(&2, &ALIVE) && left.has(&3, &ALIVE));
    assert_eq!(left.get(&4, &ID), Some(7));
    assert!(left.universe().contains(&5));
}

#[test]
fn property_query_fuse_overwrite_replaces_values() {
    let mut left = sample_query();
    left.fuse(&incoming_query(), FuseMode::Overwrite).unwrap();
    assert_eq!(left.get(&1, &COLOR), Some(99));
    assert_eq!(left.get(&3, &COLOR), Some(10));
    assert_eq!(left.get(&5, &COLOR), Some(50));
    assert_eq!(sorted(left.values(&1, &TAG).iter()), vec![9]);
    assert_eq!(sorted(left.values(&2, &TAG).iter()), vec![8]);
    assert!(left.has(&1, &ALIVE) && left.has(&2, &ALIVE) && left.has(&3, &ALIVE));
    assert_eq!(left.get(&4, &ID), Some(7));
}

#[test]
fn property_query_fuse_unique_value_moves() {
    let mut left = sample_query();
    left.set(1, ID, 7);
    left.fuse(&incoming_query(), FuseMode::Overwrite).unwrap();
    assert_eq!(left.get(&4, &ID), Some(7));
    assert_eq!(left.get(&1, &ID), None);
}

#[test]
fn property_query_fuse_into_empty_copies_everything() {
    let mut empty = PropertyQuery::new();
    let source = sample_query();
    empty.fuse(&source, FuseMode::Merge).unwrap();
    assert!(empty.same_contents(&source));
}

#[test]
fn property_query_cache_survives_unrelated_writes() {
    let mut query = sample_query();
    let alive = Expr::has(ALIVE);
    assert_eq!(sorted(query.query(&alive).iter()), vec![1, 3]);
    assert_eq!(query.cache_len(), 1);
    query.set(1, COLOR, 11);
    query.add_value(2, TAG, 3);
    assert_eq!(query.cache_len(), 1);
    query.set_flag(2, ALIVE);
    assert_eq!(query.cache_len(), 0);
    assert_eq!(sorted(query.query(&alive).iter()), vec![1, 2, 3]);
    let outside = Expr::negate(Expr::has(ALIVE));
    assert_eq!(sorted(query.query(&outside).iter()), vec![4]);
    assert_eq!(query.cache_len(), 2);
    query.insert_element(6);
    assert_eq!(query.cache_len(), 1);
    assert_eq!(sorted(query.query(&outside).iter()), vec![4, 6]);
    assert!(query.remove_value(&1, &TAG, &7));
    assert_eq!(query.cache_len(), 2);
}

#[test]
fn property_query_cache_after_removals_and_bulk_writes() {
    let mut query = sample_query();
    query.query(&Expr::has(TAG));
    query.query(&Expr::has(ALIVE));
    assert_eq!(query.cache_len(), 2);
    assert!(query.remove_element(&3));
    assert_eq!(query.cache_len(), 1);
    query.set_values(4, TAG, &vec![]);
    assert_eq!(query.cache_len(), 1);
    query.set_values(4, TAG, &vec![5]);
    assert_eq!(query.cache_len(), 0);
    query.query(&Expr::has(COLOR));
    query.add(7, &vec![(TAG, 1)]);
    assert_eq!(query.cache_len(), 1);
    query.remove_elements(&vec![]);
    assert_eq!(query.cache_len(), 1);
    query.remove_elements(&vec![2]);
    assert_eq!(query.cache_len(), 0);
}

#[test]
fn property_query_fuse_keeps_unrelated_cache() {
    let mut left = sample_query();
    left.query(&Expr::has(ALIVE));
    left.query(&Expr::has(ID));
    assert_eq!(left.cache_len(), 2);
    let mut right: PropertyQuery<u32, u8, u16> = PropertyQuery::new();
    right.set(1, COLOR, 5);
    left.fuse(&right, FuseMode::Overwrite).unwrap();
    assert_eq!(left.cache_len(), 2);
    let mut flags: PropertyQuery<u32, u8, u16> = PropertyQuery::new();
    flags.set_flag(1, ALIVE);
    left.fuse(&flags, FuseMode::Merge).unwrap();
    assert_eq!(left.cache_len(), 1);
}

#[test]
fn property_query_fuse_merge_unique_keeps_unclaimed_values() {
    let mut left = sample_query();
    left.set(1, ID, 3);
    let mut right = PropertyQuery::with_properties(&vec![(ID, PropertyKind::UNIQUE_SINGLE)]);
    right.set(1, ID, 9);
    right.set(4, ID, 8);
    left.fuse(&right, FuseMode::Merge).unwrap();
    assert_eq!(left.get(&1, &ID), Some(3));
    assert_eq!(left.get(&4, &ID), Some(8));
    assert!(!left.is_value_used(&ID, &9));
}

#[test]
fn sparse_sequence_sort_keeps_indices() {
    let mut sequence = SparseSequence::from_pairs(vec![(2, 9u8), (5, 4), (7, 6)]);
    sequence.sort_by(|a: &u8, b: &u8| a.cmp(b));
    assert_eq!(sequence.iter(), vec![(2, 4), (5, 6), (7, 9)]);
}
