use lib::structures::collections::sets::unordered_set::UnorderedSet;
use lib::structures::entries::Entries;
use lib::structures::mappings::grouped::grouped_multi_map::GroupedMultiMap;
use lib::structures::mappings::grouped::grouped_single_map::GroupedSingleMap;
use lib::structures::mappings::multi::multi_map::MultiMap;
use lib::structures::mappings::multi::unique_multi_map::UniqueMultiMap;
use lib::structures::mappings::single::bi_map::{BiMap, Overwritten};
use lib::structures::mappings::single::pair_map::PairMap;
use lib::structures::mappings::single::single_map::SingleMap;
use lib::structures::relation::Relation;

fn sorted<T: Ord>(mut items: Vec<T>) -> Vec<T> {
    items.sort();
    items
}

fn members<T: lib::structures::traits::key::Key + Ord>(set: Option<UnorderedSet<T>>) -> Vec<T> {
    match set {
        Some(set) => sorted(set.iter()),
        None => Vec::new(),
    }
}

#[test]
fn entries_behave_as_a_map() {
    let mut entries: Entries<u8, &str> = Entries::new();
    assert_eq!(entries.insert(1, "one"), None);
    assert_eq!(entries.insert(2, "two"), None);
    assert_eq!(entries.insert(1, "uno"), Some("one"));
    assert_eq!(entries.len(), 2);
    assert_eq!(entries.get(&1), Some(&"uno"));
    assert_eq!(entries.remove(&2), Some("two"));
    assert!(!entries.contains_key(&2));
}

#[test]
fn single_map_basics() {
    let mut map = SingleMap::new();
    assert_eq!(map.insert('a', 1u8), None);
    assert_eq!(map.insert('a', 2), Some(1));
    assert!(!map.try_insert('a', 3));
    assert!(map.try_insert('b', 3));
    assert!(map.contains_pair(&'a', &2));
    assert!(!map.remove_pair(&'a', &3));
    assert!(map.remove_pair(&'a', &2));
    assert_eq!(map.get_key_value(&'b'), Some(('b', 3)));
    assert_eq!(map.remove_entry(&'b'), Some(('b', 3)));
    assert!(map.is_empty());
}

#[test]
fn bi_map_reports_what_it_displaced() {
    let mut map = BiMap::new();
    assert!(matches!(map.insert(1u8, 'a'), Overwritten::Neither));
    assert!(matches!(map.insert(2, 'b'), Overwritten::Neither));
    assert!(matches!(map.insert(1, 'a'), Overwritten::Pair(1, 'a')));
    assert!(matches!(map.insert(1, 'c'), Overwritten::Left(1, 'a')));
    assert!(matches!(map.insert(3, 'b'), Overwritten::Right(2, 'b')));
    assert!(matches!(map.insert(1, 'b'), Overwritten::Both((1, 'c'), (3, 'b'))));
    assert_eq!(map.len(), 1);
    assert_eq!(map.get_by_left(&1), Some('b'));
    assert_eq!(map.get_by_right(&'b'), Some(1));
    assert_eq!(map.insert_no_overwrite(1, 'z'), Err((1, 'z')));
    assert_eq!(map.insert_no_overwrite(4, 'd'), Ok(()));
    assert_eq!(map.remove_by_right(&'d'), Some((4, 'd')));
    assert!(!map.insert(5, 'e').did_overwrite());
}

#[test]
fn pair_map_is_exclusive() {
    let mut pairs = PairMap::new();
    assert!(pairs.insert(1u8, 2));
    assert!(pairs.insert(3, 4));
    assert!(!pairs.insert(2, 1));
    assert!(pairs.contains_pair(&2, &1));
    assert!(pairs.insert(2, 3));
    assert_eq!(pairs.partner(&2), Some(3));
    assert_eq!(pairs.partner(&1), None);
    assert_eq!(pairs.partner(&4), None);
    assert_eq!(pairs.len(), 1);
    assert!(pairs.insert(5, 5));
    assert_eq!(pairs.partner(&5), Some(5));
    assert_eq!(pairs.remove(&3), Some(2));
    assert!(!pairs.contains(&2));
}

#[test]
fn multi_map_shares_values() {
    let mut map = MultiMap::new();
    assert!(map.insert('a', 1u8));
    assert!(map.insert('a', 2));
    assert!(map.insert('b', 2));
    assert!(!map.insert('b', 2));
    assert_eq!(map.pair_count(), 3);
    assert_eq!(members(map.get(&'a')), vec![1, 2]);
    assert_eq!(members(map.keys_of(&2)), vec!['a', 'b']);
    assert_eq!(members(map.remove_value(&2)), vec!['a', 'b']);
    assert_eq!(map.pair_count(), 1);
    assert!(map.remove_pair(&'a', &1));
    assert!(map.is_empty());
}

#[test]
fn unique_multi_map_moves_values() {
    let mut map = UniqueMultiMap::new();
    assert!(map.insert('a', 1u8));
    assert!(!map.insert('b', 1));
    assert_eq!(map.insert_or_move('b', 1), Some('a'));
    assert_eq!(map.key_of(&1), Some('b'));
    map.insert_all('c', &vec![1, 2, 3]);
    assert_eq!(map.key_of(&2), Some('c'));
    assert_eq!(map.remove_value(&3), Some('c'));
    assert_eq!(members(map.remove(&'c')), vec![2]);
}

#[test]
fn grouped_single_map_groups() {
    let mut map = GroupedSingleMap::new();
    assert_eq!(map.insert(1u32, 'x'), None);
    assert_eq!(map.insert(2, 'x'), None);
    assert_eq!(map.insert(3, 'y'), None);
    assert_eq!(map.insert(3, 'x'), Some('y'));
    assert_eq!(sorted(map.group(&'x').iter()), vec![1, 2, 3]);
    assert!(map.group(&'y').is_empty());
    assert_eq!(members(map.group_of(&2)), vec![1, 2, 3]);
    assert_eq!(members(map.remove_group(&'x')), vec![1, 2, 3]);
    assert!(map.is_empty());
}

#[test]
fn grouped_multi_map_groups() {
    let mut map = GroupedMultiMap::new();
    assert!(map.insert(1u32, 'x'));
    assert!(map.insert(1, 'y'));
    assert!(map.insert(2, 'x'));
    assert_eq!(sorted(map.group(&'x').iter()), vec![1, 2]);
    assert_eq!(members(map.get(&1)), vec!['x', 'y']);
    assert_eq!(map.largest_group(), Some('x'));
    assert_eq!(map.smallest_group(), Some('y'));
    assert_eq!(map.labels_with_len(2), vec!['x']);
    assert!(map.remove_pair(&1, &'x'));
    assert_eq!(sorted(map.group(&'x').iter()), vec![2]);
    assert_eq!(members(map.remove(&1)), vec!['y']);
}

#[test]
fn relation_image_and_preimage() {
    let mut relation = Relation::new();
    assert!(relation.insert(1u8, 'a'));
    assert!(relation.insert(1, 'b'));
    assert!(relation.insert(2, 'a'));
    assert!(!relation.insert(2, 'a'));
    assert_eq!(relation.pair_count(), 3);
    assert_eq!(sorted(relation.image(&1).iter()), vec!['a', 'b']);
    assert_eq!(sorted(relation.preimage(&'a').iter()), vec![1, 2]);
    assert_eq!(sorted(relation.domain().iter()), vec![1, 2]);
    assert_eq!(sorted(relation.remove_key(&1).iter()), vec!['a', 'b']);
    assert_eq!(sorted(relation.range().iter()), vec!['a']);
    assert!(relation.remove_pair(&2, &'a'));
    assert!(!relation.contains_key(&2));
}
