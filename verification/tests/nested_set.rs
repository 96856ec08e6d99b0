use lib::structures::collections::sets::nested_set::NestedSet;
use lib::structures::hashing::{hash_one, unordered_hash};

fn sorted<T: Ord>(mut items: Vec<T>) -> Vec<T> {
    items.sort();
    items
}

#[test]
fn nested_set_membership() {
    let mut set = NestedSet::new();
    assert!(set.is_empty());
    for x in 0u64..2000 {
        assert!(set.insert(x * 7));
    }
    assert!(!set.insert(14));
    assert_eq!(set.len(), 2000);
    assert!(set.contains(&0));
    assert!(set.contains(&13993));
    assert!(!set.contains(&13994));
    assert!(set.depth() >= 2);
    assert!(set.depth() <= 13);
    for x in 0u64..1000 {
        assert!(set.remove(&(x * 7)));
    }
    assert!(!set.remove(&0));
    assert_eq!(set.len(), 1000);
    assert_eq!(set.take(&7000), Some(7000));
    assert_eq!(set.take(&7000), None);
    assert_eq!(set.iter().len(), 999);
    set.clear();
    assert!(set.is_empty());
    assert_eq!(set.depth(), 1);
}

#[test]
fn nested_set_iter_and_retain() {
    let mut set = NestedSet::new();
    set.extend(&vec![5i32, -3, 5, 12, 40]);
    assert_eq!(sorted(set.iter()), vec![-3, 5, 12, 40]);
    set.retain(|x| *x > 0);
    assert_eq!(sorted(set.iter()), vec![5, 12, 40]);
    assert_eq!(NestedSet::<u8>::default().len(), 0);
}

#[test]
fn nested_set_algebra() {
    let mut a = NestedSet::new();
    a.extend(&vec![1u16, 2, 3, 4]);
    let mut b = NestedSet::new();
    b.extend(&vec![3u16, 4, 5]);
    assert_eq!(sorted(a.union(&b).iter()), vec![1, 2, 3, 4, 5]);
    assert_eq!(sorted(a.intersection(&b).iter()), vec![3, 4]);
    assert_eq!(sorted(a.difference(&b).iter()), vec![1, 2]);
    assert_eq!(sorted(a.symmetric_difference(&b).iter()), vec![1, 2, 5]);
    assert!(a.intersection(&b).is_subset(&a));
    assert!(a.is_superset(&a.difference(&b)));
    assert!(!a.is_disjoint(&b));
    assert!(a.difference(&b).is_disjoint(&b));
    assert!(a.union(&b).equals(&b.union(&a)));
    assert!(!a.equals(&b));
}

#[test]
fn hashes_of_keys() {
    assert_eq!(hash_one(&7u32), 0x72ca_03d2_02af_0032);
    assert_eq!(hash_one(&7u8), hash_one(&7u64));
    assert_eq!(hash_one(&7u16), hash_one(&7u32));
    assert_eq!(hash_one(&-1i64), hash_one(&u64::MAX));
    assert_eq!(hash_one(&true), hash_one(&1u8));
    assert_ne!(hash_one(&1u8), hash_one(&2u8));
    let a = unordered_hash(&vec![1u32, 2, 3]);
    let b = unordered_hash(&vec![3u32, 1, 2]);
    assert_eq!(a, b);
    assert_ne!(a, unordered_hash(&vec![1u32, 2]));
}
