use lib::bit_permuter::BitPermuter;
use lib::lattice::position_hash;
use lib::mixing::{fold_u128, mix128, mix64, splitmix64_next};
use lib::random::Random;
use lib::seed::Seed;
use lib::structures::collections::measured::tally::Tally;
use lib::structures::collections::sequences::ordered_set::OrderedSet;
use lib::structures::entries::Entries;
use lib::structures::sampling::{draw_indices, uniform_indices};

#[test]
fn fold_tells_swapped_halves_apart() {
    let low = 0xFFFF_FFFF_FFFF_FFFFu128;
    let high = low << 64;
    assert_eq!(fold_u128(low), 0xFFFF_FFFF_FFFF_FFFF);
    assert_eq!(fold_u128(high), 0xc391_0c8d_016b_07d6);
    assert_ne!(fold_u128(low), fold_u128(high));
    let v = 0x0123_4567_89ab_cdef_fedc_ba98_7654_3210u128;
    assert_ne!(fold_u128(v), fold_u128(v.rotate_left(64)));
    let same = 0x1111_2222_3333_4444_1111_2222_3333_4444u128;
    assert_eq!(fold_u128(same), fold_u128(same.rotate_left(64)));
}

#[test]
fn seed_conversions() {
    let seed = Seed::from_raw(0xdead_beef);
    assert_eq!(u128::from(seed), seed.value());
    assert_eq!(Seed::from(7u8).value(), Seed::from_integer(7u8).value());
    assert_eq!(Seed::from(-3i64).value(), Seed::from_integer(-3i64).value());
    assert_eq!(Seed::from(true).value(), Seed::from_integer(1u8).value());
    assert_eq!(Seed::from(false).value(), Seed::from_integer(0u8).value());
    assert_eq!(Seed::from('a').value(), Seed::from_integer(97u32).value());
    let mut from_seed = Seed::from_raw(17).to_random();
    let mut direct = Random::new(17);
    assert_eq!(from_seed.next_u64(), direct.next_u64());
    let mut converted = Random::from(Seed::from_raw(17));
    assert_eq!(converted.next_u64(), Random::new(17).next_u64());
}

#[test]
fn advance_keeps_seeds_apart() {
    let mut seen: Vec<u128> = Vec::new();
    for raw in 0u128..64 {
        let next = Seed::from_raw(raw).advance().value();
        assert!(!seen.contains(&next));
        seen.push(next);
    }
}

#[test]
fn uniform_i64_is_an_offset_draw() {
    let mut a = Random::new(3);
    let mut b = Random::new(3);
    assert_eq!(a.uniform_i64(-5, 5), -5 + b.uniform_u64(0, 10) as i64);
    let mut c = Random::new(8);
    let mut d = Random::new(8);
    assert_eq!(c.uniform_i64(i64::MIN, i64::MAX), d.next_u64() as i64);
    assert_eq!(c.next_u64(), d.next_u64());
}

fn ordered(items: &[u32]) -> OrderedSet<u32> {
    OrderedSet::from_vec(&items.to_vec())
}

#[test]
fn ordered_set_results_keep_order() {
    assert_eq!(ordered(&[3, 1, 3, 2, 1, 4]).iter(), vec![3, 1, 2, 4]);
    let a = ordered(&[5, 1, 4, 2]);
    let b = ordered(&[2, 7, 5, 6]);
    assert_eq!(a.intersection(&b).iter(), vec![5, 2]);
    assert_eq!(a.difference(&b).iter(), vec![1, 4]);
    assert_eq!(a.union(&b).iter(), vec![5, 1, 4, 2, 7, 6]);
}

#[test]
fn uniform_indices_draw_like_draw_indices() {
    let mut a = Random::new(12);
    let mut b = Random::new(12);
    let picked = uniform_indices(10, 4, Some(&mut a));
    assert_eq!(picked, draw_indices(10, 4, &mut b));
    assert_eq!(a.next_u64(), b.next_u64());
    let mut c = Random::new(12);
    assert_eq!(draw_indices(3, 9, &mut c).len(), 3);
}

#[test]
fn tally_replace_all_checks_total() {
    let mut tally: Tally<u8> = Tally::new();
    let mut counts: Entries<u8, usize> = Entries::new();
    counts.insert(1, 2);
    counts.insert(4, 3);
    assert!(!tally.replace_all(counts, 4));
    assert_eq!(tally.total(), 0);
    let mut counts: Entries<u8, usize> = Entries::new();
    counts.insert(1, 2);
    counts.insert(4, 3);
    assert!(tally.replace_all(counts, 5));
    assert_eq!(tally.total(), 5);
    assert_eq!(tally.len(), 2);
}

#[test]
fn position_hash_depends_on_order_level_and_dimension() {
    let seed = Seed::from_raw(5);
    assert_eq!(position_hash(seed, -1, [1, 2, 3]), 0x0b9b_c59d_12ee_948f_c206_f044_6064_76a3);
    assert_ne!(position_hash(seed, -1, [1, 2, 3]), position_hash(seed, -1, [3, 2, 1]));
    assert_ne!(position_hash(seed, 0, [1, 2]), position_hash(seed, 0, [1, 2, 0]));
    assert_ne!(position_hash(seed, 0, [-1, -1]), position_hash(seed, 1, [-1, -1]));
}

#[test]
fn bit_permuter_runs() {
    let permuter = BitPermuter::with_seed(4, 99);
    let mut walker = permuter.clone();
    assert_eq!(walker, permuter);
    let mut values: Vec<u128> = Vec::new();
    for k in 0..16u128 {
        assert_eq!(walker.position(), k);
        let value = walker.next_value();
        assert_eq!(value, permuter.peek_value_at(k));
        assert!(value < 16);
        assert!(!values.contains(&value));
        values.push(value);
    }
    assert_eq!(walker.position(), 0);
    assert_eq!(walker, permuter);
    walker.next_value();
    assert_ne!(walker, permuter);
}

#[test]
fn mixers_keep_inputs_apart() {
    let mut outputs: Vec<u64> = Vec::new();
    for value in 0u64..500 {
        let mixed = mix64(value);
        assert!(!outputs.contains(&mixed));
        outputs.push(mixed);
    }
    assert_eq!(mix64(0), 0);
    assert_ne!(mix128(1), mix128(1u128 << 64));
    let start = 12345u64;
    let mut state = start;
    for _ in 0..10_000 {
        splitmix64_next(&mut state);
        assert_ne!(state, start);
    }
}
