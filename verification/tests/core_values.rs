use lib::bit_permuter::BitPermuter;
use lib::mixing::{fold_u128, mix128, mix64, rotate_left_u64, splitmix64, splitmix64_next, GOLDEN_GAMMA};
use lib::random::Random;
use lib::seed::Seed;
use lib::structures::hashing::FastHasher;

#[test]
fn splitmix_known_values() {
    assert_eq!(splitmix64(0), 0xe220_a839_7b1d_cdaf);
    assert_eq!(mix64(0), 0);
    assert_eq!(mix64(1), 0x5692_161d_100b_05e5);
    let mut state: u64 = 0;
    assert_eq!(splitmix64_next(&mut state), 0xe220_a839_7b1d_cdaf);
    assert_eq!(state, GOLDEN_GAMMA);
}

#[test]
fn rotate_and_fold() {
    assert_eq!(rotate_left_u64(1, 63), 1u64 << 63);
    assert_eq!(rotate_left_u64(0x8000_0000_0000_0001, 1), 3);
    assert_eq!(fold_u128(1234), 1234);
    assert_eq!(fold_u128(0x0123_4567_89ab_cdef_fedc_ba98_7654_3210), 0x1804_0a07_ac2f_8346);
}

#[test]
fn mix128_known_values() {
    assert_eq!(mix128(0), 0xa1fc_6182_f5d9_6ce4_a706_dd2f_4d19_7e6f);
    assert_eq!(mix128(42), 0xd366_4458_ad77_20f4_4d9b_3f1e_c9cf_6b1b);
    assert_eq!(mix128(u128::MAX), 0x025d_9562_f0a9_0d30_6309_143e_67a4_7936);
}

#[test]
fn seed_from_integer_ignores_width() {
    assert_eq!(Seed::from_integer(7u8).value(), Seed::from_integer(7u64).value());
    assert_eq!(Seed::from_integer(7i32).value(), Seed::from_integer(7u128).value());
    assert_eq!(Seed::from_integer(-1i8).value(), Seed::from_integer(u128::MAX).value());
    assert_eq!(Seed::from_integer(0u32).value(), mix128(0));
    assert_ne!(Seed::from_integer(1u8).value(), Seed::from_integer(2u8).value());
}

#[test]
fn seed_derivations() {
    let seed = Seed::from_raw(0);
    assert_eq!(seed.advance().value(), 0x72a3_5ee4_0130_6a84_3755_f921_08fe_b3f1);
    assert_eq!(Seed::from_raw(5).domain(3).value(), 6);
    assert_eq!(Seed::from_raw(1234).as_u64(), 1234);
    assert_eq!(Seed::from_raw(0xdead_beef_0000_0000_1234_5678_9abc_def0).as_u32(), 0xf565_ef5e);
}

#[test]
fn seed_below_and_pick() {
    assert_eq!(Seed::from_raw(99).below(0), None);
    assert_eq!(Seed::from_raw(99).below(1), Some(0));
    for raw in 0u128..200 {
        let drawn = Seed::from_integer(raw).below(7).unwrap();
        assert!(drawn < 7);
        assert_eq!(Seed::from_integer(raw).below(7), Some(drawn));
    }
    let items = [10, 20, 30];
    let picked = *Seed::from_raw(3).pick(&items).unwrap();
    assert!(items.contains(&picked));
    let empty: [u8; 0] = [];
    assert!(Seed::from_raw(3).pick(&empty).is_none());
}

#[test]
fn seed_code_known_values() {
    assert_eq!(Seed::from_raw(0).to_code(), "000000-000000-000000-000000-00");
    assert_eq!(Seed::from_raw(u128::MAX).to_code(), "7ZZZZZ-ZZZZZZ-ZZZZZZ-ZZZZZZ-ZZ");
    assert_eq!(
        Seed::from_raw(0x0123_4567_89ab_cdef_fedc_ba98_7654_3210).to_code(),
        "014D2P-F2DBSQ-QZXQ5T-K1V58C-GG"
    );
}

#[test]
fn seed_code_roundtrip() {
    for raw in [0u128, 1, 31, 32, 0xffff, u128::MAX, u128::MAX / 3, 0x0123_4567_89ab_cdef_fedc_ba98_7654_3210] {
        let seed = Seed::from_raw(raw);
        assert_eq!(Seed::from_code(&seed.to_code()).map(|s| s.value()), Some(raw));
    }
}

#[test]
fn seed_code_reading_is_lenient() {
    let raw = 0x0123_4567_89ab_cdef_fedc_ba98_7654_3210u128;
    let read = |text: &str| Seed::from_code(text).map(|s| s.value());
    assert_eq!(read("014d2p-f2dbsq-qzxq5t-k1v58c-gg"), Some(raw));
    assert_eq!(read("014D2PF2DBSQQZXQ5TK1V58CGG"), Some(raw));
    assert_eq!(read("014D2P F2DBSQ_QZXQ5T K1V58C GG"), Some(raw));
    assert_eq!(read("OOOOOO-OOOOOO-OOOOOO-OOOOOO-OI"), Some(1));
    assert_eq!(read("000000-000000-000000-000000-0L"), Some(1));
}

#[test]
fn seed_code_rejections() {
    let read = |text: &str| Seed::from_code(text).map(|s| s.value());
    assert_eq!(read(""), None);
    assert_eq!(read("000000-000000-000000-000000-0"), None);
    assert_eq!(read("000000-000000-000000-000000-000"), None);
    assert_eq!(read("800000-000000-000000-000000-00"), None);
    assert_eq!(read("000000-000000-000000-000000-0U"), None);
    assert_eq!(read("000000+000000-000000-000000-00"), None);
}

#[test]
fn seed_hex_known_values() {
    assert_eq!(Seed::from_raw(0).to_hex(), "00000000000000000000000000000000");
    assert_eq!(Seed::from_raw(u128::MAX).to_hex(), "ffffffffffffffffffffffffffffffff");
    assert_eq!(
        Seed::from_raw(0x0123_4567_89ab_cdef_fedc_ba98_7654_3210).to_hex(),
        "0123456789abcdeffedcba9876543210"
    );
}

#[test]
fn seed_hex_roundtrip() {
    for raw in [0u128, 1, 15, 16, 0xabc, u128::MAX, u128::MAX / 7, 0x0123_4567_89ab_cdef_fedc_ba98_7654_3210] {
        let seed = Seed::from_raw(raw);
        assert_eq!(Seed::from_hex(&seed.to_hex()).map(|s| s.value()), Some(raw));
    }
}

#[test]
fn seed_hex_reading() {
    let read = |text: &str| Seed::from_hex(text).map(|s| s.value());
    assert_eq!(read("ff"), Some(255));
    assert_eq!(read("FF"), Some(255));
    assert_eq!(read("0xff"), Some(255));
    assert_eq!(read("0X1_0"), Some(16));
    assert_eq!(read("  \t0x0xAB \n"), Some(0xab));
    assert_eq!(read("+a"), Some(10));
    assert_eq!(read("dead_beef"), Some(0xdead_beef));
    assert_eq!(read("\u{3000}7\u{a0}"), Some(7));
    assert_eq!(read("ffffffffffffffffffffffffffffffff"), Some(u128::MAX));
    assert_eq!(read("0000000000000000000000000000000000001"), Some(1));
    assert_eq!(read("0x00_ff"), Some(255));
}

#[test]
fn seed_hex_rejections() {
    let read = |text: &str| Seed::from_hex(text).map(|s| s.value());
    assert_eq!(read(""), None);
    assert_eq!(read("   "), None);
    assert_eq!(read("0x"), None);
    assert_eq!(read("+"), None);
    assert_eq!(read("-1"), None);
    assert_eq!(read("g"), None);
    assert_eq!(read("1 2"), None);
    assert_eq!(read("_"), None);
    assert_eq!(read("100000000000000000000000000000000"), None);
    assert_eq!(read("xyz"), None);
}

#[test]
fn seed_code_lowercase_roundtrip() {
    for raw in [0u128, 1, 31, 0xffff, u128::MAX, 0x0123_4567_89ab_cdef_fedc_ba98_7654_3210] {
        let seed = Seed::from_raw(raw);
        let lower = seed.to_code().to_lowercase();
        assert_eq!(Seed::from_code(&lower).map(|s| s.value()), Some(raw));
    }
}

#[test]
fn permuter_with_seed_is_new_with_unit_step() {
    for (bits, seed) in [(1u32, 0u128), (20, 0xfeed), (64, u128::MAX), (128, 12345)] {
        assert_eq!(BitPermuter::with_seed(bits, seed), BitPermuter::new(bits, seed, 1, 0));
    }
}

#[test]
fn permuter_visits_every_value_once() {
    let mut permuter = BitPermuter::new(8, 12345, 77, 3);
    let mut seen = [false; 256];
    for _ in 0..256 {
        let value = permuter.next_value();
        assert!(value < 256);
        assert!(!seen[value as usize]);
        seen[value as usize] = true;
    }
    assert_eq!(permuter.position(), 0);
}

#[test]
fn permuter_roundtrips() {
    let permuter = BitPermuter::with_seed(20, 0xfeed);
    for index in [0u128, 1, 2, 999, 65_535, (1 << 20) - 1] {
        let value = permuter.peek_value_at(index);
        assert_eq!(permuter.index_of_output(value), index);
        assert_eq!(permuter.invert_permuted(permuter.permute_bits(index)), index);
        assert_eq!(permuter.permute_bits(permuter.invert_permuted(index)), index);
    }
}

#[test]
fn permuter_position_and_peek_agree() {
    let mut permuter = BitPermuter::new(16, 99, 5, 11);
    permuter.set_position(40);
    assert_eq!(permuter.position(), 40);
    let expected = permuter.peek_value_at(40);
    assert_eq!(permuter.next_value(), expected);
    assert_eq!(permuter.position(), 41);
    permuter.set_position(1 << 16);
    assert_eq!(permuter.position(), 0);
}

#[test]
fn permuter_settings_are_reduced() {
    let permuter = BitPermuter::new(4, 0xff, 2, 0x13);
    assert_eq!(permuter.bits(), 4);
    assert_eq!(permuter.seed(), 0xf);
    assert_eq!(permuter.step(), 3);
    assert_eq!(permuter.offset(), 3);
    let full = BitPermuter::with_seed(128, u128::MAX);
    assert_eq!(full.seed(), u128::MAX);
    assert_eq!(full.invert_permuted(full.permute_bits(u128::MAX)), u128::MAX);
}

#[test]
fn permuter_bytes_roundtrip() {
    let mut permuter = BitPermuter::new(24, 0xabcdef, 0x1235, 0x77);
    permuter.set_position(1000);
    let bytes = permuter.to_bytes();
    assert_eq!(bytes[0], 24);
    let mut restored = BitPermuter::from_bytes(&bytes).unwrap();
    assert_eq!(restored.seed(), permuter.seed());
    assert_eq!(restored.step(), permuter.step());
    assert_eq!(restored.offset(), permuter.offset());
    // The counter is not part of the encoding.
    assert_eq!(restored.position(), 0);
    assert_eq!(restored.next_value(), permuter.peek_value_at(0));
    assert_eq!(restored.to_bytes(), bytes);
}

#[test]
fn permuter_bytes_rejections() {
    assert!(BitPermuter::from_bytes(&[]).is_none());
    assert!(BitPermuter::from_bytes(&[0, 1, 2, 3]).is_none());
    assert!(BitPermuter::from_bytes(&[129, 1, 2, 3]).is_none());
    assert!(BitPermuter::from_bytes(&[8, 1, 2]).is_none());
    assert!(BitPermuter::from_bytes(&[8, 1, 2, 3]).is_some());
}

#[test]
fn random_known_stream() {
    let mut random = Random::new(0);
    assert_eq!(random.seed(), 0);
    assert_eq!(random.next_u64(), 0x422e_a740_d097_7210);
    assert_eq!(random.next_u64(), 0xe062_b061_b42e_2928);
    assert_eq!(random.next_u32(), 0x5a07_1fc5);
    random.reseed(0);
    assert_eq!(random.next_u128(), 0x422e_a740_d097_7210_e062_b061_b42e_2928);
}

#[test]
fn random_ranges() {
    let mut random = Random::new(77);
    for _ in 0..1000 {
        let value = random.uniform_u64(10, 20);
        assert!((10..=20).contains(&value));
        let signed = random.uniform_i64(-5, 5);
        assert!((-5..=5).contains(&signed));
        assert!(random.uniform_index(3) < 3);
    }
    assert_eq!(random.uniform_u64(4, 4), 4);
    assert_eq!(random.seed(), 77);
}

#[test]
fn hasher_known_values() {
    let mut hasher = FastHasher::new();
    hasher.write(b"abc");
    assert_eq!(hasher.finish(), 0x93fe_3af6_977b_84a2);
    let mut single = FastHasher::new();
    single.write_u8(7);
    assert_eq!(single.finish(), 0x9d12_ca91_8e61_d971);
    let mut same = FastHasher::new();
    same.write_u64(7);
    assert_eq!(same.finish(), single.finish());
    assert_eq!(FastHasher::new().finish(), 0);
}
