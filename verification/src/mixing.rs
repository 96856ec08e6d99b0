//! Bit mixing primitives: the finalizer steps of SplitMix64.
//!
//! Every function here is a fixed integer computation, so each is specified
//! exactly by a spec function of the same shape. The mixers are bijective:
//! distinct inputs give distinct outputs (`lemma_mix64_injective`,
//! `lemma_mix128_injective`).
use vstd::prelude::*;
use vstd::arithmetic::div_mod::{
    lemma_add_mod_noop_right, lemma_mul_mod_noop_left, lemma_mul_mod_noop_right, lemma_mod_equivalence,
    lemma_small_mod, lemma_fundamental_div_mod_converse,
};

verus! {

/// Fractional part of the golden ratio, scaled to 64 bits. Odd, so adding it
/// repeatedly walks the whole 64-bit range.
pub const GOLDEN_GAMMA: u64 = 0x9E37_79B9_7F4A_7C15;

pub const MIX_C1: u64 = 0xBF58_476D_1CE4_E5B9;

pub const MIX_C2: u64 = 0x94D0_49BB_1331_11EB;

/// The factor the upper half is scaled by when folding: twice the golden
/// gamma, so even.
pub const FOLD_MULTIPLIER: u64 = 0x3C6E_F372_FE94_F82A;

/// 2^64.
pub open spec fn word_modulus() -> int {
    0x1_0000_0000_0000_0000int
}

/// `x * y` modulo 2^64.
pub open spec fn wmul64(x: u64, y: u64) -> u64 {
    ((x as nat * y as nat) % 0x1_0000_0000_0000_0000nat) as u64
}

/// `x + y` modulo 2^64.
pub open spec fn wadd64(x: u64, y: u64) -> u64 {
    ((x as nat + y as nat) % 0x1_0000_0000_0000_0000nat) as u64
}

/// Rotation of a 64-bit word to the left by `r` places, `0 < r < 64`.
pub open spec fn rotl64(x: u64, r: u64) -> u64 {
    ((x << r) | (x >> (64 - r))) as u64
}

/// The avalanche step.
pub open spec fn mix64_spec(value: u64) -> u64 {
    let a = wmul64(value ^ (value >> 30u64), MIX_C1);
    let b = wmul64(a ^ (a >> 27u64), MIX_C2);
    b ^ (b >> 31u64)
}

/// SplitMix64 on one value: a gamma step, then the avalanche.
pub open spec fn splitmix64_spec(value: u64) -> u64 {
    mix64_spec(wadd64(value, GOLDEN_GAMMA))
}

/// The fold of the halves `lower` and `upper`: the lower half plus the upper
/// half times `FOLD_MULTIPLIER`, modulo 2^64.
pub open spec fn fold_halves(lower: u64, upper: u64) -> u64 {
    wadd64(lower, wmul64(upper, FOLD_MULTIPLIER))
}

/// The value's lower half plus its upper half times `FOLD_MULTIPLIER`,
/// modulo 2^64.
pub open spec fn fold_u128_spec(value: u128) -> u64 {
    fold_halves(value as u64, (value >> 64u128) as u64)
}

/// The value with its two 64-bit halves exchanged.
pub open spec fn swap_halves(value: u128) -> u128 {
    ((value << 64u128) | (value >> 64u128)) as u128
}

/// A multiple of an invertible factor that vanishes modulo 2^64 has a
/// vanishing multiplicand.
proof fn lemma_cancel_factor(d: int, k: int, inverse: int)
    requires
        (k * inverse) % word_modulus() == 1,
        (d * k) % word_modulus() == 0,
    ensures
        d % word_modulus() == 0,
{
    let n = word_modulus();
    lemma_mul_mod_noop_left(d * k, inverse, n);
    lemma_mul_mod_noop_right(d, k * inverse, n);
    assert(d * k * inverse == d * (k * inverse)) by (nonlinear_arith);
}

/// A nonzero difference of two words does not vanish modulo 2^64.
proof fn lemma_nonzero_difference(x: u64, y: u64)
    requires
        x != y,
    ensures
        (x - y) % word_modulus() != 0,
{
    let n = word_modulus();
    if x > y {
        lemma_small_mod((x - y) as nat, n as nat);
    } else {
        lemma_fundamental_div_mod_converse(x - y, n, -1, x - y + n);
    }
}

/// Multiplying by a factor with an inverse modulo 2^64 is injective.
proof fn lemma_wmul_injective(x: u64, y: u64, k: u64, inverse: int)
    requires
        (k * inverse) % word_modulus() == 1,
        wmul64(x, k) == wmul64(y, k),
    ensures
        x == y,
{
    let n = word_modulus();
    lemma_mod_equivalence(x * k, y * k, n);
    assert(x * k - y * k == (x - y) * k) by (nonlinear_arith);
    if x != y {
        lemma_cancel_factor(x - y, k as int, inverse);
        lemma_nonzero_difference(x, y);
    }
}

/// Adding a constant modulo 2^64 is injective.
proof fn lemma_wadd_injective(x: u64, y: u64, k: u64)
    requires
        wadd64(x, k) == wadd64(y, k),
    ensures
        x == y,
{
    let n = word_modulus();
    lemma_mod_equivalence(x + k, y + k, n);
    if x != y {
        lemma_nonzero_difference(x, y);
    }
}

/// A value and its halves swapped fold to different results unless the
/// halves are equal: the two folds differ by an odd multiple of the halves'
/// difference.
pub proof fn lemma_fold_swap(value: u128)
    requires
        value as u64 != (value >> 64u128) as u64,
    ensures
        fold_u128_spec(value) != fold_u128_spec(swap_halves(value)),
{
    let l = value as u64;
    let u = (value >> 64u128) as u64;
    let w = swap_halves(value);
    assert(w as u64 == u && (w >> 64u128) as u64 == l) by (bit_vector)
        requires
            w == ((value << 64u128) | (value >> 64u128)) as u128,
            l == value as u64,
            u == (value >> 64u128) as u64;
    let n = word_modulus();
    let c = FOLD_MULTIPLIER as int;
    lemma_add_mod_noop_right(l as int, u * c, n);
    lemma_add_mod_noop_right(u as int, l * c, n);
    if fold_halves(l, u) == fold_halves(u, l) {
        lemma_mod_equivalence(l + u * c, u + l * c, n);
        assert(l + u * c - (u + l * c) == (l - u) * (1 - c)) by (nonlinear_arith);
        assert(((1 - c) * 0x66633acb4a21dbe7int) % n == 1);
        lemma_cancel_factor(l - u, 1 - c, 0x66633acb4a21dbe7int);
        lemma_nonzero_difference(l, u);
    }
}

/// The exclusive-or shift `x ^ (x >> s)` of the avalanche is injective.
proof fn lemma_xorshift_injective(x: u64, y: u64)
    ensures
        (x ^ (x >> 30u64)) == (y ^ (y >> 30u64)) ==> x == y,
        (x ^ (x >> 27u64)) == (y ^ (y >> 27u64)) ==> x == y,
        (x ^ (x >> 31u64)) == (y ^ (y >> 31u64)) ==> x == y,
{
    assert(((x ^ (x >> 30u64)) == (y ^ (y >> 30u64)) ==> x == y)
        && ((x ^ (x >> 27u64)) == (y ^ (y >> 27u64)) ==> x == y)
        && ((x ^ (x >> 31u64)) == (y ^ (y >> 31u64)) ==> x == y)) by (bit_vector);
}

/// The avalanche step is injective: distinct words never mix alike.
pub proof fn lemma_mix64_injective(x: u64, y: u64)
    requires
        mix64_spec(x) == mix64_spec(y),
    ensures
        x == y,
{
    let ax = wmul64(x ^ (x >> 30u64), MIX_C1);
    let ay = wmul64(y ^ (y >> 30u64), MIX_C1);
    let bx = wmul64(ax ^ (ax >> 27u64), MIX_C2);
    let by = wmul64(ay ^ (ay >> 27u64), MIX_C2);
    lemma_xorshift_injective(bx, by);
    assert((MIX_C2 as int * 0x319642b2d24d8ec3int) % word_modulus() == 1);
    lemma_wmul_injective(ax ^ (ax >> 27u64), ay ^ (ay >> 27u64), MIX_C2, 0x319642b2d24d8ec3int);
    lemma_xorshift_injective(ax, ay);
    assert((MIX_C1 as int * 0x96de1b173f119089int) % word_modulus() == 1);
    lemma_wmul_injective(x ^ (x >> 30u64), y ^ (y >> 30u64), MIX_C1, 0x96de1b173f119089int);
    lemma_xorshift_injective(x, y);
}

/// SplitMix64 on one value is injective.
pub proof fn lemma_splitmix64_injective(x: u64, y: u64)
    requires
        splitmix64_spec(x) == splitmix64_spec(y),
    ensures
        x == y,
{
    lemma_mix64_injective(wadd64(x, GOLDEN_GAMMA), wadd64(y, GOLDEN_GAMMA));
    lemma_wadd_injective(x, y, GOLDEN_GAMMA);
}

/// Full-width 128-bit mix built from two SplitMix64 rounds.
pub open spec fn mix128_spec(value: u128) -> u128 {
    let lower = value as u64;
    let upper = (value >> 64u128) as u64;
    let low_out = splitmix64_spec(lower ^ splitmix64_spec(upper));
    let high_out = splitmix64_spec(upper ^ rotl64(low_out, 32));
    ((high_out as u128) * 0x1_0000_0000_0000_0000u128 + low_out as u128) as u128
}

/// A 128-bit value is determined by its two halves.
proof fn lemma_halves_determine(a: u128, b: u128)
    requires
        a as u64 == b as u64,
        (a >> 64u128) as u64 == (b >> 64u128) as u64,
    ensures
        a == b,
{
    assert(a == b) by (bit_vector)
        requires
            a as u64 == b as u64,
            (a >> 64u128) as u64 == (b >> 64u128) as u64;
}

/// Exclusive-or with the same word can be cancelled.
proof fn lemma_xor_cancel(x: u64, y: u64, k: u64)
    requires
        x ^ k == y ^ k,
    ensures
        x == y,
{
    assert(x == y) by (bit_vector)
        requires
            x ^ k == y ^ k;
}

/// The 128-bit mix is injective: distinct values never mix alike.
pub proof fn lemma_mix128_injective(a: u128, b: u128)
    requires
        mix128_spec(a) == mix128_spec(b),
    ensures
        a == b,
{
    let n = word_modulus();
    let la = a as u64;
    let ua = (a >> 64u128) as u64;
    let lb = b as u64;
    let ub = (b >> 64u128) as u64;
    let low_a = splitmix64_spec(la ^ splitmix64_spec(ua));
    let high_a = splitmix64_spec(ua ^ rotl64(low_a, 32));
    let low_b = splitmix64_spec(lb ^ splitmix64_spec(ub));
    let high_b = splitmix64_spec(ub ^ rotl64(low_b, 32));
    assert(high_a as int * n + low_a as int <= (n - 1) * n + (n - 1)) by (nonlinear_arith)
        requires
            high_a < n,
            low_a < n;
    assert(high_b as int * n + low_b as int <= (n - 1) * n + (n - 1)) by (nonlinear_arith)
        requires
            high_b < n,
            low_b < n;
    let x = high_a as int * n + low_a as int;
    assert(x == high_b as int * n + low_b as int);
    lemma_fundamental_div_mod_converse(x, n, high_a as int, low_a as int);
    lemma_fundamental_div_mod_converse(x, n, high_b as int, low_b as int);
    lemma_splitmix64_injective(ua ^ rotl64(low_a, 32), ub ^ rotl64(low_b, 32));
    lemma_xor_cancel(ua, ub, rotl64(low_a, 32));
    lemma_splitmix64_injective(la ^ splitmix64_spec(ua), lb ^ splitmix64_spec(ub));
    lemma_xor_cancel(la, lb, splitmix64_spec(ua));
    lemma_halves_determine(a, b);
}

/// The counter after `steps` further gamma steps from `start`.
pub open spec fn gamma_walk(start: u64, steps: nat) -> u64
    decreases steps,
{
    if steps == 0 {
        start
    } else {
        wadd64(gamma_walk(start, (steps - 1) as nat), GOLDEN_GAMMA)
    }
}

/// After `steps` gamma steps the counter stands at the start plus `steps`
/// gammas, modulo 2^64.
proof fn lemma_gamma_walk_value(start: u64, steps: nat)
    ensures
        gamma_walk(start, steps) as int == (start + steps * GOLDEN_GAMMA) % word_modulus(),
    decreases steps,
{
    let n = word_modulus();
    if steps == 0 {
        lemma_small_mod(start as nat, n as nat);
    } else {
        let prev = (steps - 1) as nat;
        lemma_gamma_walk_value(start, prev);
        vstd::arithmetic::div_mod::lemma_add_mod_noop(start + prev * GOLDEN_GAMMA, GOLDEN_GAMMA as int, n);
        lemma_small_mod(GOLDEN_GAMMA as nat, n as nat);
        vstd::arithmetic::div_mod::lemma_mod_twice(start + prev * GOLDEN_GAMMA, n);
        assert(start + prev * GOLDEN_GAMMA + GOLDEN_GAMMA == start + steps * GOLDEN_GAMMA) by (nonlinear_arith)
            requires
                prev + 1 == steps;
        vstd::arithmetic::div_mod::lemma_add_mod_noop((start + prev * GOLDEN_GAMMA) % n, GOLDEN_GAMMA as int, n);
    }
}

/// The stream counter of `splitmix64_next` visits every one of the 2^64
/// states before repeating: fewer than 2^64 calls, but at least one, never
/// bring it back to where it started, because the gamma is odd.
pub proof fn lemma_gamma_walk_no_return(start: u64, steps: nat)
    requires
        0 < steps < word_modulus(),
    ensures
        gamma_walk(start, steps) != start,
{
    let n = word_modulus();
    lemma_gamma_walk_value(start, steps);
    lemma_small_mod(start as nat, n as nat);
    if gamma_walk(start, steps) == start {
        lemma_mod_equivalence(start + steps * GOLDEN_GAMMA, start as int, n);
        assert(start + steps * GOLDEN_GAMMA - start == steps * GOLDEN_GAMMA);
        assert((GOLDEN_GAMMA as int * 0xf1de83e19937733dint) % n == 1);
        lemma_cancel_factor(steps as int, GOLDEN_GAMMA as int, 0xf1de83e19937733dint);
        lemma_small_mod(steps, n as nat);
    }
}

pub fn rotate_left_u64(x: u64, r: u32) -> (out: u64)
    requires
        0 < r < 64,
    ensures
        out == rotl64(x, r as u64),
{
    let r64: u64 = r as u64;
    (x << r64) | (x >> (64 - r64))
}

/// Avalanche step: flipping any single input bit changes about half the
/// output bits.
pub fn mix64(value: u64) -> (out: u64)
    ensures
        out == mix64_spec(value),
{
    let mut x: u64 = value;
    x = (x ^ (x >> 30)).wrapping_mul(MIX_C1);
    x = (x ^ (x >> 27)).wrapping_mul(MIX_C2);
    x ^ (x >> 31)
}

/// SplitMix64 applied to one standalone value.
pub fn splitmix64(value: u64) -> (out: u64)
    ensures
        out == splitmix64_spec(value),
{
    mix64(value.wrapping_add(GOLDEN_GAMMA))
}

/// SplitMix64 as a stream: advances `state` by the gamma and returns the
/// mixed result.
pub fn splitmix64_next(state: &mut u64) -> (out: u64)
    ensures
        *final(state) == wadd64(*old(state), GOLDEN_GAMMA),
        out == mix64_spec(*final(state)),
{
    *state = state.wrapping_add(GOLDEN_GAMMA);
    mix64(*state)
}

/// Folds 128 bits down to 64. The upper half is scaled by an even factor
/// first, so that a value and its halves swapped cannot fold to the same
/// result unless the halves are equal (`lemma_fold_swap`).
pub fn fold_u128(value: u128) -> (out: u64)
    ensures
        out == fold_u128_spec(value),
{
    let lower: u64 = value as u64;
    let upper: u64 = (value >> 64) as u64;
    lower.wrapping_add(upper.wrapping_mul(FOLD_MULTIPLIER))
}

/// Mixes all 128 input bits into all 128 output bits.
pub fn mix128(value: u128) -> (out: u128)
    ensures
        out == mix128_spec(value),
{
    let lower: u64 = value as u64;
    let upper: u64 = (value >> 64) as u64;
    let low_out: u64 = splitmix64(lower ^ splitmix64(upper));
    let high_out: u64 = splitmix64(upper ^ rotate_left_u64(low_out, 32));
    let out: u128 = ((high_out as u128) << 64) | low_out as u128;
    assert(((high_out as u128) << 64u128) | (low_out as u128)
        == ((high_out as u128) * 0x1_0000_0000_0000_0000u128 + low_out as u128) as u128) by (bit_vector);
    out
}

} // verus!
