//! Full-cycle counter + bijective bit permutation for any bit width
//! from 1 to 128 bits.
//!
//! Every value in `0..2^bits` is produced exactly once per cycle, in a
//! scrambled order determined by the seed. The permutation and the counter
//! are both invertible, so an output value can be mapped back to the index
//! at which it was (or will be) produced.
//!
//! All arithmetic is done modulo `2^bits`, which is why the values are
//! `u128`: wrapping unsigned arithmetic is exactly that ring.
use vstd::prelude::*;
use vstd::arithmetic::power2::{pow2, lemma_pow2_unfold, lemma_pow2_pos};
use vstd::arithmetic::div_mod::{lemma_small_mod, lemma_add_mod_noop, lemma_sub_mod_noop, lemma_mul_mod_noop_left, lemma_mul_mod_noop_right, lemma_mod_twice};
use crate::mixing::{mix128, mix128_spec};
use crate::modular::{
    low_mask, affine, unaffine, xorshift, unxorshift, lemma_and_mask_is_mod, lemma_pow2_le_word,
    lemma_affine_roundtrip, lemma_unaffine_roundtrip, lemma_unxorshift_xorshift,
    lemma_xorshift_unxorshift, lemma_xorshift_bound, lemma_mul_low, lemma_add_low, lemma_sub_low,
    lemma_newton, lemma_odd_square, precision, lemma_word_mod, lemma_pow2_128, lemma_mul_cancel,
    lemma_unxorshift_bound, lemma_shr_as_div_pub, lemma_pow2_adds_pub,
};

verus! {

/// The permuter's settings, derived constants and position, as plain values.
pub struct PermuterState {
    pub bits: u32,
    pub seed: u128,
    pub step: u128,
    pub offset: u128,
    pub mask: u128,
    pub counter: u128,
    pub mul1: u128,
    pub mul2: u128,
    pub mul3: u128,
    pub add1: u128,
    pub add2: u128,
    pub shift1: u32,
    pub shift2: u32,
    pub inv_mul1: u128,
    pub inv_mul2: u128,
    pub inv_mul3: u128,
    pub inv_step: u128,
}

/// Size of the cycle: 2^bits.
pub open spec fn modulus(bits: u32) -> int {
    pow2(bits as nat) as int
}

/// An odd multiplier below 2^bits, derived from the seed.
#[verifier::opaque]
pub open spec fn odd_multiplier(seed: u128, salt: u128, mask: u128) -> u128 {
    (mix128_spec(seed ^ salt) | 1) & mask
}

/// An additive constant below 2^bits, derived from the seed.
#[verifier::opaque]
pub open spec fn add_constant(seed: u128, salt: u128, mask: u128) -> u128 {
    mix128_spec(seed.wrapping_add(salt)) & mask
}

/// `inv` is the multiplicative inverse of `a` modulo 2^bits.
pub open spec fn is_inverse(a: u128, inv: u128, bits: u32) -> bool {
    (a as int * inv as int) % modulus(bits) == 1
}

/// Half the width, at least one.
pub open spec fn half_shift(bits: u32) -> u32 {
    if bits / 2 >= 1 { bits / 2 } else { 1 }
}

/// A third of the width, at least one.
pub open spec fn third_shift(bits: u32) -> u32 {
    if bits / 3 >= 1 { bits / 3 } else { 1 }
}

/// The constants that a width and a seed determine, and a position below
/// 2^bits.
pub open spec fn state_wf(p: PermuterState) -> bool {
    &&& 1 <= p.bits <= 128
    &&& p.mask == low_mask(p.bits as nat)
    &&& p.seed <= p.mask
    &&& p.step <= p.mask
    &&& p.offset <= p.mask
    &&& p.counter <= p.mask
    &&& p.step % 2 == 1
    &&& p.mul1 == odd_multiplier(p.seed, 0xA1, p.mask)
    &&& p.mul2 == odd_multiplier(p.seed, 0xB7, p.mask)
    &&& p.mul3 == odd_multiplier(p.seed, 0xC3, p.mask)
    &&& p.add1 == add_constant(p.seed, 0x11, p.mask)
    &&& p.add2 == add_constant(p.seed, 0x29, p.mask)
    &&& p.shift1 == half_shift(p.bits)
    &&& p.shift2 == third_shift(p.bits)
    &&& p.inv_mul1 <= p.mask && is_inverse(p.mul1, p.inv_mul1, p.bits)
    &&& p.inv_mul2 <= p.mask && is_inverse(p.mul2, p.inv_mul2, p.bits)
    &&& p.inv_mul3 <= p.mask && is_inverse(p.mul3, p.inv_mul3, p.bits)
    &&& p.inv_step <= p.mask && is_inverse(p.step, p.inv_step, p.bits)
}

/// What `new(bits, seed, step, offset)` builds: a well-formed state at
/// position zero with the settings cut to `bits` bits and the step odd.
pub open spec fn built(p: PermuterState, bits: u32, seed: u128, step: u128, offset: u128) -> bool {
    &&& state_wf(p)
    &&& p.bits == bits
    &&& p.seed == seed & low_mask(bits as nat)
    &&& p.step == (step | 1) & low_mask(bits as nat)
    &&& p.offset == offset & low_mask(bits as nat)
    &&& p.counter == 0
}

/// The bit permutation: a keyed xor, then affine and xor-shift rounds.
pub open spec fn permute_value(p: PermuterState, v: u128) -> u128 {
    let n = p.bits as nat;
    let x1 = affine((v ^ p.seed) & p.mask, p.mul1, p.add1, n);
    let x3 = affine(xorshift(x1, p.shift1), p.mul2, p.add2, n);
    let x5 = xorshift(x3, p.shift2).wrapping_mul(p.mul3) & p.mask;
    xorshift(x5, p.shift1)
}

/// The rounds of `permute_value` undone in reverse order.
pub open spec fn unpermute_value(p: PermuterState, v: u128) -> u128 {
    let n = p.bits as nat;
    let x4 = unxorshift(v & p.mask, p.shift1, p.bits).wrapping_mul(p.inv_mul3) & p.mask;
    let x2 = unaffine(unxorshift(x4, p.shift2, p.bits), p.add2, p.inv_mul2, n);
    let x0 = unaffine(unxorshift(x2, p.shift1, p.bits), p.add1, p.inv_mul1, n);
    (x0 ^ p.seed) & p.mask
}

/// The value produced at 0-based `index` of a cycle.
pub open spec fn peek_spec(p: PermuterState, index: int) -> u128 {
    permute_value(p, (((index + 1) * p.step + p.offset) % modulus(p.bits)) as u128)
}

/// The 0-based index at which `output` is produced.
pub open spec fn index_spec(p: PermuterState, output: u128) -> int {
    let m = modulus(p.bits);
    ((((unpermute_value(p, output) - p.offset) % m) * p.inv_step) % m - 1) % m
}

/// Number of values produced so far, modulo 2^bits.
pub open spec fn position_spec(p: PermuterState) -> int {
    (p.counter * p.inv_step) % modulus(p.bits)
}


/// Bytes per stored value: `bits / 8`, rounded up.
pub open spec fn value_bytes_spec(bits: u32) -> nat {
    ((bits as nat + 7) / 8) as nat
}

/// Byte `j` of `v`, least significant first.
pub open spec fn le_byte(v: u128, j: nat) -> u8 {
    ((v as nat / pow2(8 * j)) % 256) as u8
}

/// The number whose little-endian bytes are `s`.
pub open spec fn le_value(s: Seq<u8>) -> nat
    decreases s.len(),
{
    if s.len() == 0 {
        0
    } else {
        s[0] as nat + 256 * le_value(s.drop_first())
    }
}

/// The stored layout: one byte for `bits`, then seed, step and offset,
/// each little-endian in `value_bytes_spec(bits)` bytes.
pub open spec fn encoding(p: PermuterState) -> Seq<u8> {
    let k = value_bytes_spec(p.bits);
    Seq::new(
        1 + 3 * k,
        |i: int|
            if i == 0 {
                p.bits as u8
            } else {
                let v = if (i - 1) / (k as int) == 0 {
                    p.seed
                } else if (i - 1) / (k as int) == 1 {
                    p.step
                } else {
                    p.offset
                };
                le_byte(v, ((i - 1) % (k as int)) as nat)
            },
    )
}

/// The bytes that hold the `which`-th stored value in an encoding of
/// `bits`-bit values.
pub open spec fn stored_value(bytes: Seq<u8>, bits: u32, which: nat) -> u128 {
    let k = value_bytes_spec(bits);
    le_value(bytes.subrange((1 + which * k) as int, (1 + (which + 1) * k) as int)) as u128
}

/// A seeded permutation of `0..2^bits` walked by a full-cycle counter.
#[derive(Clone, Copy, Debug, PartialEq, Eq, Structural)]
pub struct BitPermuter {
    bits: u32,
    seed: u128,
    step: u128,
    offset: u128,
    mask: u128,
    counter: u128,
    mul1: u128,
    mul2: u128,
    mul3: u128,
    add1: u128,
    add2: u128,
    shift1: u32,
    shift2: u32,
    inv_mul1: u128,
    inv_mul2: u128,
    inv_mul3: u128,
    inv_step: u128,
}

impl BitPermuter {
    #[verifier::type_invariant]
    spec fn inv(self) -> bool {
        state_wf(self@)
    }
}

impl View for BitPermuter {
    type V = PermuterState;

    closed spec fn view(&self) -> PermuterState {
        PermuterState {
            bits: self.bits,
            seed: self.seed,
            step: self.step,
            offset: self.offset,
            mask: self.mask,
            counter: self.counter,
            mul1: self.mul1,
            mul2: self.mul2,
            mul3: self.mul3,
            add1: self.add1,
            add2: self.add2,
            shift1: self.shift1,
            shift2: self.shift2,
            inv_mul1: self.inv_mul1,
            inv_mul2: self.inv_mul2,
            inv_mul3: self.inv_mul3,
            inv_step: self.inv_step,
        }
    }
}

/// `x & mask` is `x` reduced modulo 2^bits, so at most the mask.
proof fn lemma_masked(x: u128, bits: u32)
    requires
        bits <= 128,
    ensures
        (x & low_mask(bits as nat)) as int == x as int % modulus(bits),
        (x & low_mask(bits as nat)) <= low_mask(bits as nat),
        x <= low_mask(bits as nat) ==> x & low_mask(bits as nat) == x,
{
    lemma_and_mask_is_mod(x, bits as nat);
    lemma_pow2_le_word(bits as nat);
    if x <= low_mask(bits as nat) {
        lemma_small_mod(x as nat, pow2(bits as nat));
    }
}

/// The low-bit mask of a positive width is odd.
proof fn lemma_mask_odd(bits: u32)
    requires
        1 <= bits <= 128,
    ensures
        low_mask(bits as nat) % 2 == 1,
        modulus(bits) >= 2,
{
    lemma_pow2_unfold(bits as nat);
    lemma_pow2_pos((bits - 1) as nat);
    lemma_pow2_le_word(bits as nat);
}

/// Setting the low bit, then masking with an odd mask, leaves an odd number.
proof fn lemma_odd_masked(x: u128, m: u128)
    requires
        m % 2 == 1,
    ensures
        ((x | 1) & m) % 2 == 1,
{
    assert(((x | 1) & m) % 2 == 1) by (bit_vector)
        requires m % 2 == 1;
}


/// Reducing the left operand first does not change a sum's residue.
proof fn lemma_mod_add_left(x: int, c: int, m: int)
    requires
        m > 0,
    ensures
        ((x % m) + c) % m == (x + c) % m,
{
    lemma_add_mod_noop(x % m, c, m);
    lemma_add_mod_noop(x, c, m);
    lemma_mod_twice(x, m);
}

/// Reducing the left operand first does not change a difference's residue.
proof fn lemma_mod_sub_left(x: int, c: int, m: int)
    requires
        m > 0,
    ensures
        ((x % m) - c) % m == (x - c) % m,
{
    lemma_sub_mod_noop(x % m, c, m);
    lemma_sub_mod_noop(x, c, m);
    lemma_mod_twice(x, m);
}

/// Undoing the keyed xor.
proof fn lemma_xor_key(v: u128, k: u128, m: u128)
    ensures
        (((v ^ k) & m) ^ k) & m == v & m,
        (v ^ k) & m == ((v & m) ^ k) & m,
{
    assert((((v ^ k) & m) ^ k) & m == v & m && (v ^ k) & m == ((v & m) ^ k) & m) by (bit_vector);
}

/// The permutation only looks at the low `bits` bits of its input.
pub proof fn lemma_permute_low_bits(p: PermuterState, v: u128)
    requires
        state_wf(p),
    ensures
        permute_value(p, v) == permute_value(p, (v as int % modulus(p.bits)) as u128),
{
    lemma_masked(v, p.bits);
    lemma_xor_key(v, p.seed, p.mask);
    lemma_xor_key((v as int % modulus(p.bits)) as u128, p.seed, p.mask);
    lemma_masked((v as int % modulus(p.bits)) as u128, p.bits);
}

/// Every round of the permutation keeps values below 2^bits and is undone
/// by the matching inverse round, so the inverse permutation undoes it.
pub proof fn lemma_unpermute_permute(p: PermuterState, v: u128)
    requires
        state_wf(p),
    ensures
        unpermute_value(p, permute_value(p, v)) == v & p.mask,
        permute_value(p, v) <= p.mask,
{
    let n = p.bits as nat;
    let m = p.mask;
    let x0 = (v ^ p.seed) & m;
    lemma_masked(v ^ p.seed, p.bits);
    let x1 = affine(x0, p.mul1, p.add1, n);
    lemma_affine_roundtrip(x0, p.mul1, p.add1, p.inv_mul1, n);
    lemma_masked(x0.wrapping_mul(p.mul1).wrapping_add(p.add1), p.bits);
    let x2 = xorshift(x1, p.shift1);
    lemma_xorshift_bound(x1, p.shift1, p.bits);
    lemma_unxorshift_xorshift(x1, p.shift1, p.bits);
    let x3 = affine(x2, p.mul2, p.add2, n);
    lemma_affine_roundtrip(x2, p.mul2, p.add2, p.inv_mul2, n);
    lemma_masked(x2.wrapping_mul(p.mul2).wrapping_add(p.add2), p.bits);
    let x4 = xorshift(x3, p.shift2);
    lemma_xorshift_bound(x3, p.shift2, p.bits);
    lemma_unxorshift_xorshift(x3, p.shift2, p.bits);
    let x5 = x4.wrapping_mul(p.mul3) & m;
    assert(x4.wrapping_mul(p.mul3).wrapping_add(0) == x4.wrapping_mul(p.mul3));
    assert(x5 == affine(x4, p.mul3, 0, n));
    lemma_affine_roundtrip(x4, p.mul3, 0, p.inv_mul3, n);
    lemma_masked(x4.wrapping_mul(p.mul3), p.bits);
    let x6 = xorshift(x5, p.shift1);
    lemma_xorshift_bound(x5, p.shift1, p.bits);
    lemma_unxorshift_xorshift(x5, p.shift1, p.bits);
    lemma_masked(x6, p.bits);
    assert(x5.wrapping_sub(0) == x5);
    lemma_masked(x5, p.bits);
    assert(unxorshift(x6 & m, p.shift1, p.bits).wrapping_mul(p.inv_mul3) & m == unaffine(x5, 0, p.inv_mul3, n));
    lemma_xor_key(v, p.seed, m);
}

/// The permutation undoes its inverse on values below 2^bits.
pub proof fn lemma_permute_unpermute(p: PermuterState, w: u128)
    requires
        state_wf(p),
    ensures
        permute_value(p, unpermute_value(p, w)) == w & p.mask,
        unpermute_value(p, w) <= p.mask,
{
    let n = p.bits as nat;
    let m = p.mask;
    let y6 = w & m;
    lemma_masked(w, p.bits);
    let y5 = unxorshift(y6, p.shift1, p.bits);
    lemma_unxorshift_bound(y6, p.shift1, p.bits);
    lemma_xorshift_unxorshift(y6, y6, p.shift1, p.shift1, p.bits);
    let y4 = y5.wrapping_mul(p.inv_mul3) & m;
    assert(y5.wrapping_sub(0) == y5);
    lemma_masked(y5, p.bits);
    assert(y4 == unaffine(y5, 0, p.inv_mul3, n));
    lemma_unaffine_roundtrip(y5, p.mul3, 0, p.inv_mul3, n);
    let y3 = unxorshift(y4, p.shift2, p.bits);
    lemma_unxorshift_bound(y4, p.shift2, p.bits);
    lemma_xorshift_unxorshift(y4, y4, p.shift2, p.shift2, p.bits);
    let y2 = unaffine(y3, p.add2, p.inv_mul2, n);
    lemma_unaffine_roundtrip(y3, p.mul2, p.add2, p.inv_mul2, n);
    let y1 = unxorshift(y2, p.shift1, p.bits);
    lemma_unxorshift_bound(y2, p.shift1, p.bits);
    lemma_xorshift_unxorshift(y2, y2, p.shift1, p.shift1, p.bits);
    let y0 = unaffine(y1, p.add1, p.inv_mul1, n);
    lemma_unaffine_roundtrip(y1, p.mul1, p.add1, p.inv_mul1, n);
    let u = (y0 ^ p.seed) & m;
    lemma_masked(y0 ^ p.seed, p.bits);
    lemma_xor_key(y0, p.seed, m);
    lemma_masked(y0, p.bits);
    assert((u ^ p.seed) & m == y0);
    assert(y4.wrapping_mul(p.mul3).wrapping_add(0) == y4.wrapping_mul(p.mul3));
    assert(y4.wrapping_mul(p.mul3) & m == affine(y4, p.mul3, 0, n));
}

/// The index that `index_spec` reads off a produced value is the index it
/// was produced at.
pub proof fn lemma_index_of_peek(p: PermuterState, index: int)
    requires
        state_wf(p),
    ensures
        index_spec(p, peek_spec(p, index)) == index % modulus(p.bits),
{
    let big_m = modulus(p.bits);
    lemma_mask_odd(p.bits);
    lemma_pow2_le_word(p.bits as nat);
    let a = (index + 1) * p.step + p.offset;
    let v = (a % big_m) as u128;
    lemma_masked(v, p.bits);
    lemma_unpermute_permute(p, v);
    let u = unpermute_value(p, permute_value(p, v));
    assert(u as int == a % big_m);
    lemma_mod_sub_left(a, p.offset as int, big_m);
    lemma_mul_cancel(index + 1, p.step as int, p.inv_step as int, big_m);
    lemma_mod_sub_left(index + 1, 1, big_m);
}

/// Every value below 2^bits is produced at the index that `index_spec`
/// names, and that index lies within one cycle.
pub proof fn lemma_peek_of_index(p: PermuterState, output: u128)
    requires
        state_wf(p),
    ensures
        peek_spec(p, index_spec(p, output)) == output & p.mask,
        0 <= index_spec(p, output) < modulus(p.bits),
{
    let big_m = modulus(p.bits);
    lemma_mask_odd(p.bits);
    lemma_pow2_le_word(p.bits as nat);
    lemma_permute_unpermute(p, output);
    let u = unpermute_value(p, output);
    let c = (u as int - p.offset as int) % big_m;
    let n = (c * p.inv_step as int) % big_m;
    let idx = (n - 1) % big_m;
    assert(idx == index_spec(p, output));
    lemma_mod_add_left(n - 1, 1, big_m);
    lemma_small_mod(n as nat, big_m as nat);
    assert((idx + 1) % big_m == n);
    lemma_mul_mod_noop_left(idx + 1, p.step as int, big_m);
    vstd::arithmetic::mul::lemma_mul_is_commutative(p.step as int, p.inv_step as int);
    lemma_mul_cancel(c, p.inv_step as int, p.step as int, big_m);
    lemma_small_mod(c as nat, big_m as nat);
    assert(((idx + 1) * p.step) % big_m == c);
    lemma_mod_add_left((idx + 1) * p.step, p.offset as int, big_m);
    lemma_mod_add_left(u as int - p.offset as int, p.offset as int, big_m);
    lemma_masked(u, p.bits);
    lemma_small_mod(u as nat, big_m as nat);
    assert(((idx + 1) * p.step + p.offset) % big_m == u as int);
}

/// One call of `next_value` takes state `a` to state `b`: only the counter
/// moves, and the position advances by one.
pub open spec fn advances(a: PermuterState, b: PermuterState) -> bool {
    &&& b == (PermuterState { counter: b.counter, ..a })
    &&& position_spec(b) == (position_spec(a) + 1) % modulus(a.bits)
}

/// The states a permuter passes through over successive calls of
/// `next_value`.
pub open spec fn is_run(states: Seq<PermuterState>) -> bool
    decreases states.len(),
{
    states.len() <= 1 || (is_run(states.drop_last()) && advances(states[states.len() - 2], states.last()))
}

/// The value that the call of `next_value` made in state `states[i]` of a
/// run returns.
pub open spec fn run_value(states: Seq<PermuterState>, i: int) -> u128 {
    peek_spec(states[i], position_spec(states[i]))
}

/// After `i` calls of `next_value` only the counter has moved, and the
/// position has advanced by `i`, modulo 2^bits.
pub proof fn lemma_run_position(states: Seq<PermuterState>, i: int)
    requires
        is_run(states),
        state_wf(states[0]),
        0 <= i < states.len(),
    ensures
        states[i] == (PermuterState { counter: states[i].counter, ..states[0] }),
        position_spec(states[i]) == (position_spec(states[0]) + i) % modulus(states[0].bits),
    decreases states.len(),
{
    let m = modulus(states[0].bits);
    lemma_pow2_pos(states[0].bits as nat);
    if i == 0 {
        lemma_mod_twice(states[0].counter * states[0].inv_step, m);
    } else {
        let init = states.drop_last();
        if i < states.len() - 1 {
            lemma_run_position(init, i);
            assert(init[i] == states[i]);
        } else {
            lemma_run_position(init, i - 1);
            assert(init[i - 1] == states[i - 1]);
            assert(advances(states[i - 1], states[i]));
            lemma_add_mod_noop(position_spec(states[0]) + i - 1, 1, m);
            lemma_mod_twice(position_spec(states[0]) + i - 1, m);
            lemma_small_mod(1, m as nat);
        }
    }
}

/// The value at an index depends on the index only modulo 2^bits.
proof fn lemma_peek_periodic(p: PermuterState, a: int, b: int)
    requires
        state_wf(p),
        a % modulus(p.bits) == b % modulus(p.bits),
    ensures
        peek_spec(p, a) == peek_spec(p, b),
{
    let m = modulus(p.bits);
    lemma_pow2_pos(p.bits as nat);
    lemma_add_mod_noop(a, 1, m);
    lemma_add_mod_noop(b, 1, m);
    lemma_mul_mod_noop_left(a + 1, p.step as int, m);
    lemma_mul_mod_noop_left(b + 1, p.step as int, m);
    lemma_add_mod_noop((a + 1) * p.step, p.offset as int, m);
    lemma_add_mod_noop((b + 1) * p.step, p.offset as int, m);
}

/// The call made after `i` calls returns the value at index `position + i`
/// of the starting state's cycle.
proof fn lemma_run_value(states: Seq<PermuterState>, i: int)
    requires
        is_run(states),
        state_wf(states[0]),
        0 <= i < states.len(),
    ensures
        run_value(states, i) == peek_spec(states[0], (position_spec(states[0]) + i) % modulus(states[0].bits)),
{
    lemma_run_position(states, i);
}

/// Within 2^bits consecutive calls of `next_value` no value comes twice,
/// and every value is at most the mask, that is below 2^bits.
pub proof fn lemma_run_distinct(states: Seq<PermuterState>, i: int, j: int)
    requires
        is_run(states),
        state_wf(states[0]),
        0 <= i < j < states.len(),
        j - i < modulus(states[0].bits),
    ensures
        run_value(states, i) != run_value(states, j),
        run_value(states, i) <= states[0].mask,
{
    let p = states[0];
    let m = modulus(p.bits);
    lemma_pow2_pos(p.bits as nat);
    let pos = position_spec(p);
    lemma_run_value(states, i);
    lemma_run_value(states, j);
    lemma_unpermute_permute(p, ((((pos + i) % m + 1) * p.step + p.offset) % m) as u128);
    if run_value(states, i) == run_value(states, j) {
        lemma_cycle_distinct(p, (pos + i) % m, (pos + j) % m);
        vstd::arithmetic::div_mod::lemma_mod_equivalence(pos + j, pos + i, m);
        lemma_small_mod((j - i) as nat, m as nat);
    }
}

/// From position zero, `peek_value_at(k)` is the value of the call made
/// after `k` calls of `next_value`, the (k+1)-th.
pub proof fn lemma_run_peek(states: Seq<PermuterState>, k: int)
    requires
        is_run(states),
        state_wf(states[0]),
        position_spec(states[0]) == 0,
        0 <= k < states.len(),
    ensures
        run_value(states, k) == peek_spec(states[0], k),
{
    let m = modulus(states[0].bits);
    lemma_pow2_pos(states[0].bits as nat);
    lemma_run_value(states, k);
    lemma_mod_twice(k, m);
    lemma_peek_periodic(states[0], k % m, k);
}

/// Within one cycle no value is produced twice.
pub proof fn lemma_cycle_distinct(p: PermuterState, i: int, j: int)
    requires
        state_wf(p),
        0 <= i < modulus(p.bits),
        0 <= j < modulus(p.bits),
        peek_spec(p, i) == peek_spec(p, j),
    ensures
        i == j,
{
    lemma_index_of_peek(p, i);
    lemma_index_of_peek(p, j);
    lemma_small_mod(i as nat, modulus(p.bits) as nat);
    lemma_small_mod(j as nat, modulus(p.bits) as nat);
}

/// The first `k` little-endian bytes of `v` spell `v` modulo 2^(8k).
proof fn lemma_le_bytes_value(v: u128, k: nat)
    requires
        k <= 16,
    ensures
        le_value(Seq::new(k, |j: int| le_byte(v, j as nat))) == v as nat % pow2(8 * k),
    decreases k,
{
    vstd::arithmetic::power2::lemma2_to64();
    let s = Seq::new(k, |j: int| le_byte(v, j as nat));
    if k == 0 {
        assert(v as nat % 1 == 0);
    } else {
        let w = v / 256;
        let rest = Seq::new((k - 1) as nat, |j: int| le_byte(w, j as nat));
        assert forall|j: int| 0 <= j < k - 1 implies #[trigger] s.drop_first()[j] == rest[j] by {
            lemma_pow2_adds_pub(8 * j as nat, 8);
            lemma_pow2_pos(8 * j as nat);
            vstd::arithmetic::div_mod::lemma_div_denominator(v as int, 256, pow2(8 * j as nat) as int);
            assert(8 * (j + 1) == 8 * j + 8);
            vstd::arithmetic::mul::lemma_mul_is_commutative(256, pow2(8 * j as nat) as int);
        }
        assert(s.drop_first() =~= rest);
        lemma_le_bytes_value(w, (k - 1) as nat);
        lemma_pow2_adds_pub(8, 8 * (k - 1) as nat);
        lemma_pow2_pos(8 * (k - 1) as nat);
        assert(8 + 8 * (k - 1) == 8 * k);
        vstd::arithmetic::div_mod::lemma_mod_breakdown(v as int, 256, pow2(8 * (k - 1) as nat) as int);
        assert(s[0] as nat == v as nat % 256) by {
            assert(pow2(8 * 0nat) == 1);
            assert(v as nat / 1 == v as nat);
            assert(s[0] == le_byte(v, 0));
        }
    }
}

/// A stored value of an encoding is the value that was written.
proof fn lemma_stored_value(p: PermuterState, which: nat, v: u128)
    requires
        state_wf(p),
        which < 3,
        v == (if which == 0 { p.seed } else if which == 1 { p.step } else { p.offset }),
    ensures
        stored_value(encoding(p), p.bits, which) == v,
{
    let k = value_bytes_spec(p.bits);
    let e = encoding(p);
    let sub = e.subrange((1 + which * k) as int, (1 + (which + 1) * k) as int);
    assert(k >= 1 && 8 * k >= p.bits && k <= 16);
    assert((which + 1) * k == which * k + k) by (nonlinear_arith);
    assert(1 + (which + 1) * k <= 1 + 3 * k) by (nonlinear_arith)
        requires which < 3;
    let bytes = Seq::new(k, |j: int| le_byte(v, j as nat));
    assert forall|j: int| 0 <= j < k implies #[trigger] sub[j] == bytes[j] by {
        let a = 1 + which * k + j;
        vstd::arithmetic::div_mod::lemma_fundamental_div_mod_converse(a - 1, k as int, which as int, j);
    }
    assert(sub =~= bytes);
    lemma_le_bytes_value(v, k);
    lemma_pow2_le_word(p.bits as nat);
    if (p.bits as nat) < 8 * k {
        vstd::arithmetic::power2::lemma_pow2_strictly_increases(p.bits as nat, 8 * k);
    }
    lemma_small_mod(v as nat, pow2(8 * k));
}

/// An odd number has only one inverse below 2^bits.
proof fn lemma_inverse_unique(a: u128, i1: u128, i2: u128, bits: u32)
    requires
        bits <= 128,
        is_inverse(a, i1, bits),
        is_inverse(a, i2, bits),
        i1 <= low_mask(bits as nat),
        i2 <= low_mask(bits as nat),
    ensures
        i1 == i2,
{
    let m = modulus(bits);
    lemma_pow2_le_word(bits as nat);
    lemma_mul_cancel(i1 as int, a as int, i2 as int, m);
    lemma_mul_cancel(i2 as int, a as int, i1 as int, m);
    vstd::arithmetic::mul::lemma_mul_is_commutative(i1 as int, a as int);
    vstd::arithmetic::mul::lemma_mul_is_commutative(i2 as int, a as int);
    lemma_mul_is_associative_pub(i1 as int, a as int, i2 as int);
    lemma_mul_is_associative_pub(i2 as int, a as int, i1 as int);
    vstd::arithmetic::mul::lemma_mul_is_commutative(i1 as int * a as int, i2 as int);
    lemma_small_mod(i1 as nat, m as nat);
    lemma_small_mod(i2 as nat, m as nat);
}

proof fn lemma_mul_is_associative_pub(x: int, y: int, z: int)
    ensures
        x * y * z == x * (y * z),
        x * (y * z) == (x * y) * z,
{
    vstd::arithmetic::mul::lemma_mul_is_associative(x, y, z);
}

/// Reading back what `to_bytes` wrote gives a permuter with the same
/// settings and constants, at position zero: the counter is not stored.
/// The premises on `q` are what `from_bytes` promises of its result.
pub proof fn lemma_bytes_roundtrip(p: PermuterState, q: PermuterState)
    requires
        state_wf(p),
        state_wf(q),
        q.bits == encoding(p)[0] as u32,
        q.seed == stored_value(encoding(p), q.bits, 0) & low_mask(q.bits as nat),
        q.step == (stored_value(encoding(p), q.bits, 1) | 1) & low_mask(q.bits as nat),
        q.offset == stored_value(encoding(p), q.bits, 2) & low_mask(q.bits as nat),
        q.counter == 0,
    ensures
        q == (PermuterState { counter: 0, ..p }),
{
    assert(q.bits == p.bits);
    lemma_stored_value(p, 0, p.seed);
    lemma_stored_value(p, 1, p.step);
    lemma_stored_value(p, 2, p.offset);
    lemma_masked(p.seed, p.bits);
    lemma_masked(p.offset, p.bits);
    let st = p.step;
    assert(st | 1 == st) by (bit_vector)
        requires st % 2 == 1;
    lemma_masked(p.step, p.bits);
    lemma_inverse_unique(p.mul1, p.inv_mul1, q.inv_mul1, p.bits);
    lemma_inverse_unique(p.mul2, p.inv_mul2, q.inv_mul2, p.bits);
    lemma_inverse_unique(p.mul3, p.inv_mul3, q.inv_mul3, p.bits);
    lemma_inverse_unique(p.step, p.inv_step, q.inv_step, p.bits);
}

impl BitPermuter {
    /// Mask of the low `bits` bits.
    fn mask_for(bits: u32) -> (mask: u128)
        requires
            1 <= bits <= 128,
        ensures
            mask == low_mask(bits as nat),
    {
        let mut mask: u128 = 0;
        let mut i: u32 = 0;
        proof {
            vstd::arithmetic::power2::lemma2_to64();
        }
        while i < bits
            invariant
                i <= bits <= 128,
                mask as int == pow2(i as nat) - 1,
            decreases bits - i,
        {
            proof {
                lemma_pow2_unfold((i + 1) as nat);
                lemma_pow2_le_word((i + 1) as nat);
            }
            mask = mask * 2 + 1;
            i += 1;
        }
        mask
    }

    /// Produces an odd multiplier below 2^bits, derived from the seed.
    fn odd_mult(seed: u128, salt: u128, mask: u128) -> (m: u128)
        ensures
            m == odd_multiplier(seed, salt, mask),
    {
        proof {
            reveal(odd_multiplier);
        }
        (mix128(seed ^ salt) | 1) & mask
    }

    /// An additive constant below 2^bits, derived from the seed.
    fn add_const(seed: u128, salt: u128, mask: u128) -> (c: u128)
        ensures
            c == add_constant(seed, salt, mask),
    {
        proof {
            reveal(add_constant);
        }
        mix128(seed.wrapping_add(salt)) & mask
    }

    /// Newton iteration; each step doubles the number of correct bits.
    /// An odd `a` is its own inverse mod 8, so 3 -> 6 -> ... -> 192 bits
    /// takes six iterations, enough for 128 bits.
    fn inv_odd_mod_pow2(a: u128, bits: u32, mask: u128) -> (inv: u128)
        requires
            a % 2 == 1,
            1 <= bits <= 128,
            mask == low_mask(bits as nat),
        ensures
            is_inverse(a, inv, bits),
            inv <= mask,
    {
        let mut inv = a;
        proof {
            lemma_odd_square(a);
            assert(precision(0) == 3);
            assert(precision(1) == 6);
            assert(precision(2) == 12);
            assert(precision(3) == 24);
            assert(precision(4) == 48);
            assert(precision(5) == 96);
            assert(precision(6) == 128);
        }
        let mut i: u32 = 0;
        while i < 6
            invariant
                i <= 6,
                precision(6) == 128,
                precision(0) == 3 && precision(1) == 6 && precision(2) == 12 && precision(3) == 24
                    && precision(4) == 48 && precision(5) == 96,
                (a as int * inv as int) % (pow2(precision(i as nat)) as int) == 1,
            decreases 6 - i,
        {
            proof {
                assert(1 <= precision(i as nat) <= 128);
                lemma_newton(a, inv, precision(i as nat));
            }
            inv = inv.wrapping_mul(2u128.wrapping_sub(a.wrapping_mul(inv)));
            i += 1;
        }
        proof {
            lemma_pow2_128();
            lemma_masked(inv, bits);
            lemma_mask_odd(bits);
            lemma_mul_mod_noop_right(a as int, inv as int, modulus(bits));
            lemma_word_mod(a as int * inv as int, bits as nat);
            lemma_small_mod(1, pow2(bits as nat));
        }
        inv & mask
    }

    /// A permuter over `bits`-bit values. `step` is made odd so that the
    /// counter visits every value.
    pub fn new(bits: u32, seed: u128, step: u128, offset: u128) -> (p: Self)
        requires
            1 <= bits <= 128,
        ensures
            built(p@, bits, seed, step, offset),
    {
        let mask = Self::mask_for(bits);
        proof {
            lemma_mask_odd(bits);
            lemma_masked(seed, bits);
            lemma_masked(step | 1, bits);
            lemma_masked(offset, bits);
            lemma_odd_masked(step, mask);
        }
        let seed = seed & mask;
        let step = (step | 1) & mask;
        let offset = offset & mask;
        let mul1 = Self::odd_mult(seed, 0xA1, mask);
        let mul2 = Self::odd_mult(seed, 0xB7, mask);
        let mul3 = Self::odd_mult(seed, 0xC3, mask);
        proof {
            reveal(odd_multiplier);
            lemma_odd_masked(mix128_spec(seed ^ 0xA1), mask);
            lemma_odd_masked(mix128_spec(seed ^ 0xB7), mask);
            lemma_odd_masked(mix128_spec(seed ^ 0xC3), mask);
        }
        let add1 = Self::add_const(seed, 0x11, mask);
        let add2 = Self::add_const(seed, 0x29, mask);
        let shift1 = if bits / 2 >= 1 { bits / 2 } else { 1 };
        let shift2 = if bits / 3 >= 1 { bits / 3 } else { 1 };
        let inv_mul1 = Self::inv_odd_mod_pow2(mul1, bits, mask);
        let inv_mul2 = Self::inv_odd_mod_pow2(mul2, bits, mask);
        let inv_mul3 = Self::inv_odd_mod_pow2(mul3, bits, mask);
        let inv_step = Self::inv_odd_mod_pow2(step, bits, mask);
        BitPermuter {
            bits,
            seed,
            step,
            offset,
            mask,
            counter: 0,
            mul1,
            mul2,
            mul3,
            add1,
            add2,
            shift1,
            shift2,
            inv_mul1,
            inv_mul2,
            inv_mul3,
            inv_step,
        }
    }

    /// A permuter with step 1 and offset 0.
    pub fn with_seed(bits: u32, seed: u128) -> (p: Self)
        requires
            1 <= bits <= 128,
        ensures
            built(p@, bits, seed, 1, 0),
            p@.step == 1,
            p@.offset == 0,
    {
        proof {
            lemma_mask_odd(bits);
            let m = low_mask(bits as nat);
            assert((1u128 | 1) & m == 1) by (bit_vector)
                requires m % 2 == 1;
            assert(0u128 & m == 0) by (bit_vector);
        }
        Self::new(bits, seed, 1, 0)
    }

    /// The settings and constants satisfy the permuter's invariant.
    pub fn check_invariants(&self) -> (ok: bool)
        ensures
            ok,
            state_wf(self@),
    {
        proof {
            use_type_invariant(self);
        }
        true
    }

    /// Width of the values in bits.
    pub fn bits(&self) -> (bits: u32)
        ensures
            bits == self@.bits,
    {
        self.bits
    }

    /// The seed, reduced to the width.
    pub fn seed(&self) -> (seed: u128)
        ensures
            seed == self@.seed,
    {
        self.seed
    }

    /// The odd counter step.
    pub fn step(&self) -> (step: u128)
        ensures
            step == self@.step,
    {
        self.step
    }

    /// The offset added to the counter before permuting.
    pub fn offset(&self) -> (offset: u128)
        ensures
            offset == self@.offset,
    {
        self.offset
    }

    /// Number of values already produced by `next_value`, modulo 2^bits.
    pub fn position(&self) -> (position: u128)
        ensures
            position as int == position_spec(self@),
    {
        proof {
            use_type_invariant(self);
            lemma_mul_low(self.counter, self.inv_step, self.bits as nat);
        }
        self.counter.wrapping_mul(self.inv_step) & self.mask
    }

    /// Moves the counter so that the next call to `next_value` returns
    /// the value at `index` (0-based).
    pub fn set_position(&mut self, index: u128)
        ensures
            final(self)@ == (PermuterState { counter: final(self)@.counter, ..old(self)@ }),
            position_spec(final(self)@) == index as int % modulus(old(self)@.bits),
    {
        proof {
            use_type_invariant(&*self);
            lemma_mul_low(index, self.step, self.bits as nat);
            lemma_masked(index.wrapping_mul(self.step), self.bits);
            lemma_pow2_le_word(self.bits as nat);
            lemma_mul_cancel(index as int, self.step as int, self.inv_step as int, modulus(self.bits));
        }
        self.counter = index.wrapping_mul(self.step) & self.mask;
    }

    /// Advances the counter and returns the value at the old position.
    pub fn next_value(&mut self) -> (value: u128)
        ensures
            advances(old(self)@, final(self)@),
            final(self)@ == (PermuterState { counter: final(self)@.counter, ..old(self)@ }),
            value == peek_spec(old(self)@, position_spec(old(self)@)),
            position_spec(final(self)@) == (position_spec(old(self)@) + 1) % modulus(old(self)@.bits),
    {
        proof {
            use_type_invariant(&*self);
        }
        let ghost p = self@;
        let ghost big_m = modulus(self.bits);
        let ghost c = self.counter as int;
        proof {
            lemma_mask_odd(self.bits);
            lemma_pow2_le_word(self.bits as nat);
            lemma_add_low(self.counter, self.step, self.bits as nat);
            lemma_masked(self.counter.wrapping_add(self.step), self.bits);
        }
        self.counter = self.counter.wrapping_add(self.step) & self.mask;
        let input = self.counter.wrapping_add(self.offset);
        let value = self.permute_bits(input);
        proof {
            let c2 = self.counter as int;
            let pos = (c * p.inv_step as int) % big_m;
            assert(c2 == (c + p.step as int) % big_m);
            // the counter now stands at (pos + 1) * step
            vstd::arithmetic::mul::lemma_mul_is_commutative(p.inv_step as int, p.step as int);
            lemma_mul_cancel(c, p.inv_step as int, p.step as int, big_m);
            lemma_small_mod(c as nat, big_m as nat);
            vstd::arithmetic::mul::lemma_mul_is_distributive_add_other_way(p.step as int, pos, 1);
            lemma_mod_add_left(pos * p.step as int, p.step as int, big_m);
            lemma_mul_mod_noop_left(c * p.inv_step as int, p.step as int, big_m);
            assert((pos * p.step as int) % big_m == c);
            assert(((pos + 1) * p.step as int) % big_m == c2);
            lemma_mod_add_left((pos + 1) * p.step as int, p.offset as int, big_m);
            lemma_add_low(self.counter, self.offset, self.bits as nat);
            lemma_masked(input, self.bits);
            lemma_permute_low_bits(p, input);
            // the position advances by one
            lemma_mul_mod_noop_left(c + p.step as int, p.inv_step as int, big_m);
            vstd::arithmetic::mul::lemma_mul_is_distributive_add_other_way(p.inv_step as int, c, p.step as int);
            lemma_mod_add_left(c * p.inv_step as int, p.step as int * p.inv_step as int, big_m);
            lemma_add_mod_noop(pos, p.step as int * p.inv_step as int, big_m);
            lemma_small_mod(pos as nat, big_m as nat);
            lemma_small_mod(1, big_m as nat);
            lemma_mod_twice(pos, big_m);
            lemma_add_mod_noop(pos, 1, big_m);
        }
        value
    }

    /// Returns the value that the `index`-th (0-based) call to `next_value`
    /// produces, without changing internal state. Index `2^bits - 1` is the
    /// last value of the cycle; larger indices wrap around.
    pub fn peek_value_at(&self, index: u128) -> (value: u128)
        ensures
            value == peek_spec(self@, index as int),
    {
        proof {
            use_type_invariant(self);
            lemma_pow2_le_word(self.bits as nat);
        }
        let n = index.wrapping_add(1) & self.mask;
        proof {
            lemma_add_low(index, 1, self.bits as nat);
            lemma_masked(index.wrapping_add(1), self.bits);
        }
        let counter = n.wrapping_mul(self.step) & self.mask;
        proof {
            lemma_mul_low(n, self.step, self.bits as nat);
            lemma_mul_mod_noop_left(index as int + 1, self.step as int, modulus(self.bits));
            lemma_masked(n.wrapping_mul(self.step), self.bits);
        }
        let input = counter.wrapping_add(self.offset);
        proof {
            lemma_add_low(counter, self.offset, self.bits as nat);
            lemma_masked(input, self.bits);
            lemma_mod_add_left((index as int + 1) * self.step as int, self.offset as int, modulus(self.bits));
            lemma_permute_low_bits(self@, input);
        }
        self.permute_bits(input)
    }

    /// Inverse of `peek_value_at`: the 0-based index at which `next_value`
    /// produces `output_value` within a cycle.
    pub fn index_of_output(&self, output_value: u128) -> (index: u128)
        ensures
            index as int == index_spec(self@, output_value),
            peek_spec(self@, index as int) == output_value & self@.mask,
    {
        proof {
            use_type_invariant(self);
            lemma_pow2_le_word(self.bits as nat);
            lemma_peek_of_index(self@, output_value);
        }
        let permuted = self.invert_permuted(output_value);
        let counter = permuted.wrapping_sub(self.offset) & self.mask;
        proof {
            lemma_sub_low(permuted, self.offset, self.bits as nat);
            lemma_masked(permuted.wrapping_sub(self.offset), self.bits);
        }
        let n = counter.wrapping_mul(self.inv_step) & self.mask;
        proof {
            lemma_mul_low(counter, self.inv_step, self.bits as nat);
            lemma_masked(counter.wrapping_mul(self.inv_step), self.bits);
            lemma_sub_low(n, 1, self.bits as nat);
        }
        // next_value() increments before producing output, so n == 0 is the
        // last value of the cycle.
        n.wrapping_sub(1) & self.mask
    }

    /// The seeded bijection on `bits`-bit values.
    pub fn permute_bits(&self, value: u128) -> (out: u128)
        ensures
            out == permute_value(self@, value),
    {
        proof {
            use_type_invariant(self);
        }
        let mask = self.mask;

        // Keyed xor
        let mut x = (value ^ self.seed) & mask;

        x = x.wrapping_mul(self.mul1).wrapping_add(self.add1) & mask;
        x ^= x >> self.shift1;
        x = x.wrapping_mul(self.mul2).wrapping_add(self.add2) & mask;
        x ^= x >> self.shift2;
        x = x.wrapping_mul(self.mul3) & mask;
        x ^= x >> self.shift1;

        x
    }

    /// Inverts `x ^= x >> shift` on `bits`-bit values.
    fn unxorshift_right(&self, value: u128, shift: u32) -> (out: u128)
        requires
            1 <= shift,
        ensures
            out == unxorshift(value & self@.mask, shift, self@.bits),
    {
        proof {
            use_type_invariant(self);
        }
        let mut x = value & self.mask;
        let mut s = shift;
        while s < self.bits
            invariant
                1 <= s,
                self.bits <= 128,
                unxorshift(x, s, self.bits) == unxorshift(value & self@.mask, shift, self.bits),
            decreases 256 - s,
        {
            x ^= x >> s;
            assert(s << 1u32 == (s * 2) as u32) by (bit_vector)
                requires s < 128;
            s <<= 1;
        }
        x
    }

    /// The inverse of `permute_bits` on `bits`-bit values.
    pub fn invert_permuted(&self, value: u128) -> (out: u128)
        ensures
            out == unpermute_value(self@, value),
            permute_value(self@, out) == value & self@.mask,
    {
        proof {
            use_type_invariant(self);
        }
        let ghost n = self.bits as nat;
        let mask = self.mask;
        let mut x = value & mask;
        proof {
            lemma_masked(value, self.bits);
            lemma_masked(x, self.bits);
        }

        // Invert rounds in reverse order
        x = self.unxorshift_right(x, self.shift1);
        proof {
            lemma_masked(x.wrapping_mul(self.inv_mul3), self.bits);
        }
        x = x.wrapping_mul(self.inv_mul3) & mask;
        let ghost x4 = x;
        assert(x4 == unxorshift(value & mask, self.shift1, self.bits).wrapping_mul(self.inv_mul3) & mask);

        proof {
            lemma_masked(x, self.bits);
        }
        x = self.unxorshift_right(x, self.shift2);
        x = x.wrapping_sub(self.add2) & mask;
        proof {
            lemma_masked(x.wrapping_mul(self.inv_mul2), self.bits);
        }
        x = x.wrapping_mul(self.inv_mul2) & mask;
        let ghost x2 = x;
        assert(x2 == unaffine(unxorshift(x4, self.shift2, self.bits), self.add2, self.inv_mul2, n));

        proof {
            lemma_masked(x, self.bits);
        }
        x = self.unxorshift_right(x, self.shift1);
        x = x.wrapping_sub(self.add1) & mask;
        x = x.wrapping_mul(self.inv_mul1) & mask;
        let ghost x0 = x;
        assert(x0 == unaffine(unxorshift(x2, self.shift1, self.bits), self.add1, self.inv_mul1, n));

        // Undo keyed xor
        let out = (x ^ self.seed) & mask;
        proof {
            lemma_permute_unpermute(self@, value);
        }
        out
    }

    fn value_bytes(bits: u32) -> (n: usize)
        requires
            bits <= 128,
        ensures
            n == value_bytes_spec(bits),
            n <= 16,
    {
        ((bits + 7) / 8) as usize
    }

    /// Layout: 1 byte for `bits`, then seed, step and offset, each
    /// little-endian in `ceil(bits / 8)` bytes. The counter is not stored.
    pub fn to_bytes(&self) -> (output: Vec<u8>)
        ensures
            output@ == encoding(self@),
    {
        proof {
            use_type_invariant(self);
        }
        let k = Self::value_bytes(self.bits);
        let mut output: Vec<u8> = Vec::with_capacity(1 + 3 * k);
        output.push(self.bits as u8);
        let mut i: usize = 0;
        while i < 3
            invariant
                i <= 3,
                k == value_bytes_spec(self@.bits),
                1 <= k <= 16,
                output@.len() == 1 + i * k,
                forall|a: int| 0 <= a < output@.len() ==> output@[a] == #[trigger] encoding(self@)[a],
            decreases 3 - i,
        {
            let value = if i == 0 {
                self.seed
            } else if i == 1 {
                self.step
            } else {
                self.offset
            };
            let mut j: usize = 0;
            while j < k
                invariant
                    i < 3,
                    j <= k,
                    k == value_bytes_spec(self@.bits),
                    1 <= k <= 16,
                    value == (if i == 0 { self@.seed } else if i == 1 { self@.step } else { self@.offset }),
                    output@.len() == 1 + i * k + j,
                    forall|a: int| 0 <= a < output@.len() ==> output@[a] == #[trigger] encoding(self@)[a],
                decreases k - j,
            {
                let shift: u32 = (8 * j) as u32;
                let byte = (value >> shift) as u8;
                proof {
                    lemma_shr_as_div_pub(value, shift);
                    vstd::bits::lemma_u128_shr_is_div(value, shift as u128);
                    let q = value >> shift;
                    assert(q as u8 == (q % 256) as u8) by (bit_vector);
                    let a = 1 + i * k + j;
                    assert((a - 1) / (k as int) == i as int) by (nonlinear_arith)
                        requires a == 1 + i * k + j, j < k, k >= 1;
                    assert((a - 1) % (k as int) == j as int) by (nonlinear_arith)
                        requires a == 1 + i * k + j, j < k, k >= 1;
                }
                output.push(byte);
                j += 1;
            }
            assert(output@.len() == 1 + (i + 1) * k) by (nonlinear_arith)
                requires output@.len() == 1 + i * k + k;
            i += 1;
        }
        proof {
            assert(output@ =~= encoding(self@));
        }
        output
    }

    /// The little-endian number in `bytes[start..start + len]`.
    fn read_le(bytes: &[u8], start: usize, len: usize) -> (value: u128)
        requires
            start + len <= bytes@.len(),
            len <= 16,
        ensures
            value == le_value(bytes@.subrange(start as int, (start + len) as int)),
    {
        let mut value: u128 = 0;
        let mut j: usize = len;
        let total = bytes.len();
        proof {
            vstd::arithmetic::power2::lemma2_to64();
            assert(bytes@.subrange((start + len) as int, (start + len) as int) =~= Seq::<u8>::empty());
        }
        while j > 0
            invariant
                j <= len <= 16,
                start + len <= bytes@.len(),
                total == bytes@.len(),
                value == le_value(bytes@.subrange(start + j, (start + len) as int)),
                value < pow2(8 * (len - j) as nat),
            decreases j,
        {
            let b = bytes[start + (j - 1)];
            proof {
                let sub = bytes@.subrange(start + j - 1, (start + len) as int);
                assert(sub.drop_first() =~= bytes@.subrange(start + j, (start + len) as int));
                lemma_pow2_adds_pub(8 * (len - j) as nat, 8);
                lemma_pow2_le_word((8 * (len - j) + 8) as nat);
                assert(value * 256 + b < pow2((8 * (len - j) + 8) as nat)) by (nonlinear_arith)
                    requires
                        value < pow2(8 * (len - j) as nat),
                        b < 256,
                        pow2((8 * (len - j) + 8) as nat) == pow2(8 * (len - j) as nat) * 256;
            }
            value = value * 256 + b as u128;
            j -= 1;
        }
        value
    }

    /// Returns `None` if the bytes are too short or `bits` is out of range.
    pub fn from_bytes(bytes: &[u8]) -> (p: Option<Self>)
        ensures
            p is None <==> (bytes@.len() == 0 || !(1 <= bytes@[0] <= 128)
                || bytes@.len() < 1 + 3 * value_bytes_spec(bytes@[0] as u32)),
            p matches Some(p) ==> {
                let bits = bytes@[0] as u32;
                let mask = low_mask(bits as nat);
                &&& state_wf(p@)
                &&& p@.bits == bits
                &&& p@.seed == stored_value(bytes@, bits, 0) & mask
                &&& p@.step == (stored_value(bytes@, bits, 1) | 1) & mask
                &&& p@.offset == stored_value(bytes@, bits, 2) & mask
                &&& p@.counter == 0
            },
    {
        if bytes.len() == 0 {
            return None;
        }
        let bits = bytes[0] as u32;
        if !(1 <= bits && bits <= 128) {
            return None;
        }
        let k = Self::value_bytes(bits);
        if bytes.len() < 1 + 3 * k {
            return None;
        }
        let seed = Self::read_le(bytes, 1, k);
        let step = Self::read_le(bytes, 1 + k, k);
        let offset = Self::read_le(bytes, 1 + 2 * k, k);
        proof {
            let kk = value_bytes_spec(bits);
            assert(kk == k);
            assert((1 + 0 * kk) as int == 1 && (1 + (0 + 1) * kk) as int == 1 + k);
            assert((1 + 1 * kk) as int == 1 + k && (1 + (1 + 1) * kk) as int == 1 + k + k);
            assert(stored_value(bytes@, bits, 0) == seed);
            assert(stored_value(bytes@, bits, 1) == step);
            assert(stored_value(bytes@, bits, 2) == offset);
        }
        Some(Self::new(bits, seed, step, offset))
    }
}

/// A permuter is fixed by the arguments it was built from: the constants
/// follow from the seed and the inverses are unique. In particular
/// `with_seed(bits, seed)`, built with step 1 and offset 0, is
/// `new(bits, seed, 1, 0)`.
pub proof fn lemma_built_unique(p: PermuterState, q: PermuterState, bits: u32, seed: u128, step: u128, offset: u128)
    requires
        built(p, bits, seed, step, offset),
        built(q, bits, seed, step, offset),
    ensures
        p == q,
{
    lemma_inverse_unique(p.mul1, p.inv_mul1, q.inv_mul1, bits);
    lemma_inverse_unique(p.mul2, p.inv_mul2, q.inv_mul2, bits);
    lemma_inverse_unique(p.mul3, p.inv_mul3, q.inv_mul3, bits);
    lemma_inverse_unique(p.step, p.inv_step, q.inv_step, bits);
}

} // verus!
