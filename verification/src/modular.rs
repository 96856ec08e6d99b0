//! Arithmetic modulo a power of two on `u128` words: masks as
//! remainders, affine rounds and their inverses, Newton inversion of odd
//! multipliers, and xor-shift rounds.
use vstd::prelude::*;
use vstd::arithmetic::power2::{pow2, lemma_pow2_unfold, lemma_pow2_adds, lemma_pow2_pos, lemma2_to64, lemma_pow2_strictly_increases};
use vstd::arithmetic::div_mod::{lemma_mod_breakdown, lemma_mod_mod, lemma_small_mod, lemma_add_mod_noop, lemma_sub_mod_noop, lemma_mul_mod_noop_left, lemma_mul_mod_noop_right, lemma_mod_multiples_vanish, lemma_fundamental_div_mod_converse};
use vstd::arithmetic::mul::lemma_mul_is_associative;
verus! {

/// 2^128, the modulus of `u128` arithmetic.
pub open spec fn word() -> nat {
    u128::MAX as nat + 1
}

pub proof fn lemma_pow2_128()
    ensures
        pow2(128) == word(),
{
    lemma2_to64();
    lemma_pow2_adds(64, 64);
}

/// The mask of the low `n` bits.
pub open spec fn low_mask(n: nat) -> u128 {
    (pow2(n) - 1) as u128
}

pub proof fn lemma_pow2_le_word(n: nat)
    requires
        n <= 128,
    ensures
        0 < pow2(n) <= word(),
        word() % pow2(n) == 0,
        word() == pow2(n) * pow2((128 - n) as nat),
{
    lemma_pow2_128();
    lemma_pow2_pos(n);
    lemma_pow2_adds(n, (128 - n) as nat);
    lemma_pow2_pos((128 - n) as nat);
    if n < 128 {
        lemma_pow2_strictly_increases(n, 128);
    }
    lemma_mod_multiples_vanish(pow2((128 - n) as nat) as int, 0, pow2(n) as int);
    assert(word() as int == pow2((128 - n) as nat) as int * pow2(n) as int) by (nonlinear_arith)
        requires word() as int == pow2(n) as int * pow2((128 - n) as nat) as int;
}

proof fn lemma_and_split_low_bit(x: u128, m: u128)
    by (bit_vector)
    ensures
        x & m == ((x / 2) & (m / 2)) * 2 + ((x % 2) & (m % 2)),
{
}

/// Keeping the low `n` bits is reducing modulo 2^n.
pub proof fn lemma_and_mask_is_mod(x: u128, n: nat)
    requires
        n <= 128,
    ensures
        (x & low_mask(n)) as int == x as int % (pow2(n) as int),
    decreases n,
{
    lemma_pow2_le_word(n);
    if n == 0 {
        lemma2_to64();
        assert(low_mask(0) == 0);
        assert(x & 0 == 0) by (bit_vector);
    } else {
        let p = pow2((n - 1) as nat);
        lemma_pow2_unfold(n);
        lemma_pow2_pos((n - 1) as nat);
        let m = low_mask(n);
        assert(m / 2 == low_mask((n - 1) as nat));
        assert(m % 2 == 1);
        lemma_and_split_low_bit(x, m);
        assert((x % 2) & 1 == x % 2) by (bit_vector);
        lemma_and_mask_is_mod(x / 2, (n - 1) as nat);
        lemma_mod_breakdown(x as int, 2, p as int);
    }
}

pub proof fn lemma_word_mod(v: int, n: nat)
    requires
        n <= 128,
    ensures
        (v % (word() as int)) % (pow2(n) as int) == v % (pow2(n) as int),
{
    lemma_pow2_le_word(n);
    lemma_pow2_pos((128 - n) as nat);
    lemma_mod_mod(v, pow2(n) as int, pow2((128 - n) as nat) as int);
}

proof fn lemma_wrapping_mul_is_mod(a: u128, b: u128)
    ensures
        a.wrapping_mul(b) as int == (a as int * b as int) % (word() as int),
{
    assert(0 <= (a as int * b as int) % (word() as int) < word());
}

proof fn lemma_wrapping_add_is_mod(a: u128, b: u128)
    ensures
        a.wrapping_add(b) as int == (a as int + b as int) % (word() as int),
{
    if a as int + b as int > u128::MAX {
        lemma_fundamental_div_mod_converse(a as int + b as int, word() as int, 1, a as int + b as int - word());
    } else {
        lemma_small_mod((a + b) as nat, word());
    }
}

proof fn lemma_wrapping_sub_is_mod(a: u128, b: u128)
    ensures
        a.wrapping_sub(b) as int == (a as int - b as int) % (word() as int),
{
    if a < b {
        lemma_fundamental_div_mod_converse(a as int - b as int, word() as int, -1, a as int - b as int + word());
    } else {
        lemma_small_mod((a - b) as nat, word());
    }
}

/// Low bits of a wrapped product are the product modulo 2^n.
pub proof fn lemma_mul_low(a: u128, b: u128, n: nat)
    requires
        n <= 128,
    ensures
        (a.wrapping_mul(b) & low_mask(n)) as int == (a as int * b as int) % (pow2(n) as int),
{
    lemma_and_mask_is_mod(a.wrapping_mul(b), n);
    lemma_wrapping_mul_is_mod(a, b);
    lemma_word_mod(a as int * b as int, n);
}

/// Low bits of a wrapped sum are the sum modulo 2^n.
pub proof fn lemma_add_low(a: u128, b: u128, n: nat)
    requires
        n <= 128,
    ensures
        (a.wrapping_add(b) & low_mask(n)) as int == (a as int + b as int) % (pow2(n) as int),
{
    lemma_and_mask_is_mod(a.wrapping_add(b), n);
    lemma_wrapping_add_is_mod(a, b);
    lemma_word_mod(a as int + b as int, n);
}

/// Low bits of a wrapped difference are the difference modulo 2^n.
pub proof fn lemma_sub_low(a: u128, b: u128, n: nat)
    requires
        n <= 128,
    ensures
        (a.wrapping_sub(b) & low_mask(n)) as int == (a as int - b as int) % (pow2(n) as int),
{
    lemma_and_mask_is_mod(a.wrapping_sub(b), n);
    lemma_wrapping_sub_is_mod(a, b);
    lemma_word_mod(a as int - b as int, n);
}

/// One affine round `x * m + c` modulo 2^n.
pub open spec fn affine(x: u128, m: u128, c: u128, n: nat) -> u128 {
    x.wrapping_mul(m).wrapping_add(c) & low_mask(n)
}

/// Undoing an affine round with the inverse multiplier.
pub open spec fn unaffine(y: u128, c: u128, inv: u128, n: nat) -> u128 {
    (y.wrapping_sub(c) & low_mask(n)).wrapping_mul(inv) & low_mask(n)
}

/// An affine round with an invertible multiplier is undone by its inverse.
pub proof fn lemma_affine_roundtrip(x: u128, m: u128, c: u128, inv: u128, n: nat)
    requires
        n <= 128,
        x as int <= low_mask(n) as int,
        (m as int * inv as int) % (pow2(n) as int) == 1,
    ensures
        unaffine(affine(x, m, c, n), c, inv, n) == x,
        affine(x, m, c, n) as int == (x as int * m as int + c as int) % (pow2(n) as int),
{
    lemma_pow2_le_word(n);
    let big_m = pow2(n) as int;
    let w = x.wrapping_mul(m);
    lemma_wrapping_mul_is_mod(x, m);
    lemma_add_low(w, c, n);
    let xm = x as int * m as int;
    lemma_word_mod(xm, n);
    lemma_add_mod_noop(w as int, c as int, big_m);
    lemma_add_mod_noop(xm, c as int, big_m);
    let y = affine(x, m, c, n);
    assert(y as int == (xm + c as int) % big_m);
    lemma_sub_low(y, c, n);
    let t = y.wrapping_sub(c) & low_mask(n);
    lemma_sub_mod_noop(xm + c as int, c as int, big_m);
    vstd::arithmetic::div_mod::lemma_sub_mod_noop_right((xm + c as int) % big_m, c as int, big_m);
    assert(t as int == xm % big_m);
    lemma_mul_low(t, inv, n);
    lemma_mul_mod_noop_left(xm, inv as int, big_m);
    lemma_mul_is_associative(x as int, m as int, inv as int);
    lemma_mul_mod_noop_right(x as int, m as int * inv as int, big_m);
    lemma_small_mod(x as nat, big_m as nat);
}

/// One Newton step towards the inverse of `a` modulo 2^128.
pub open spec fn newton_step(a: u128, inv: u128) -> u128 {
    inv.wrapping_mul(2u128.wrapping_sub(a.wrapping_mul(inv)))
}

/// Correct bits after `i` Newton steps from `a` itself.
pub open spec fn precision(i: nat) -> nat
    decreases i,
{
    if i == 0 {
        3
    } else if 2 * precision((i - 1) as nat) <= 128 {
        2 * precision((i - 1) as nat)
    } else {
        128
    }
}

/// An odd number is its own inverse modulo 8.
pub proof fn lemma_odd_square(a: u128)
    requires
        a % 2 == 1,
    ensures
        (a as int * a as int) % (pow2(3) as int) == 1,
{
    lemma2_to64();
    vstd::arithmetic::div_mod::lemma_mul_mod_noop(a as int, a as int, 8);
    lemma_mod_mod(a as int, 2, 4);
    let r = a as int % 8;
    assert(r == 1 || r == 3 || r == 5 || r == 7);
    assert((r * r) % 8 == 1) by (nonlinear_arith)
        requires r == 1 || r == 3 || r == 5 || r == 7;
}

/// Each Newton step doubles the number of correct low bits, up to 128.
pub proof fn lemma_newton(a: u128, inv: u128, k: nat)
    requires
        1 <= k <= 128,
        (a as int * inv as int) % (pow2(k) as int) == 1,
    ensures
        (a as int * newton_step(a, inv) as int) % (pow2(if 2 * k <= 128 { 2 * k } else { 128 }) as int) == 1,
{
    let e: nat = if 2 * k <= 128 { 2 * k } else { 128 };
    let r = word() as int;
    let big_k = pow2(e) as int;
    let big_e = pow2(k) as int;
    lemma_pow2_le_word(e);
    lemma_pow2_le_word(k);
    let p = a.wrapping_mul(inv);
    lemma_wrapping_mul_is_mod(a, inv);
    let q = 2u128.wrapping_sub(p);
    lemma_wrapping_sub_is_mod(2, p);
    let inv2 = inv.wrapping_mul(q);
    lemma_wrapping_mul_is_mod(inv, q);
    // a * inv2 == p * (2 - p) modulo 2^128
    lemma_mul_mod_noop_right(a as int, inv as int * q as int, r);
    lemma_mul_is_associative(a as int, inv as int, q as int);
    lemma_mul_mod_noop_left(a as int * inv as int, q as int, r);
    lemma_mul_mod_noop_right(p as int, 2 - p as int, r);
    assert((a as int * inv2 as int) % r == (p as int * (2 - p as int)) % r);
    lemma_word_mod(a as int * inv2 as int, e);
    lemma_word_mod(p as int * (2 - p as int), e);
    // p is 1 modulo 2^k
    lemma_word_mod(a as int * inv as int, k);
    let t = p as int / big_e;
    vstd::arithmetic::div_mod::lemma_fundamental_div_mod(p as int, big_e);
    assert(p as int == big_e * t + 1);
    assert(p as int * (2 - p as int) == 1 - (big_e * big_e) * (t * t)) by (nonlinear_arith)
        requires p as int == big_e * t + 1;
    // 2^e divides 2^(2k)
    lemma_pow2_adds(k, k);
    lemma_pow2_adds(e, (2 * k - e) as nat);
    lemma_pow2_pos((2 * k - e) as nat);
    let j = pow2((2 * k - e) as nat) as int * (t * t);
    assert((big_e * big_e) * (t * t) == big_k * j) by (nonlinear_arith)
        requires big_e * big_e == big_k * pow2((2 * k - e) as nat) as int, j == pow2((2 * k - e) as nat) as int * (t * t);
    lemma_mod_multiples_vanish(-j, 1, big_k);
    assert(big_k * -j + 1 == 1 - big_k * j) by (nonlinear_arith);
    lemma_pow2_strictly_increases(0, e);
    lemma2_to64();
    lemma_small_mod(1, big_k as nat);
}


#[verifier::rlimit(100)]
proof fn lemma_shr_xor(a: u128, b: u128, s: u32)
    ensures
        (a ^ b) >> s == (a >> s) ^ (b >> s),
{
    assert((a ^ b) >> s == (a >> s) ^ (b >> s)) by (bit_vector);
}

proof fn lemma_shr_shr(y: u128, s: u32)
    requires
        s < 128,
    ensures
        (y >> s) >> s == y >> ((s * 2) as u32),
{
    assert((y >> s) >> s == y >> ((s * 2) as u32)) by (bit_vector)
        requires s < 128;
}

pub proof fn lemma_shr_le(y: u128, s: u32)
    ensures
        y >> s <= y,
{
    assert(y >> s <= y) by (bit_vector);
}

proof fn lemma_shr_wide(y: u128, s: u32)
    requires
        s >= 128,
    ensures
        y >> s == 0,
{
    assert(y >> s == 0) by (bit_vector)
        requires s >= 128;
}

proof fn lemma_shr_as_div(y: u128, s: u32)
    requires
        s < 128,
    ensures
        y >> s == y >> (s as u128),
{
    assert(y >> s == y >> (s as u128)) by (bit_vector)
        requires s < 128;
}

/// A right xor-shift round.
pub open spec fn xorshift(x: u128, s: u32) -> u128 {
    x ^ (x >> s)
}

/// Undoing a right xor-shift round on `bits`-bit values: xor in ever
/// longer shifts until they run off the end.
pub open spec fn unxorshift(x: u128, s: u32, bits: u32) -> u128
    decreases 256 - s,
{
    if s == 0 || s >= bits || bits > 128 {
        x
    } else {
        unxorshift(x ^ (x >> s), (s * 2) as u32, bits)
    }
}

proof fn lemma_shr_commute(x: u128, a: u32, b: u32)
    requires
        a < 128,
        b < 128,
    ensures
        (x >> a) >> b == (x >> b) >> a,
{
    lemma_shr_as_div(x, a);
    lemma_shr_as_div(x, b);
    lemma_shr_as_div(x >> a, b);
    lemma_shr_as_div(x >> b, a);
    vstd::bits::lemma_u128_shr_is_div(x, a as u128);
    vstd::bits::lemma_u128_shr_is_div(x, b as u128);
    vstd::bits::lemma_u128_shr_is_div(x >> a, b as u128);
    vstd::bits::lemma_u128_shr_is_div(x >> b, a as u128);
    lemma_pow2_pos(a as nat);
    lemma_pow2_pos(b as nat);
    vstd::arithmetic::div_mod::lemma_div_denominator(x as int, pow2(a as nat) as int, pow2(b as nat) as int);
    vstd::arithmetic::div_mod::lemma_div_denominator(x as int, pow2(b as nat) as int, pow2(a as nat) as int);
    vstd::arithmetic::mul::lemma_mul_is_commutative(pow2(a as nat) as int, pow2(b as nat) as int);
}

proof fn lemma_xor_swap(a: u128, b: u128, c: u128, d: u128)
    ensures
        (a ^ b) ^ (c ^ d) == (a ^ c) ^ (b ^ d),
{
    assert((a ^ b) ^ (c ^ d) == (a ^ c) ^ (b ^ d)) by (bit_vector);
}

proof fn lemma_xor_cancel(y: u128, a: u128, b: u128)
    ensures
        (y ^ a) ^ (a ^ b) == y ^ b,
        y ^ 0 == y,
{
    assert((y ^ a) ^ (a ^ b) == y ^ b) by (bit_vector);
    assert(y ^ 0 == y) by (bit_vector);
}

/// A value below 2^bits shifted by at least `bits` is zero.
pub proof fn lemma_shr_out(y: u128, t: u32, bits: u32)
    requires
        bits <= 128,
        bits <= t,
        y as int <= low_mask(bits as nat) as int,
    ensures
        y >> t == 0,
{
    if t >= 128 {
        lemma_shr_wide(y, t);
    } else {
        lemma_shr_as_div(y, t);
        vstd::bits::lemma_u128_shr_is_div(y, t as u128);
        lemma_pow2_le_word(bits as nat);
        if bits < t {
            lemma_pow2_strictly_increases(bits as nat, t as nat);
        }
        lemma_pow2_pos(t as nat);
        vstd::arithmetic::div_mod::lemma_basic_div(y as int, pow2(t as nat) as int);
    }
}

/// `unxorshift` undoes `xorshift`.
pub proof fn lemma_unxorshift_xorshift(y: u128, t: u32, bits: u32)
    requires
        1 <= t,
        1 <= bits <= 128,
        y as int <= low_mask(bits as nat) as int,
    ensures
        unxorshift(xorshift(y, t), t, bits) == y,
    decreases 256 - t,
{
    let x = xorshift(y, t);
    if t >= bits {
        lemma_shr_out(y, t, bits);
        lemma_xor_cancel(y, 0, 0);
    } else {
        lemma_shr_xor(y, y >> t, t);
        lemma_shr_shr(y, t);
        lemma_xor_cancel(y, y >> t, (y >> t) >> t);
        assert(x ^ (x >> t) == xorshift(y, (t * 2) as u32));
        lemma_unxorshift_xorshift(y, (t * 2) as u32, bits);
    }
}

/// `xorshift` undoes `unxorshift`: the loop keeps `x ^ (x >> s)` equal to
/// `y ^ (y >> t)` while `t` doubles.
pub proof fn lemma_xorshift_unxorshift(x: u128, y: u128, s: u32, t: u32, bits: u32)
    requires
        1 <= t,
        s < 128,
        1 <= bits <= 128,
        y as int <= low_mask(bits as nat) as int,
        xorshift(x, s) == xorshift(y, t),
    ensures
        xorshift(unxorshift(x, t, bits), s) == y,
    decreases 256 - t,
{
    if t >= bits {
        lemma_shr_out(y, t, bits);
        lemma_xor_cancel(y, 0, 0);
    } else {
        let x2 = x ^ (x >> t);
        // x2 ^ (x2 >> s) == (x ^ (x >> s)) ^ ((x ^ (x >> s)) >> t)
        lemma_shr_xor(x, x >> t, s);
        lemma_shr_commute(x, t, s);
        lemma_shr_xor(x, x >> s, t);
        lemma_xor_swap(x, x >> t, x >> s, (x >> s) >> t);
        assert(x2 ^ (x2 >> s) == (x ^ (x >> s)) ^ ((x ^ (x >> s)) >> t));
        // == (y ^ (y >> t)) ^ ((y ^ (y >> t)) >> t) == y ^ (y >> 2t)
        lemma_shr_xor(y, y >> t, t);
        lemma_shr_shr(y, t);
        lemma_xor_cancel(y, y >> t, (y >> t) >> t);
        assert(xorshift(x2, s) == xorshift(y, (t * 2) as u32));
        lemma_xorshift_unxorshift(x2, y, s, (t * 2) as u32, bits);
    }
}

/// Xor-shifting keeps a value below 2^bits.
pub proof fn lemma_xorshift_bound(y: u128, t: u32, bits: u32)
    requires
        1 <= bits <= 128,
        y as int <= low_mask(bits as nat) as int,
    ensures
        xorshift(y, t) as int <= low_mask(bits as nat) as int,
{
    let m = low_mask(bits as nat);
    lemma_pow2_le_word(bits as nat);
    lemma_and_mask_is_mod(y, bits as nat);
    lemma_small_mod(y as nat, pow2(bits as nat));
    lemma_shr_le(y, t);
    let z = y >> t;
    lemma_and_mask_is_mod(z, bits as nat);
    lemma_small_mod(z as nat, pow2(bits as nat));
    assert((y ^ z) & m == y ^ z) by (bit_vector)
        requires y & m == y, z & m == z;
    lemma_and_mask_is_mod(y ^ z, bits as nat);
}

/// An affine round with an invertible multiplier undoes its inverse.
pub proof fn lemma_unaffine_roundtrip(y: u128, m: u128, c: u128, inv: u128, n: nat)
    requires
        n <= 128,
        y as int <= low_mask(n) as int,
        (m as int * inv as int) % (pow2(n) as int) == 1,
    ensures
        affine(unaffine(y, c, inv, n), m, c, n) == y,
        unaffine(y, c, inv, n) as int <= low_mask(n) as int,
{
    lemma_pow2_le_word(n);
    let big_m = pow2(n) as int;
    lemma_sub_low(y, c, n);
    let t = y.wrapping_sub(c) & low_mask(n);
    lemma_mul_low(t, inv, n);
    let z = unaffine(y, c, inv, n);
    assert(z as int == (t as int * inv as int) % big_m);
    // z * m + c == (y - c) * inv * m + c == y  (mod 2^n)
    let w = z.wrapping_mul(m);
    lemma_wrapping_mul_is_mod(z, m);
    lemma_add_low(w, c, n);
    lemma_word_mod(z as int * m as int, n);
    lemma_add_mod_noop(w as int, c as int, big_m);
    lemma_add_mod_noop(z as int * m as int, c as int, big_m);
    lemma_mul_mod_noop_left(t as int * inv as int, m as int, big_m);
    lemma_mul_is_associative(t as int, inv as int, m as int);
    vstd::arithmetic::mul::lemma_mul_is_commutative(inv as int, m as int);
    lemma_mul_mod_noop_right(t as int, inv as int * m as int, big_m);
    assert((z as int * m as int) % big_m == t as int % big_m);
    lemma_small_mod(t as nat, big_m as nat);
    assert(affine(z, m, c, n) as int == (z as int * m as int + c as int) % big_m);
    lemma_add_mod_noop(t as int, c as int, big_m);
    assert(affine(z, m, c, n) as int == (t as int + c as int) % big_m);
    lemma_sub_mod_noop(y as int, c as int, big_m);
    vstd::arithmetic::div_mod::lemma_sub_mod_noop_right(y as int, c as int, big_m);
    lemma_add_mod_noop(t as int, c as int, big_m);
    lemma_add_mod_noop(y as int - c as int, c as int, big_m);
    lemma_small_mod(y as nat, big_m as nat);
    lemma_and_mask_is_mod(affine(unaffine(y, c, inv, n), m, c, n), n);
}

/// Multiplying by `m` and then by its inverse leaves a residue unchanged.
pub proof fn lemma_mul_cancel(x: int, m: int, inv: int, big_m: int)
    requires
        big_m > 0,
        (m * inv) % big_m == 1,
    ensures
        (((x * m) % big_m) * inv) % big_m == x % big_m,
        (x * m * inv) % big_m == x % big_m,
{
    lemma_mul_mod_noop_left(x * m, inv, big_m);
    lemma_mul_is_associative(x, m, inv);
    lemma_mul_mod_noop_right(x, m * inv, big_m);
}

/// Undoing an xor-shift keeps a value below 2^bits.
pub proof fn lemma_unxorshift_bound(x: u128, s: u32, bits: u32)
    requires
        1 <= bits <= 128,
        x as int <= low_mask(bits as nat) as int,
    ensures
        unxorshift(x, s, bits) as int <= low_mask(bits as nat) as int,
    decreases 256 - s,
{
    if s == 0 || s >= bits || bits > 128 {
    } else {
        lemma_xorshift_bound(x, s, bits);
        lemma_unxorshift_bound(x ^ (x >> s), (s * 2) as u32, bits);
    }
}

/// Shifting by a `u32` amount is shifting by the same amount as `u128`.
pub proof fn lemma_shr_as_div_pub(y: u128, s: u32)
    requires
        s < 128,
    ensures
        y >> s == y >> (s as u128),
{
    lemma_shr_as_div(y, s);
}

/// 2^(a + b) == 2^a * 2^b.
pub proof fn lemma_pow2_adds_pub(a: nat, b: nat)
    ensures
        pow2(a + b) == pow2(a) * pow2(b),
        pow2(8) == 256,
{
    lemma_pow2_adds(a, b);
    lemma2_to64();
}

} // verus!
