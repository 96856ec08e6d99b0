//! The integer core of the engine's pseudo-random generator: xoshiro256**
//! seeded through SplitMix64, and the exactly uniform integer draws built on
//! it.
use vstd::prelude::*;
use crate::mixing::{wmul64, wadd64, rotl64, mix64_spec, GOLDEN_GAMMA, rotate_left_u64, splitmix64_next};

verus! {

/// The four state words of the generator.
pub type XoState = (u64, u64, u64, u64);

/// The output of xoshiro256** for a state: the scrambled second word.
pub open spec fn xo_output(s: XoState) -> u64 {
    wmul64(rotl64(wmul64(s.1, 5), 7), 9)
}

/// The xoshiro256 state transition.
pub open spec fn xo_step(s: XoState) -> XoState {
    let t = (s.1 << 17u64) as u64;
    let s2 = s.2 ^ s.0;
    let s3 = s.3 ^ s.1;
    let s1 = s.1 ^ s2;
    let s0 = s.0 ^ s3;
    (s0, s1, s2 ^ t, rotl64(s3, 45))
}

/// Whether the lowest bit of a word is set.
pub open spec fn low_bit(x: u64) -> bool {
    x & 1 == 1
}

/// The top 16 bits of a word.
pub open spec fn top16(x: u64) -> u16 {
    (x >> 48u64) as u16
}

/// The top 32 bits of a word.
pub open spec fn top32(x: u64) -> u32 {
    (x >> 32u64) as u32
}

/// Two words joined into one, `high` in the upper half.
pub open spec fn joined(high: u64, low: u64) -> u128 {
    ((high as u128) * 0x1_0000_0000_0000_0000u128 + low as u128) as u128
}

/// The state after `n` transitions.
pub open spec fn xo_advance(s: XoState, n: nat) -> XoState
    decreases n,
{
    if n == 0 {
        s
    } else {
        xo_step(xo_advance(s, (n - 1) as nat))
    }
}

/// The state the generator starts from for `seed`: both halves folded into
/// one word, then four SplitMix64 draws; an all-zero state is replaced.
pub open spec fn seeded_state(seed: u128) -> XoState {
    let lower = seed as u64;
    let upper = (seed >> 64u128) as u64;
    let start = lower ^ rotl64(upper, 32) ^ GOLDEN_GAMMA;
    let a = wadd64(start, GOLDEN_GAMMA);
    let b = wadd64(a, GOLDEN_GAMMA);
    let c = wadd64(b, GOLDEN_GAMMA);
    let d = wadd64(c, GOLDEN_GAMMA);
    let s = (mix64_spec(a), mix64_spec(b), mix64_spec(c), mix64_spec(d));
    if s == (0u64, 0u64, 0u64, 0u64) {
        (GOLDEN_GAMMA, 0u64, 0u64, 0u64)
    } else {
        s
    }
}

/// The high half of the 128-bit product `x * range`.
pub open spec fn high_product(x: u64, range: u64) -> u64 {
    ((x as nat * range as nat) / 0x1_0000_0000_0000_0000nat) as u64
}

/// The low half of the 128-bit product `x * range`.
pub open spec fn low_product(x: u64, range: u64) -> u64 {
    ((x as nat * range as nat) % 0x1_0000_0000_0000_0000nat) as u64
}

/// Lemire's rejection threshold: `2^64 mod range`.
pub open spec fn lemire_threshold(range: u64) -> u64 {
    (0x1_0000_0000_0000_0000nat % (range as nat)) as u64
}

/// Lemire's bounded draw from state `s`, drawing again at most `fuel` more
/// times while the low half falls below the threshold. Returns the value and
/// the state after the last draw.
pub open spec fn bounded_draw(s: XoState, range: u64, fuel: nat) -> (u64, XoState)
    decreases fuel,
{
    let x = xo_output(s);
    let next = xo_step(s);
    if low_product(x, range) >= lemire_threshold(range) || fuel == 0 {
        (high_product(x, range), next)
    } else {
        bounded_draw(next, range, (fuel - 1) as nat)
    }
}

/// How many redraws a bounded draw may make before it accepts whatever it has.
pub open spec fn redraw_limit() -> nat {
    0xFFFF_FFFF_FFFF_FFFFnat
}

/// A seedable xoshiro256** generator.
pub struct Random {
    seed: u128,
    s0: u64,
    s1: u64,
    s2: u64,
    s3: u64,
}

impl Random {
    /// The current state words.
    pub closed spec fn state(&self) -> XoState {
        (self.s0, self.s1, self.s2, self.s3)
    }

    /// The seed the generator was last started from.
    pub closed spec fn seed_spec(&self) -> u128 {
        self.seed
    }

    /// A generator started from `seed`.
    pub fn new(seed: u128) -> (random: Self)
        ensures
            random.seed_spec() == seed,
            random.state() == seeded_state(seed),
    {
        let mut random = Random { seed, s0: 0, s1: 0, s2: 0, s3: 0 };
        random.reseed(seed);
        random
    }

    /// Restarts the generator from `seed`.
    pub fn reseed(&mut self, seed: u128)
        ensures
            final(self).seed_spec() == seed,
            final(self).state() == seeded_state(seed),
    {
        self.seed = seed;
        let lower: u64 = seed as u64;
        let upper: u64 = (seed >> 64) as u64;
        let mut seed_state: u64 = lower ^ rotate_left_u64(upper, 32) ^ GOLDEN_GAMMA;
        self.s0 = Self::splitmix64(&mut seed_state);
        self.s1 = Self::splitmix64(&mut seed_state);
        self.s2 = Self::splitmix64(&mut seed_state);
        self.s3 = Self::splitmix64(&mut seed_state);
        if self.s0 == 0 && self.s1 == 0 && self.s2 == 0 && self.s3 == 0 {
            self.s0 = GOLDEN_GAMMA;
        }
    }

    /// The seed the generator was last started from.
    pub fn seed(&self) -> (seed: u128)
        ensures
            seed == self.seed_spec(),
    {
        self.seed
    }

    /// One SplitMix64 step on a separate counter.
    pub fn splitmix64(state: &mut u64) -> (out: u64)
        ensures
            *final(state) == wadd64(*old(state), GOLDEN_GAMMA),
            out == mix64_spec(*final(state)),
    {
        splitmix64_next(state)
    }

    /// The next 64 output bits.
    pub fn next_u64(&mut self) -> (out: u64)
        ensures
            out == xo_output(old(self).state()),
            final(self).state() == xo_step(old(self).state()),
            final(self).seed_spec() == old(self).seed_spec(),
    {
        let result: u64 = rotate_left_u64(self.s1.wrapping_mul(5), 7).wrapping_mul(9);
        let temporary: u64 = self.s1 << 17;
        self.s2 = self.s2 ^ self.s0;
        self.s3 = self.s3 ^ self.s1;
        self.s1 = self.s1 ^ self.s2;
        self.s0 = self.s0 ^ self.s3;
        self.s2 = self.s2 ^ temporary;
        self.s3 = rotate_left_u64(self.s3, 45);
        result
    }

    /// A fair coin from the lowest output bit.
    pub fn next_bool(&mut self) -> (out: bool)
        ensures
            out == low_bit(xo_output(old(self).state())),
            final(self).state() == xo_step(old(self).state()),
            final(self).seed_spec() == old(self).seed_spec(),
    {
        (self.next_u64() & 1) == 1
    }

    /// The top 16 output bits.
    pub fn next_u16(&mut self) -> (out: u16)
        ensures
            out == top16(xo_output(old(self).state())),
            final(self).state() == xo_step(old(self).state()),
            final(self).seed_spec() == old(self).seed_spec(),
    {
        (self.next_u64() >> 48) as u16
    }

    /// The top 32 output bits.
    pub fn next_u32(&mut self) -> (out: u32)
        ensures
            out == top32(xo_output(old(self).state())),
            final(self).state() == xo_step(old(self).state()),
            final(self).seed_spec() == old(self).seed_spec(),
    {
        (self.next_u64() >> 32) as u32
    }

    /// Two outputs joined, the first in the upper half.
    pub fn next_u128(&mut self) -> (out: u128)
        ensures
            out == joined(xo_output(old(self).state()), xo_output(xo_step(old(self).state()))),
            final(self).state() == xo_step(xo_step(old(self).state())),
            final(self).seed_spec() == old(self).seed_spec(),
    {
        let upper: u64 = self.next_u64();
        let lower: u64 = self.next_u64();
        let u: u128 = upper as u128;
        let l: u128 = lower as u128;
        assert((u << 64u128) | l == u * 0x1_0000_0000_0000_0000u128 + l) by (bit_vector)
            requires
                u <= 0xFFFF_FFFF_FFFF_FFFFu128,
                l <= 0xFFFF_FFFF_FFFF_FFFFu128,
        ;
        (u << 64) | l
    }

    /// `next_u128` reinterpreted as signed.
    pub fn nex_i128(&mut self) -> (out: i128)
        ensures
            out == joined(xo_output(old(self).state()), xo_output(xo_step(old(self).state()))) as i128,
            final(self).state() == xo_step(xo_step(old(self).state())),
            final(self).seed_spec() == old(self).seed_spec(),
    {
        self.next_u128() as i128
    }

    /// `next_u64` reinterpreted as signed.
    pub fn nex_i64(&mut self) -> (out: i64)
        ensures
            out == xo_output(old(self).state()) as i64,
            final(self).state() == xo_step(old(self).state()),
            final(self).seed_spec() == old(self).seed_spec(),
    {
        self.next_u64() as i64
    }

    /// `next_u32` reinterpreted as signed.
    pub fn nex_i32(&mut self) -> (out: i32)
        ensures
            out == top32(xo_output(old(self).state())) as i32,
            final(self).state() == xo_step(old(self).state()),
            final(self).seed_spec() == old(self).seed_spec(),
    {
        self.next_u32() as i32
    }

    /// `next_u16` reinterpreted as signed.
    pub fn nex_i16(&mut self) -> (out: i16)
        ensures
            out == top16(xo_output(old(self).state())) as i16,
            final(self).state() == xo_step(old(self).state()),
            final(self).seed_spec() == old(self).seed_spec(),
    {
        self.next_u16() as i16
    }

    /// Uniform integer in `0..range` without modulo bias (Lemire's method):
    /// draws again while the low half of the product falls below
    /// `2^64 mod range`.
    fn bounded_u64(&mut self, range: u64) -> (out: u64)
        requires
            range > 0,
        ensures
            out < range,
            (out, final(self).state()) == bounded_draw(old(self).state(), range, redraw_limit()),
            final(self).seed_spec() == old(self).seed_spec(),
    {
        let threshold: u64 = 0u64.wrapping_sub(range) % range;
        proof {
            lemma_threshold(range);
        }
        let mut fuel: u64 = 0xFFFF_FFFF_FFFF_FFFF;
        loop
            invariant
                range > 0,
                threshold == lemire_threshold(range),
                bounded_draw(old(self).state(), range, redraw_limit()) == bounded_draw(self.state(), range, fuel as nat),
                self.seed_spec() == old(self).seed_spec(),
            decreases fuel,
        {
            let x: u64 = self.next_u64();
            proof {
                assert(x as nat * range as nat <= 0xFFFF_FFFF_FFFF_FFFFnat * 0xFFFF_FFFF_FFFF_FFFFnat) by (nonlinear_arith)
                    requires
                        x <= 0xFFFF_FFFF_FFFF_FFFFnat,
                        range <= 0xFFFF_FFFF_FFFF_FFFFnat;
            }
            let product: u128 = x as u128 * range as u128;
            let low: u64 = #[verifier::truncate] (product as u64);
            let high: u64 = #[verifier::truncate] ((product >> 64) as u64);
            proof {
                lemma_product_halves(x, range, product);
            }
            if low >= threshold || fuel == 0 {
                return high;
            }
            fuel = fuel - 1;
        }
    }

    /// Uniform integer in `low..=high`.
    pub fn uniform_u64(&mut self, low: u64, high: u64) -> (out: u64)
        requires
            low <= high,
        ensures
            low <= out <= high,
            high - low == u64::MAX ==> out == xo_output(old(self).state()) && final(self).state() == xo_step(old(self).state()),
            high - low < u64::MAX ==> ((out - low) as u64, final(self).state()) == bounded_draw(old(self).state(), (high - low + 1) as u64, redraw_limit()),
            final(self).seed_spec() == old(self).seed_spec(),
    {
        let span: u64 = high - low;
        if span == u64::MAX {
            return self.next_u64();
        }
        low + self.bounded_u64(span + 1)
    }

    /// Uniform integer in `low..=high`.
    pub fn uniform_i64(&mut self, low: i64, high: i64) -> (out: i64)
        requires
            low <= high,
        ensures
            low <= out <= high,
            high - low == u64::MAX ==> out == xo_output(old(self).state()) as i64 && final(self).state() == xo_step(old(self).state()),
            high - low < u64::MAX ==> ((out - low) as u64, final(self).state()) == bounded_draw(old(self).state(), (high - low + 1) as u64, redraw_limit()),
            final(self).seed_spec() == old(self).seed_spec(),
    {
        let span_int: i128 = high as i128 - low as i128;
        let span: u64 = span_int as u64;
        if span == u64::MAX {
            return self.next_u64() as i64;
        }
        let offset: u64 = self.bounded_u64(span + 1);
        (low as i128 + offset as i128) as i64
    }

    /// Uniform index in `0..length`.
    pub fn uniform_index(&mut self, length: usize) -> (out: usize)
        requires
            length > 0,
        ensures
            out < length,
            (out as u64, final(self).state()) == bounded_draw(old(self).state(), length as u64, redraw_limit()),
            final(self).seed_spec() == old(self).seed_spec(),
    {
        self.bounded_u64(length as u64) as usize
    }
}

/// The 128-bit product of two 64-bit words splits into the high and low
/// halves that the bounded draw reads.
proof fn lemma_product_halves(x: u64, range: u64, product: u128)
    requires
        product == x as u128 * range as u128,
    ensures
        (product as u64) == low_product(x, range),
        ((product >> 64u128) as u64) == high_product(x, range),
        range > 0 ==> high_product(x, range) < range,
{
    assert(x as nat * range as nat <= 0xFFFF_FFFF_FFFF_FFFFnat * 0xFFFF_FFFF_FFFF_FFFFnat) by (nonlinear_arith)
        requires
            x <= 0xFFFF_FFFF_FFFF_FFFFnat,
            range <= 0xFFFF_FFFF_FFFF_FFFFnat;
    assert((product as u64) as u128 == product % 0x1_0000_0000_0000_0000u128
        && (product >> 64u128) == product / 0x1_0000_0000_0000_0000u128) by (bit_vector);
    if range > 0 {
        assert((x as nat * range as nat) / 0x1_0000_0000_0000_0000nat < range as nat) by (nonlinear_arith)
            requires
                x < 0x1_0000_0000_0000_0000nat,
                range > 0;
    }
}

/// `(2^64 - range) mod range` is `2^64 mod range`.
proof fn lemma_threshold(range: u64)
    requires
        range > 0,
    ensures
        vstd::wrapping::u64_specs::wrapping_sub(0u64, range) % range == lemire_threshold(range),
{
    vstd::arithmetic::div_mod::lemma_mod_sub_multiples_vanish(0x1_0000_0000_0000_0000int, range as int);
}


/// The xoshiro256 transition word by word, in terms of the words before
/// it: the first word takes the second and fourth, the second takes the
/// first and third, the third takes the first and the second shifted left
/// by 17, and the fourth is the fourth and second rotated left by 45.
pub proof fn lemma_xo_step_words(s: XoState)
    ensures
        xo_step(s).0 == s.0 ^ (s.3 ^ s.1),
        xo_step(s).1 == s.1 ^ (s.2 ^ s.0),
        xo_step(s).2 == (s.2 ^ s.0) ^ ((s.1 << 17u64) as u64),
        xo_step(s).3 == rotl64(s.3 ^ s.1, 45),
        xo_output(s) == wmul64(rotl64(wmul64(s.1, 5), 7), 9),
{
}

/// The two rotations the generator uses, as arithmetic: the bits shifted
/// out at the top come back in at the bottom.
pub proof fn lemma_rotations(x: u64)
    ensures
        rotl64(x, 45) as int == (x as int * 0x2000_0000_0000int) % 0x1_0000_0000_0000_0000int + x as int / 0x8_0000int,
        rotl64(x, 7) as int == (x as int * 0x80int) % 0x1_0000_0000_0000_0000int + x as int / 0x200_0000_0000_0000int,
{
    assert(rotl64(x, 45) as int == (x as int * 0x2000_0000_0000int) % 0x1_0000_0000_0000_0000int + x as int / 0x8_0000int
        && rotl64(x, 7) as int == (x as int * 0x80int) % 0x1_0000_0000_0000_0000int + x as int / 0x200_0000_0000_0000int) by (bit_vector);
}

/// Multiplying by `inverse` and then by `k` modulo 2^64 gives the word back
/// when the two are inverse modulo 2^64.
proof fn lemma_wmul_undo(y: u64, k: u64, inverse: u64)
    requires
        (k as int * inverse as int) % 0x1_0000_0000_0000_0000int == 1,
    ensures
        wmul64(wmul64(y, inverse), k) == y,
{
    let m = 0x1_0000_0000_0000_0000int;
    vstd::arithmetic::div_mod::lemma_mul_mod_noop_left(y as int * inverse as int, k as int, m);
    assert(y as int * inverse as int * k as int == y as int * (k as int * inverse as int)) by (nonlinear_arith);
    vstd::arithmetic::div_mod::lemma_mul_mod_noop_right(y as int, k as int * inverse as int, m);
    vstd::arithmetic::div_mod::lemma_small_mod(y as nat, m as nat);
}

/// Every word is the output of some state.
proof fn lemma_output_preimage(x: u64) -> (s: XoState)
    ensures
        xo_output(s) == x,
{
    let inv9: u64 = 0x8e38_e38e_38e3_8e39;
    let inv5: u64 = 0xcccc_cccc_cccc_cccd;
    let a = wmul64(x, inv9);
    let r = rotl64(a, 57);
    assert(rotl64(r, 7) == a) by (bit_vector)
        requires
            r == rotl64(a, 57);
    let s1 = wmul64(r, inv5);
    lemma_wmul_undo(r, 5, inv5);
    lemma_wmul_undo(x, 9, inv9);
    (0u64, s1, 0u64, 0u64)
}

/// A word whose product with `range` has `j` as its high half and a low
/// half the bounded draw accepts.
proof fn lemma_accepted_word(range: u64, j: u64) -> (x: u64)
    requires
        0 < range,
        j < range,
    ensures
        high_product(x, range) == j,
        low_product(x, range) >= lemire_threshold(range),
{
    let m: int = 0x1_0000_0000_0000_0000int;
    let r: int = range as int;
    let top: int = (j as int + 1) * m - 1;
    assert(top >= 0) by (nonlinear_arith)
        requires
            j >= 0,
            m > 0,
            top == (j + 1) * m - 1;
    let q: int = top / r;
    let rem: int = top % r;
    vstd::arithmetic::div_mod::lemma_fundamental_div_mod(top, r);
    vstd::arithmetic::div_mod::lemma_mod_bound(top, r);
    assert(r * q == q * r) by (nonlinear_arith);
    assert(q >= 0) by (nonlinear_arith)
        requires
            top == r * q + rem,
            0 <= rem < r,
            top >= 0,
            r > 0;
    assert(q < m) by (nonlinear_arith)
        requires
            q * r <= top,
            top == (j + 1) * m - 1,
            j + 1 <= r,
            r > 0,
            m > 0;
    let x = q as u64;
    let p: int = q * r;
    assert(j as int * m <= p && p < (j as int + 1) * m) by (nonlinear_arith)
        requires
            p == top - rem,
            0 <= rem < r,
            top == (j + 1) * m - 1,
            r < m;
    vstd::arithmetic::div_mod::lemma_fundamental_div_mod_converse(p, m, j as int, p - j as int * m);
    let t: int = m % r;
    vstd::arithmetic::div_mod::lemma_fundamental_div_mod(m, r);
    vstd::arithmetic::div_mod::lemma_mod_bound(m, r);
    assert(p - j as int * m >= t) by (nonlinear_arith)
        requires
            p >= top - r + 1,
            top == (j + 1) * m - 1,
            m == r * (m / r) + t,
            0 <= t < r,
            r < m,
            r > 0;
    assert(x as nat * range as nat == p);
    x
}

/// A bounded draw is below its range.
pub proof fn lemma_bounded_draw_below(s: XoState, range: u64, fuel: nat)
    requires
        range > 0,
    ensures
        bounded_draw(s, range, fuel).0 < range,
    decreases fuel,
{
    let x = xo_output(s);
    assert((x as nat * range as nat) / 0x1_0000_0000_0000_0000nat < range as nat) by (nonlinear_arith)
        requires
            x < 0x1_0000_0000_0000_0000nat,
            range > 0;
    if !(low_product(x, range) >= lemire_threshold(range) || fuel == 0) {
        lemma_bounded_draw_below(xo_step(s), range, (fuel - 1) as nat);
    }
}

/// Every value below `range` is drawn first from some state: a bounded
/// draw can give each of `0..range`.
pub proof fn lemma_bounded_draw_reaches(range: u64, j: u64, fuel: nat)
    requires
        0 < range,
        j < range,
    ensures
        exists|s: XoState| #[trigger] bounded_draw(s, range, fuel).0 == j && bounded_draw(s, range, fuel).1 == xo_step(s),
{
    let s = state_drawing(range, j);
    assert(bounded_draw(s, range, fuel).0 == j && bounded_draw(s, range, fuel).1 == xo_step(s));
}

/// A state from which a bounded draw over `range` gives `j` at once.
pub proof fn state_drawing(range: u64, j: u64) -> (s: XoState)
    requires
        0 < range,
        j < range,
    ensures
        forall|fuel: nat| #[trigger] bounded_draw(s, range, fuel) == (j, xo_step(s)),
{
    let x = lemma_accepted_word(range, j);
    let s = lemma_output_preimage(x);
    assert forall|fuel: nat| #[trigger] bounded_draw(s, range, fuel) == (j, xo_step(s)) by {
        assert(xo_output(s) == x);
    }
    s
}


/// The narrower draws read the word as numbers: the coin is the word's
/// parity, the 16- and 32-bit draws are the word divided by 2^48 and 2^32,
/// and the 128-bit draw puts the first word above the second.
pub proof fn lemma_draw_widths(x: u64, y: u64)
    ensures
        low_bit(x) == (x % 2 == 1),
        top16(x) as int == x as int / 0x1_0000_0000_0000int,
        top32(x) as int == x as int / 0x1_0000_0000int,
        joined(x, y) as int == x as int * 0x1_0000_0000_0000_0000int + y as int,
        joined(x, y) as int / 0x1_0000_0000_0000_0000int == x as int,
        joined(x, y) as int % 0x1_0000_0000_0000_0000int == y as int,
{
    assert((x & 1 == 1) == (x % 2 == 1) && (x >> 48u64) as u16 as u64 == x / 0x1_0000_0000_0000u64
        && (x >> 32u64) as u32 as u64 == x / 0x1_0000_0000u64) by (bit_vector);
    assert(x as int * 0x1_0000_0000_0000_0000int + y as int <= 0xFFFF_FFFF_FFFF_FFFF_FFFF_FFFF_FFFF_FFFFint) by (nonlinear_arith)
        requires
            x <= 0xFFFF_FFFF_FFFF_FFFFint,
            y <= 0xFFFF_FFFF_FFFF_FFFFint;
    vstd::arithmetic::div_mod::lemma_fundamental_div_mod_converse(
        x as int * 0x1_0000_0000_0000_0000int + y as int, 0x1_0000_0000_0000_0000int, x as int, y as int);
}


/// A range that is a power of two, `2^k`, is drawn without redrawing: the
/// draw is the top `k` bits of the first output.
pub proof fn lemma_bounded_draw_power_of_two(s: XoState, k: nat, fuel: nat)
    requires
        k <= 63,
    ensures
        bounded_draw(s, vstd::arithmetic::power2::pow2(k) as u64, fuel)
            == ((xo_output(s) as nat / vstd::arithmetic::power2::pow2((64 - k) as nat)) as u64, xo_step(s)),
{
    let a = vstd::arithmetic::power2::pow2(k);
    let b = vstd::arithmetic::power2::pow2((64 - k) as nat);
    vstd::arithmetic::power2::lemma_pow2_pos(k);
    vstd::arithmetic::power2::lemma_pow2_pos((64 - k) as nat);
    vstd::arithmetic::power2::lemma_pow2_adds(k, (64 - k) as nat);
    assert(vstd::arithmetic::power2::pow2(64) == 0x1_0000_0000_0000_0000nat) by {
        vstd::arithmetic::power2::lemma2_to64();
    }
    assert(a <= 0x8000_0000_0000_0000nat) by {
        vstd::arithmetic::power2::lemma2_to64();
        vstd::arithmetic::power2::lemma_pow2_adds(1, (63 - k) as nat);
        vstd::arithmetic::power2::lemma_pow2_pos((63 - k) as nat);
        assert((1 + (63 - k)) as nat == (64 - k) as nat);
        assert(b >= 2);
        assert(a * 2 <= 0x1_0000_0000_0000_0000nat) by (nonlinear_arith)
            requires a * b == 0x1_0000_0000_0000_0000nat, b >= 2;
    }
    let range = a as u64;
    assert(range as nat == a);
    let x = xo_output(s);
    vstd::arithmetic::div_mod::lemma_mod_multiples_basic(b as int, a as int);
    assert(a * b == b * a) by (nonlinear_arith);
    assert(lemire_threshold(range) == 0);
    vstd::arithmetic::div_mod::lemma_div_denominator(x as int * a as int, a as int, b as int);
    vstd::arithmetic::div_mod::lemma_div_by_multiple(x as int, a as int);
    assert(high_product(x, range) as nat == x as nat / b);
}

} // verus!
