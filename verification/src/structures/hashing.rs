//! The fast deterministic hasher shared by the structures: a
//! multiply-rotate hasher in the style of FxHash. The same operations on
//! the same data always produce the same hash.
//!
//! It is not resistant to deliberately crafted collisions, which is fine for
//! game data but not for untrusted network input.
use vstd::prelude::*;
use crate::mixing::{mix64, mix64_spec, rotl64, wadd64, wmul64};
use crate::structures::traits::key::Key;

verus! {

/// The odd multiplier of every step.
pub const MULTIPLIER: u64 = 0xF135_7AEA_2E62_A9C5;

/// The state after absorbing one 64-bit word.
pub open spec fn add_word_spec(hash: u64, word: u64) -> u64 {
    hash.wrapping_add(word).wrapping_mul(MULTIPLIER)
}

/// The little-endian 64-bit word of `bytes` (at most eight of them).
pub open spec fn le_word(bytes: Seq<u8>) -> nat
    decreases bytes.len(),
{
    if bytes.len() == 0 {
        0
    } else {
        bytes[0] as nat + 256 * le_word(bytes.drop_first())
    }
}

/// The state after absorbing `bytes`: each whole eight-byte chunk as a
/// little-endian word, then any remainder zero-padded and tagged with its
/// length in the top bits, which keeps "a" and "a\0" apart.
pub open spec fn write_spec(hash: u64, bytes: Seq<u8>) -> u64
    decreases bytes.len(),
{
    if bytes.len() >= 8 {
        write_spec(add_word_spec(hash, le_word(bytes.subrange(0, 8)) as u64), bytes.subrange(8, bytes.len() as int))
    } else if bytes.len() == 0 {
        hash
    } else {
        add_word_spec(hash, (le_word(bytes) as u64) ^ ((bytes.len() as u64) << 59u64))
    }
}

/// Fast deterministic hasher used by the structures.
#[derive(Clone, Copy)]
pub struct FastHasher {
    hash: u64,
}

impl View for FastHasher {
    type V = u64;

    closed spec fn view(&self) -> u64 {
        self.hash
    }
}

impl FastHasher {
    /// A hasher that has absorbed nothing.
    pub fn new() -> (h: Self)
        ensures
            h@ == 0,
    {
        FastHasher { hash: 0 }
    }

    fn add_word(&mut self, word: u64)
        ensures
            final(self)@ == add_word_spec(old(self)@, word),
    {
        self.hash = self.hash.wrapping_add(word).wrapping_mul(MULTIPLIER);
    }

    /// The little-endian word of up to eight bytes starting at `start`.
    fn read_word(bytes: &[u8], start: usize, len: usize) -> (word: u64)
        requires
            len <= 8,
            start + len <= bytes@.len(),
        ensures
            word as nat == le_word(bytes@.subrange(start as int, (start + len) as int)),
    {
        let mut word: u64 = 0;
        let mut j: usize = len;
        let total = bytes.len();
        proof {
            assert(bytes@.subrange((start + len) as int, (start + len) as int) =~= Seq::<u8>::empty());
        }
        while j > 0
            invariant
                j <= len <= 8,
                start + len <= bytes@.len(),
                total == bytes@.len(),
                word as nat == le_word(bytes@.subrange(start + j, (start + len) as int)),
                word < pow256((len - j) as nat),
            decreases j,
        {
            let b = bytes[start + (j - 1)];
            proof {
                let sub = bytes@.subrange(start + j - 1, (start + len) as int);
                assert(sub.drop_first() =~= bytes@.subrange(start + j, (start + len) as int));
                lemma_pow256_le((len - j + 1) as nat, 8);
                assert(word * 256 + b < pow256((len - j + 1) as nat)) by (nonlinear_arith)
                    requires
                        word < pow256((len - j) as nat),
                        b < 256,
                        pow256((len - j + 1) as nat) == 256 * pow256((len - j) as nat);
            }
            word = word * 256 + b as u64;
            j -= 1;
        }
        word
    }

    /// Absorbs raw bytes.
    pub fn write(&mut self, bytes: &[u8])
        ensures
            final(self)@ == write_spec(old(self)@, bytes@),
    {
        let n = bytes.len();
        let mut start: usize = 0;
        proof {
            assert(bytes@.subrange(0, n as int) =~= bytes@);
        }
        while n - start >= 8
            invariant
                start <= n,
                n == bytes@.len(),
                write_spec(self@, bytes@.subrange(start as int, n as int)) == write_spec(old(self)@, bytes@),
            decreases n - start,
        {
            let word = Self::read_word(bytes, start, 8);
            proof {
                let rest = bytes@.subrange(start as int, n as int);
                assert(rest.subrange(0, 8) =~= bytes@.subrange(start as int, start + 8));
                assert(rest.subrange(8, rest.len() as int) =~= bytes@.subrange(start + 8, n as int));
            }
            self.add_word(word);
            start += 8;
        }
        let remaining = n - start;
        if remaining > 0 {
            let word = Self::read_word(bytes, start, remaining);
            let tag: u64 = (remaining as u64) << 59;
            proof {
                assert(bytes@.subrange(start as int, (start + remaining) as int) =~= bytes@.subrange(start as int, n as int));
            }
            self.add_word(word ^ tag);
        } else {
            proof {
                assert(bytes@.subrange(start as int, n as int) =~= Seq::<u8>::empty());
            }
        }
    }

    /// Absorbs a byte.
    pub fn write_u8(&mut self, value: u8)
        ensures
            final(self)@ == add_word_spec(old(self)@, value as u64),
    {
        self.add_word(value as u64);
    }

    /// Absorbs a 16-bit value.
    pub fn write_u16(&mut self, value: u16)
        ensures
            final(self)@ == add_word_spec(old(self)@, value as u64),
    {
        self.add_word(value as u64);
    }

    /// Absorbs a 32-bit value.
    pub fn write_u32(&mut self, value: u32)
        ensures
            final(self)@ == add_word_spec(old(self)@, value as u64),
    {
        self.add_word(value as u64);
    }

    /// Absorbs a 64-bit value.
    pub fn write_u64(&mut self, value: u64)
        ensures
            final(self)@ == add_word_spec(old(self)@, value),
    {
        self.add_word(value);
    }

    /// Absorbs a 128-bit value, low half first.
    pub fn write_u128(&mut self, value: u128)
        ensures
            final(self)@ == add_word_spec(add_word_spec(old(self)@, value as u64), (value >> 64u128) as u64),
    {
        self.add_word(value as u64);
        self.add_word((value >> 64) as u64);
    }

    /// Absorbs a `usize`.
    pub fn write_usize(&mut self, value: usize)
        ensures
            final(self)@ == add_word_spec(old(self)@, value as u64),
    {
        self.add_word(value as u64);
    }

    /// The hash: the multiply pushes the best-mixed bits to the top, and
    /// tables index with the low bits, so the good bits are rotated down.
    pub fn finish(&self) -> (hash: u64)
        ensures
            hash == rotl64(self@, 26),
    {
        crate::mixing::rotate_left_u64(self.hash, 26)
    }
}

/// 256 to the power `k`.
pub open spec fn pow256(k: nat) -> nat
    decreases k,
{
    if k == 0 {
        1
    } else {
        256 * pow256((k - 1) as nat)
    }
}

proof fn lemma_pow256_le(a: nat, b: nat)
    requires
        a <= b <= 8,
    ensures
        pow256(a) <= pow256(b),
        pow256(b) <= 0x1_0000_0000_0000_0000,
        a > 0 ==> pow256(a) == 256 * pow256((a - 1) as nat),
    decreases b - a,
{
    reveal_with_fuel(pow256, 9);
    if a < b {
        lemma_pow256_le(a, (b - 1) as nat);
    }
}

/// The hash of one value on its own, fully mixed.
pub open spec fn hash_one_spec<T: Key>(value: T) -> u64 {
    mix64_spec(rotl64(value.fed(0), 26))
}

/// Hashes one value on its own, fully mixed.
pub fn hash_one<T: Key>(value: &T) -> (hash: u64)
    ensures
        hash == hash_one_spec(*value),
{
    let mut hasher = FastHasher::new();
    value.feed(&mut hasher);
    mix64(hasher.finish())
}

/// The wrapping sum of the hashes of the items.
pub open spec fn hash_sum<T: Key>(items: Seq<T>) -> u64
    decreases items.len(),
{
    if items.len() == 0 {
        0
    } else {
        wadd64(hash_sum(items.drop_last()), hash_one_spec(items.last()))
    }
}

/// A hash of a collection that ignores the order of its items: each item
/// is mixed, the mixes are summed, and the count is folded in.
pub fn unordered_hash<T: Key>(items: &Vec<T>) -> (hash: u64)
    ensures
        hash == mix64_spec(hash_sum(items@) ^ wmul64(items@.len() as u64, MULTIPLIER)),
{
    let mut sum: u64 = 0;
    let mut count: u64 = 0;
    let mut i: usize = 0;
    while i < items.len()
        invariant
            i <= items@.len(),
            count == i,
            sum == hash_sum(items@.subrange(0, i as int)),
        decreases items@.len() - i,
    {
        let h = hash_one(&items[i]);
        proof {
            let s = items@.subrange(0, i + 1);
            assert(s.drop_last() =~= items@.subrange(0, i as int));
            assert(sum.wrapping_add(h) == wadd64(sum, h));
        }
        sum = sum.wrapping_add(h);
        count += 1;
        i += 1;
    }
    proof {
        assert(items@.subrange(0, i as int) =~= items@);
        assert(count.wrapping_mul(MULTIPLIER) == wmul64(count, MULTIPLIER));
    }
    mix64(sum ^ count.wrapping_mul(MULTIPLIER))
}

} // verus!
