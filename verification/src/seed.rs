//! Seeds: one 128-bit value from which every random decision of a world is
//! derived by a path that never varies.
//!
//! Every derivation here is a pure function of what went into it. There is
//! no counter and no hidden state, so the same call anywhere in the
//! program, in any order, gives the same answer. Everything is integer
//! arithmetic, so a seed derived on one machine matches the same derivation
//! on another.
use vstd::prelude::*;
use crate::mixing::{mix128, mix128_spec, fold_u128, fold_u128_spec, lemma_mix128_injective};
use crate::text::push_char;
use crate::random::{Random, seeded_state};

verus! {

/// Separates the stream walked by `advance` from the seed's other uses.
pub const STREAM_TAG: u128 = 0x3C6E_F372_FE94_F82B_A54F_F53A_5F1D_36F1;

/// The integer widths `Seed::from_integer` accepts.
///
/// Every width maps to the same bit pattern for the same value, so the type
/// a number arrived in never shows up in the seed. Signed values
/// sign-extend, so `-1` and `u128::MAX` agree; that is the one place two
/// different values meet.
pub trait SeedInteger: Copy {
    /// The 128 bits a value contributes.
    spec fn seed_bits(self) -> u128;

    /// The value as the 128 bits a seed is built from.
    fn to_seed_bits(self) -> (bits: u128)
        ensures
            bits == self.seed_bits();
}

impl SeedInteger for u8 {
    open spec fn seed_bits(self) -> u128 {
        self as u128
    }

    fn to_seed_bits(self) -> u128 {
        self as i128 as u128
    }
}

impl SeedInteger for u16 {
    open spec fn seed_bits(self) -> u128 {
        self as u128
    }

    fn to_seed_bits(self) -> u128 {
        self as i128 as u128
    }
}

impl SeedInteger for u32 {
    open spec fn seed_bits(self) -> u128 {
        self as u128
    }

    fn to_seed_bits(self) -> u128 {
        self as i128 as u128
    }
}

impl SeedInteger for u64 {
    open spec fn seed_bits(self) -> u128 {
        self as u128
    }

    fn to_seed_bits(self) -> u128 {
        self as i128 as u128
    }
}

impl SeedInteger for i8 {
    open spec fn seed_bits(self) -> u128 {
        self as i128 as u128
    }

    fn to_seed_bits(self) -> u128 {
        self as i128 as u128
    }
}

impl SeedInteger for i16 {
    open spec fn seed_bits(self) -> u128 {
        self as i128 as u128
    }

    fn to_seed_bits(self) -> u128 {
        self as i128 as u128
    }
}

impl SeedInteger for i32 {
    open spec fn seed_bits(self) -> u128 {
        self as i128 as u128
    }

    fn to_seed_bits(self) -> u128 {
        self as i128 as u128
    }
}

impl SeedInteger for i64 {
    open spec fn seed_bits(self) -> u128 {
        self as i128 as u128
    }

    fn to_seed_bits(self) -> u128 {
        self as i128 as u128
    }
}

impl SeedInteger for i128 {
    open spec fn seed_bits(self) -> u128 {
        self as u128
    }

    fn to_seed_bits(self) -> u128 {
        self as u128
    }
}

/// Taken whole rather than through `i128`, since it does not fit. A value
/// small enough for both still agrees with the narrower types.
impl SeedInteger for u128 {
    open spec fn seed_bits(self) -> u128 {
        self
    }

    fn to_seed_bits(self) -> u128 {
        self
    }
}

impl SeedInteger for usize {
    open spec fn seed_bits(self) -> u128 {
        self as u128
    }

    fn to_seed_bits(self) -> u128 {
        self as u128
    }
}

impl SeedInteger for isize {
    open spec fn seed_bits(self) -> u128 {
        self as i128 as u128
    }

    fn to_seed_bits(self) -> u128 {
        self as i128 as u128
    }
}

/// The seed after the one with value `v` in a walk.
#[verifier::opaque]
pub open spec fn advance_spec(v: u128) -> u128 {
    mix128_spec(v ^ STREAM_TAG)
}

/// The step of `Seed::advance` is a bijection: distinct seeds never
/// advance to the same seed.
pub proof fn lemma_advance_injective(a: u128, b: u128)
    requires
        advance_spec(a) == advance_spec(b),
    ensures
        a == b,
{
    reveal(advance_spec);
    lemma_mix128_injective(a ^ STREAM_TAG, b ^ STREAM_TAG);
    assert(a == b) by (bit_vector)
        requires
            a ^ 0x3C6E_F372_FE94_F82B_A54F_F53A_5F1D_36F1u128 == b ^ 0x3C6E_F372_FE94_F82B_A54F_F53A_5F1D_36F1u128;
}

/// The seed with value `v` folded to 64 bits.
#[verifier::opaque]
pub open spec fn folded(v: u128) -> u64 {
    fold_u128_spec(v)
}

/// Lemire's rejection threshold for `length`: `2^64 mod length`.
pub open spec fn below_threshold(length: u64) -> u64 {
    ((0x1_0000_0000_0000_0000int - length as int) % (length as int)) as u64
}

/// The draw `below` makes from the seed with value `v`: the high half of
/// the folded value times `length`, taking the next seed of the walk while
/// the low half falls under the threshold, for at most `fuel` steps.
pub open spec fn below_draw(v: u128, length: u64, fuel: nat) -> u64
    decreases fuel,
{
    let product = folded(v) as int * length as int;
    if product % 0x1_0000_0000_0000_0000int >= below_threshold(length) as int || fuel == 0 {
        (product / 0x1_0000_0000_0000_0000int) as u64
    } else {
        below_draw(advance_spec(v), length, (fuel - 1) as nat)
    }
}

/// A world seed, and the root of every seed derived from it.
#[derive(Clone, Copy, PartialEq, Eq, Structural)]
pub struct Seed(u128);

impl View for Seed {
    type V = u128;

    closed spec fn view(&self) -> u128 {
        self.0
    }
}

impl Seed {
    /// The seed whose value is `v`.
    pub closed spec fn with_value(v: u128) -> Seed {
        Seed(v)
    }

    /// The seed made by `with_value` has that value.
    pub proof fn lemma_with_value(v: u128)
        ensures
            Seed::with_value(v)@ == v,
    {
    }

    /// Takes a 128-bit value exactly as given, with no mixing.
    pub fn from_raw(value: u128) -> (seed: Self)
        ensures
            seed@ == value,
    {
        Seed(value)
    }

    /// Spreads any integer over the full width. The value is what matters,
    /// not the type it arrived in.
    pub fn from_integer<I: SeedInteger>(value: I) -> (seed: Self)
        ensures
            seed@ == mix128_spec(value.seed_bits()),
    {
        Seed(mix128(value.to_seed_bits()))
    }

    /// The seed as it is stored.
    pub fn value(self) -> (value: u128)
        ensures
            value == self@,
    {
        self.0
    }

    /// Separates a field from its neighbours by a fixed tag, without mixing.
    pub fn domain(self, tag: u128) -> (seed: Self)
        ensures
            seed@ == self@ ^ tag,
    {
        Seed(self.0 ^ tag)
    }

    /// The next seed in a run, for walking a sequence without holding an
    /// index. The step is a bijection on the 128-bit values
    /// (`lemma_advance_injective`).
    pub fn advance(self) -> (seed: Self)
        ensures
            seed@ == advance_spec(self@),
    {
        proof {
            reveal(advance_spec);
        }
        Seed(mix128(self.0 ^ STREAM_TAG))
    }

    /// Folded to 64 bits.
    pub fn as_u64(self) -> (out: u64)
        ensures
            out == fold_u128_spec(self@),
            out == folded(self@),
    {
        proof {
            reveal(folded);
        }
        fold_u128(self.0)
    }

    /// Folded to 32 bits.
    pub fn as_u32(self) -> (folded: u32)
        ensures
            folded == (fold_u128_spec(self@) ^ (fold_u128_spec(self@) >> 32u64)) as u32,
    {
        let folded: u64 = self.as_u64();
        (folded ^ (folded >> 32)) as u32
    }

    /// Uniform in `0..length`, or `None` when `length` is zero: the high half
    /// of a widening multiply, with Lemire's rejection removing the bias and
    /// the seed advanced for fresh bits on the rare rejection. Still a pure
    /// function of the seed.
    pub fn below(self, length: u64) -> (drawn: Option<u64>)
        ensures
            drawn == (if length == 0 { None::<u64> } else { Some(below_draw(self@, length, u64::MAX as nat)) }),
            drawn matches Some(d) ==> d < length,
    {
        if length == 0 {
            return None;
        }
        let mut source: Seed = self;
        let first = source.as_u64();
        proof {
            lemma_split_product(first, length);
        }
        let mut product: u128 = first as u128 * length as u128;
        let threshold: u64 = 0u64.wrapping_sub(length) % length;
        proof {
            assert(threshold == below_threshold(length)) by {
                assert(0u64.wrapping_sub(length) as int == 0x1_0000_0000_0000_0000int - length as int);
            }
        }
        let mut fuel: u64 = u64::MAX;
        // Only the low half can be short-changed, and only when it falls
        // below the count of leftover values.
        if (product as u64) < length {
            while (product as u64) < threshold && fuel > 0
                invariant
                    length > 0,
                    threshold == below_threshold(length),
                    product == folded(source@) as int * length as int,
                    below_draw(source@, length, fuel as nat) == below_draw(self@, length, u64::MAX as nat),
                    (product as u64) as int == product as int % 0x1_0000_0000_0000_0000int,
                decreases fuel,
            {
                source = source.advance();
                let next = source.as_u64();
                proof {
                    lemma_split_product(next, length);
                }
                product = next as u128 * length as u128;
                fuel -= 1;
            }
        }
        let high = (product >> 64) as u64;
        proof {
            lemma_split_product(folded(source@), length);
            assert(high as int == product as int / 0x1_0000_0000_0000_0000int);
            lemma_high_below(folded(source@), length);
        }
        Some(high)
    }

    /// Picks one element, or `None` when the slice is empty.
    pub fn pick<T>(self, items: &[T]) -> (picked: Option<&T>)
        ensures
            picked == (if items@.len() == 0 {
                None::<&T>
            } else {
                Some(&items@[below_draw(self@, items@.len() as u64, u64::MAX as nat) as int])
            }),
    {
        match self.below(items.len() as u64) {
            Some(index) => Some(&items[index as usize]),
            None => None,
        }
    }
}

/// The low and high halves of a 64-by-64-bit product.
proof fn lemma_split_product(a: u64, b: u64)
    ensures
        a as int * b as int <= u128::MAX,
        ((a as int * b as int) as u128 as u64) as int == (a as int * b as int) % 0x1_0000_0000_0000_0000int,
        (((a as int * b as int) as u128) >> 64u128) as int == (a as int * b as int) / 0x1_0000_0000_0000_0000int,
{
    assert(a as int * b as int <= 0xffff_ffff_ffff_ffff * 0xffff_ffff_ffff_ffff) by (nonlinear_arith);
    let p: u128 = (a as int * b as int) as u128;
    assert(p as u64 == p % 0x1_0000_0000_0000_0000 && p >> 64u128 == p / 0x1_0000_0000_0000_0000) by (bit_vector);
}

/// The high half of `a * length` is below `length`.
proof fn lemma_high_below(a: u64, length: u64)
    requires
        length > 0,
    ensures
        (a as int * length as int) / 0x1_0000_0000_0000_0000int < length,
{
    assert((a as int * length as int) / 0x1_0000_0000_0000_0000int < length) by (nonlinear_arith)
        requires a < 0x1_0000_0000_0000_0000int, length > 0;
}

/// The alphabet codes are written in: Crockford base32, which leaves out
/// `I`, `L`, `O` and `U` so that nothing in a written-down seed can be
/// mistaken for a digit or for another letter.
pub open spec fn code_alphabet() -> Seq<char> {
    seq!['0', '1', '2', '3', '4', '5', '6', '7', '8', '9', 'A', 'B', 'C', 'D', 'E', 'F', 'G', 'H', 'J', 'K', 'M', 'N', 'P', 'Q', 'R', 'S', 'T', 'V', 'W', 'X', 'Y', 'Z']
}

/// The digit a code character stands for: case is ignored, and `I` and
/// `L` read as one and `O` as zero.
pub open spec fn code_digit_spec(c: char) -> Option<u8> {
    match c {
        '0' => Some(0u8),
        '1' => Some(1u8),
        '2' => Some(2u8),
        '3' => Some(3u8),
        '4' => Some(4u8),
        '5' => Some(5u8),
        '6' => Some(6u8),
        '7' => Some(7u8),
        '8' => Some(8u8),
        '9' => Some(9u8),
        'A' | 'a' => Some(10u8),
        'B' | 'b' => Some(11u8),
        'C' | 'c' => Some(12u8),
        'D' | 'd' => Some(13u8),
        'E' | 'e' => Some(14u8),
        'F' | 'f' => Some(15u8),
        'G' | 'g' => Some(16u8),
        'H' | 'h' => Some(17u8),
        'J' | 'j' => Some(18u8),
        'K' | 'k' => Some(19u8),
        'M' | 'm' => Some(20u8),
        'N' | 'n' => Some(21u8),
        'P' | 'p' => Some(22u8),
        'Q' | 'q' => Some(23u8),
        'R' | 'r' => Some(24u8),
        'S' | 's' => Some(25u8),
        'T' | 't' => Some(26u8),
        'V' | 'v' => Some(27u8),
        'W' | 'w' => Some(28u8),
        'X' | 'x' => Some(29u8),
        'Y' | 'y' => Some(30u8),
        'Z' | 'z' => Some(31u8),
        'I' | 'i' | 'L' | 'l' => Some(1u8),
        'O' | 'o' => Some(0u8),
        _ => None,
    }
}

/// Characters a code may carry between its digits.
pub open spec fn is_code_separator(c: char) -> bool {
    c == '-' || c == ' ' || c == '_'
}

/// 32 to the power `k`.
pub open spec fn pow32(k: nat) -> nat
    decreases k,
{
    if k == 0 {
        1
    } else {
        32 * pow32((k - 1) as nat)
    }
}

/// Base-32 digit `k` of `v`, least significant first.
pub open spec fn code_digit_of(v: u128, k: nat) -> u8 {
    ((v as nat / pow32(k)) % 32) as u8
}

/// The code `to_code` writes: 26 digits, most significant first, in groups
/// of six separated by dashes.
pub open spec fn code_text(v: u128) -> Seq<char> {
    Seq::new(30, |i: int| if i % 7 == 6 { '-' } else { code_alphabet()[code_digit_of(v, (25 - (i - i / 7)) as nat) as int] })
}

/// The digits of a code read from its last character to its first,
/// skipping separators; `None` when a character is neither.
pub open spec fn read_code(s: Seq<char>) -> Option<Seq<u8>>
    decreases s.len(),
{
    if s.len() == 0 {
        Some(Seq::empty())
    } else if is_code_separator(s.last()) {
        read_code(s.drop_last())
    } else {
        match code_digit_spec(s.last()) {
            None => None,
            Some(d) => match read_code(s.drop_last()) {
                None => None,
                Some(rest) => Some(seq![d] + rest),
            },
        }
    }
}

/// The number whose base-32 digits, least significant first, are `ds`.
pub open spec fn code_value(ds: Seq<u8>) -> nat
    decreases ds.len(),
{
    if ds.len() == 0 {
        0
    } else {
        ds[0] as nat + 32 * code_value(ds.drop_first())
    }
}

/// The seed a code names: exactly 26 digits, the leading one at most 7.
pub open spec fn code_seed(s: Seq<char>) -> Option<u128> {
    match read_code(s) {
        Some(ds) => if ds.len() == 26 && ds[25] <= 7 { Some(code_value(ds) as u128) } else { None },
        None => None,
    }
}

/// The character for base-32 digit `d`.
fn code_char(d: u8) -> (c: char)
    requires
        d < 32,
    ensures
        c == code_alphabet()[d as int],
{
    match d {
        0 => '0',
        1 => '1',
        2 => '2',
        3 => '3',
        4 => '4',
        5 => '5',
        6 => '6',
        7 => '7',
        8 => '8',
        9 => '9',
        10 => 'A',
        11 => 'B',
        12 => 'C',
        13 => 'D',
        14 => 'E',
        15 => 'F',
        16 => 'G',
        17 => 'H',
        18 => 'J',
        19 => 'K',
        20 => 'M',
        21 => 'N',
        22 => 'P',
        23 => 'Q',
        24 => 'R',
        25 => 'S',
        26 => 'T',
        27 => 'V',
        28 => 'W',
        29 => 'X',
        30 => 'Y',
        31 => 'Z',
        _ => 'Z',
    }
}

/// The digit a code character stands for.
fn code_digit(c: char) -> (d: Option<u8>)
    ensures
        d == code_digit_spec(c),
{
    match c {
        '0' => Some(0u8),
        '1' => Some(1u8),
        '2' => Some(2u8),
        '3' => Some(3u8),
        '4' => Some(4u8),
        '5' => Some(5u8),
        '6' => Some(6u8),
        '7' => Some(7u8),
        '8' => Some(8u8),
        '9' => Some(9u8),
        'A' | 'a' => Some(10u8),
        'B' | 'b' => Some(11u8),
        'C' | 'c' => Some(12u8),
        'D' | 'd' => Some(13u8),
        'E' | 'e' => Some(14u8),
        'F' | 'f' => Some(15u8),
        'G' | 'g' => Some(16u8),
        'H' | 'h' => Some(17u8),
        'J' | 'j' => Some(18u8),
        'K' | 'k' => Some(19u8),
        'M' | 'm' => Some(20u8),
        'N' | 'n' => Some(21u8),
        'P' | 'p' => Some(22u8),
        'Q' | 'q' => Some(23u8),
        'R' | 'r' => Some(24u8),
        'S' | 's' => Some(25u8),
        'T' | 't' => Some(26u8),
        'V' | 'v' => Some(27u8),
        'W' | 'w' => Some(28u8),
        'X' | 'x' => Some(29u8),
        'Y' | 'y' => Some(30u8),
        'Z' | 'z' => Some(31u8),
        'I' | 'i' | 'L' | 'l' => Some(1u8),
        'O' | 'o' => Some(0u8),
        _ => None,
    }
}

impl Seed {
    /// The seed as a code a player can write down and type back in:
    /// Crockford base32 in four groups of six characters and one of two.
    pub fn to_code(self) -> (code: String)
        ensures
            code@ == code_text(self@),
    {
        // Little end first, so the groups read in a fixed order whatever the
        // value's magnitude.
        let mut characters: Vec<char> = Vec::new();
        let mut value: u128 = self.0;
        let mut k: usize = 0;
        proof {
            assert(pow32(0) == 1);
            assert(self@ as nat / 1 == self@ as nat);
        }
        while k < 26
            invariant
                k <= 26,
                characters@.len() == k,
                value as nat == self@ as nat / pow32(k as nat),
                forall|j: int| 0 <= j < k ==> #[trigger] characters@[j] == code_alphabet()[code_digit_of(self@, j as nat) as int],
            decreases 26 - k,
        {
            let d = (value & 0x1F) as u8;
            proof {
                assert(value & 0x1F == value % 32 && value >> 5u32 == value / 32) by (bit_vector);
                lemma_pow32_pos(k as nat);
                vstd::arithmetic::div_mod::lemma_div_denominator(self@ as int, pow32(k as nat) as int, 32);
                vstd::arithmetic::mul::lemma_mul_is_commutative(pow32(k as nat) as int, 32);
            }
            characters.push(code_char(d));
            value >>= 5;
            k += 1;
        }
        // Written most significant first, a dash after every sixth digit.
        let mut code = String::new();
        let mut i: usize = 0;
        while i < 30
            invariant
                i <= 30,
                characters@.len() == 26,
                forall|j: int| 0 <= j < 26 ==> #[trigger] characters@[j] == code_alphabet()[code_digit_of(self@, j as nat) as int],
                code@ == code_text(self@).subrange(0, i as int),
            decreases 30 - i,
        {
            let c = if i % 7 == 6 { '-' } else { characters[25 - (i - i / 7)] };
            push_char(&mut code, c);
            proof {
                assert(code@ =~= code_text(self@).subrange(0, i + 1));
            }
            i += 1;
        }
        proof {
            assert(code_text(self@).subrange(0, 30) =~= code_text(self@));
        }
        code
    }

    /// Reads a code back, or `None` when it is not one. Case is ignored,
    /// dashes, spaces and underscores may be anywhere or absent, and `I` and
    /// `L` read as one and `O` as zero. A code is exactly the 26 digits
    /// `to_code` writes, the leading one at most 7.
    pub fn from_code(code: &str) -> (seed: Option<Self>)
        ensures
            match seed {
                Some(s) => code_seed(code@) == Some(s@),
                None => code_seed(code@) is None,
            },
    {
        let n = code.unicode_len();
        let mut value: u128 = 0;
        let mut place: u128 = 1;
        let mut digits: usize = 0;
        let mut i: usize = n;
        let ghost mut ds: Seq<u8> = Seq::empty();
        proof {
            vstd::arithmetic::power2::lemma2_to64();
            lemma_pow32_values();
            assert(code@.subrange(0, n as int) =~= code@);
        }
        while i > 0
            invariant
                i <= n,
                n == code@.len(),
                digits == ds.len(),
                digits <= 26,
                digits < 26 ==> place == pow32(digits as nat),
                value == code_value(ds),
                value < pow32(digits as nat),
                digits == 26 ==> ds[25] <= 7,
                pow32(25) == 0x2000_0000_0000_0000_0000_0000_0000_0000,
                read_code(code@) == (match read_code(code@.subrange(0, i as int)) {
                    Some(rest) => Some(ds + rest),
                    None => None::<Seq<u8>>,
                }),
            decreases i,
        {
            let c = code.get_char(i - 1);
            let ghost pre = code@.subrange(0, i as int);
            proof {
                assert(pre.drop_last() =~= code@.subrange(0, i - 1));
                assert(pre.last() == c);
            }
            i -= 1;
            if c == '-' || c == ' ' || c == '_' {
                continue;
            }
            let d = match code_digit(c) {
                Some(d) => d,
                None => return None,
            };
            proof {
                lemma_digit_below_32(c);
            }
            // 26 groups of five bits is 130, so the leading digit carries
            // only the three bits that are left and cannot be above 7.
            if digits == 25 && d > 7 {
                proof {
                    lemma_read_code_longer(code@, ds, d, i as int);
                }
                return None;
            }
            if digits == 26 {
                proof {
                    lemma_read_code_longer(code@, ds, d, i as int);
                }
                return None;
            }
            proof {
                lemma_code_value_push(ds, d);
                lemma_pow32_pos(digits as nat);
                if digits < 25 {
                    lemma_pow32_le((digits + 1) as nat, 25);
                }
                assert(value + d * place < pow32((digits + 1) as nat)) by (nonlinear_arith)
                    requires
                        value < place,
                        d < 32,
                        pow32((digits + 1) as nat) == 32 * place;
                if digits == 25 {
                    assert(value + d * place <= 0xffff_ffff_ffff_ffff_ffff_ffff_ffff_ffff) by (nonlinear_arith)
                        requires
                            value < place,
                            d <= 7,
                            place == 0x2000_0000_0000_0000_0000_0000_0000_0000;
                }
            }
            value = value + d as u128 * place;
            proof {
                match read_code(code@.subrange(0, i as int)) {
                    Some(rest) => {
                        assert(ds + (seq![d] + rest) =~= ds.push(d) + rest);
                    },
                    None => {},
                }
                ds = ds.push(d);
            }
            if digits < 25 {
                place = place * 32;
            }
            digits += 1;
        }
        proof {
            assert(code@.subrange(0, 0) =~= Seq::<char>::empty());
            assert(ds + Seq::<u8>::empty() =~= ds);
        }
        if digits != 26 {
            return None;
        }
        Some(Seed(value))
    }
}

proof fn lemma_pow32_pos(k: nat)
    ensures
        pow32(k) > 0,
        pow32(k + 1) == 32 * pow32(k),
    decreases k,
{
    if k > 0 {
        lemma_pow32_pos((k - 1) as nat);
    }
}

proof fn lemma_pow32_le(a: nat, b: nat)
    requires
        a <= b,
    ensures
        pow32(a) <= pow32(b),
    decreases b - a,
{
    if a < b {
        lemma_pow32_le(a, (b - 1) as nat);
        lemma_pow32_pos((b - 1) as nat);
    }
}

proof fn lemma_pow32_values()
    ensures
        pow32(25) == 0x2000_0000_0000_0000_0000_0000_0000_0000,
        pow32(26) == 0x4_0000_0000_0000_0000_0000_0000_0000_0000,
{
    reveal_with_fuel(pow32, 27);
}

proof fn lemma_digit_below_32(c: char)
    ensures
        code_digit_spec(c) matches Some(d) ==> d < 32,
{
}

/// Appending a more significant digit adds it at its place value.
proof fn lemma_code_value_push(ds: Seq<u8>, d: u8)
    ensures
        code_value(ds.push(d)) == code_value(ds) + d * pow32(ds.len()),
    decreases ds.len(),
{
    let e = ds.push(d);
    assert(e[0] == if ds.len() == 0 { d } else { ds[0] });
    assert(code_value(e) == e[0] as nat + 32 * code_value(e.drop_first()));
    if ds.len() == 0 {
        assert(e.drop_first() =~= Seq::<u8>::empty());
        assert(code_value(e.drop_first()) == 0);
        assert(pow32(0) == 1);
        assert(d * pow32(0) == d) by (nonlinear_arith) requires pow32(0) == 1;
    } else {
        assert(e.drop_first() =~= ds.drop_first().push(d));
        lemma_code_value_push(ds.drop_first(), d);
        lemma_pow32_pos((ds.len() - 1) as nat);
        assert(32 * (d * pow32((ds.len() - 1) as nat)) == d * pow32(ds.len())) by (nonlinear_arith)
            requires pow32(ds.len()) == 32 * pow32((ds.len() - 1) as nat);
        assert(code_value(ds) == ds[0] as nat + 32 * code_value(ds.drop_first()));
    }
}

/// Once a digit more is read, the whole code has at least that many digits,
/// and the same ones so far.
proof fn lemma_read_code_longer(s: Seq<char>, ds: Seq<u8>, d: u8, i: int)
    requires
        0 <= i < s.len(),
        !is_code_separator(s[i]),
        code_digit_spec(s[i]) == Some(d),
        read_code(s) == (match read_code(s.subrange(0, i + 1)) {
            Some(rest) => Some(ds + rest),
            None => None::<Seq<u8>>,
        }),
        ds.len() >= 25,
        ds.len() == 25 ==> d > 7,
    ensures
        code_seed(s) is None,
{
    let pre = s.subrange(0, i + 1);
    assert(pre.drop_last() =~= s.subrange(0, i));
    assert(pre.last() == s[i]);
    match read_code(s.subrange(0, i)) {
        Some(rest) => {
            let all = ds + (seq![d] + rest);
            assert(read_code(s) == Some(all));
            assert(all[ds.len() as int] == d);
        },
        None => {},
    }
}

/// A code character for digit `d` is read back as `d`.
proof fn lemma_code_char_digit(d: u8)
    requires
        d < 32,
    ensures
        code_digit_spec(code_alphabet()[d as int]) == Some(d),
        !is_code_separator(code_alphabet()[d as int]),
{
    assert(code_alphabet().len() == 32);
    assert(code_digit_spec(code_alphabet()[d as int]) == Some(d)) by {
        if d < 16 {
            if d < 8 {
                if d < 4 { if d < 2 { if d == 0 {} else {} } else { if d == 2 {} else {} } }
                else { if d < 6 { if d == 4 {} else {} } else { if d == 6 {} else {} } }
            } else {
                if d < 12 { if d < 10 { if d == 8 {} else {} } else { if d == 10 {} else {} } }
                else { if d < 14 { if d == 12 {} else {} } else { if d == 14 {} else {} } }
            }
        } else {
            if d < 24 {
                if d < 20 { if d < 18 { if d == 16 {} else {} } else { if d == 18 {} else {} } }
                else { if d < 22 { if d == 20 {} else {} } else { if d == 22 {} else {} } }
            } else {
                if d < 28 { if d < 26 { if d == 24 {} else {} } else { if d == 26 {} else {} } }
                else { if d < 30 { if d == 28 {} else {} } else { if d == 30 {} else {} } }
            }
        }
    }
}

/// Reading the first `i` characters of `code_text(v)` gives the digits
/// they hold, least significant first.
proof fn lemma_read_code_text_prefix(v: u128, i: int)
    requires
        0 <= i <= 30,
    ensures
        read_code(code_text(v).subrange(0, i)) == Some(Seq::new((i - i / 7) as nat, |j: int| code_digit_of(v, (26 - (i - i / 7) + j) as nat))),
    decreases i,
{
    let t = code_text(v);
    if i == 0 {
        assert(t.subrange(0, 0) =~= Seq::<char>::empty());
        assert(Seq::new(0, |j: int| code_digit_of(v, (26 + j) as nat)) =~= Seq::<u8>::empty());
    } else {
        let k = i - 1;
        lemma_read_code_text_prefix(v, k);
        let pre = t.subrange(0, i);
        assert(pre.drop_last() =~= t.subrange(0, k));
        assert(pre.last() == t[k]);
        let c = k - k / 7;
        if k % 7 == 6 {
            assert(i / 7 == k / 7 + 1);
            assert(Seq::new((i - i / 7) as nat, |j: int| code_digit_of(v, (26 - (i - i / 7) + j) as nat))
                =~= Seq::new((k - k / 7) as nat, |j: int| code_digit_of(v, (26 - (k - k / 7) + j) as nat)));
        } else {
            assert(i / 7 == k / 7);
            let d = code_digit_of(v, (25 - c) as nat);
            assert(d < 32);
            lemma_code_char_digit(d);
            assert(t[k] == code_alphabet()[d as int]);
            assert(seq![d] + Seq::new(c as nat, |j: int| code_digit_of(v, (26 - c + j) as nat))
                =~= Seq::new((c + 1) as nat, |j: int| code_digit_of(v, (26 - (c + 1) + j) as nat)));
        }
    }
}

/// The first `k` base-32 digits of `v` spell `v` modulo 32^k.
proof fn lemma_code_value_digits(v: u128, k: nat)
    ensures
        code_value(Seq::new(k, |j: int| code_digit_of(v, j as nat))) == v as nat % pow32(k),
    decreases k,
{
    let s = Seq::new(k, |j: int| code_digit_of(v, j as nat));
    lemma_pow32_pos(k);
    if k == 0 {
        assert(v as nat % 1 == 0);
    } else {
        let w = v / 32;
        let rest = Seq::new((k - 1) as nat, |j: int| code_digit_of(w, j as nat));
        assert forall|j: int| 0 <= j < k - 1 implies #[trigger] s.drop_first()[j] == rest[j] by {
            lemma_pow32_pos(j as nat);
            vstd::arithmetic::div_mod::lemma_div_denominator(v as int, 32, pow32(j as nat) as int);
        }
        assert(s.drop_first() =~= rest);
        lemma_code_value_digits(w, (k - 1) as nat);
        lemma_pow32_pos((k - 1) as nat);
        vstd::arithmetic::div_mod::lemma_mod_breakdown(v as int, 32, pow32((k - 1) as nat) as int);
        assert(s[0] as nat == v as nat % 32) by {
            assert(pow32(0) == 1);
        }
    }
}

/// Reading back what `to_code` writes gives the same seed.
pub proof fn lemma_code_roundtrip(v: u128)
    ensures
        code_seed(code_text(v)) == Some(v),
{
    lemma_read_code_text_prefix(v, 30);
    assert(code_text(v).subrange(0, 30) =~= code_text(v));
    let ds = Seq::new(26, |j: int| code_digit_of(v, j as nat));
    assert(Seq::new((30int - 30int / 7) as nat, |j: int| code_digit_of(v, (26 - (30int - 30int / 7) + j) as nat)) =~= ds);
    lemma_code_value_digits(v, 26);
    lemma_pow32_values();
    vstd::arithmetic::div_mod::lemma_small_mod(v as nat, pow32(26));
    assert(ds[25] <= 7) by {
        assert(v as nat / pow32(25) < 8) by (nonlinear_arith)
            requires v as nat <= 0xffff_ffff_ffff_ffff_ffff_ffff_ffff_ffff, pow32(25) == 0x2000_0000_0000_0000_0000_0000_0000_0000;
        vstd::arithmetic::div_mod::lemma_small_mod((v as nat / pow32(25)) as nat, 32);
    }
}



/// The lowercase form of an ASCII capital letter; any other character is
/// kept.
pub open spec fn ascii_lower(c: char) -> char {
    if 'A' <= c && c <= 'Z' { ((c as u32) + 32) as char } else { c }
}

/// `s` with its ASCII capitals lowercased.
pub open spec fn lowercased(s: Seq<char>) -> Seq<char> {
    s.map_values(|c: char| ascii_lower(c))
}

proof fn lemma_lower_char(c: char)
    ensures
        code_digit_spec(ascii_lower(c)) == code_digit_spec(c),
        is_code_separator(ascii_lower(c)) == is_code_separator(c),
{
}

proof fn lemma_read_code_lower(s: Seq<char>)
    ensures
        read_code(lowercased(s)) == read_code(s),
    decreases s.len(),
{
    if s.len() > 0 {
        assert(lowercased(s).drop_last() =~= lowercased(s.drop_last()));
        lemma_lower_char(s.last());
        lemma_read_code_lower(s.drop_last());
    }
}

/// Case is ignored: a code with its letters lowercased names the same
/// seed, or is refused alike.
pub proof fn lemma_code_lowercase(s: Seq<char>)
    ensures
        code_seed(lowercased(s)) == code_seed(s),
{
    lemma_read_code_lower(s);
}

/// What `to_code` writes reads back as the same seed in lowercase too.
pub proof fn lemma_code_roundtrip_lowercase(v: u128)
    ensures
        code_seed(lowercased(code_text(v))) == Some(v),
{
    lemma_code_lowercase(code_text(v));
    lemma_code_roundtrip(v);
}
impl Seed {
    /// A generator started from this seed.
    pub fn to_random(self) -> (random: Random)
        ensures
            random.seed_spec() == self@,
            random.state() == seeded_state(self@),
    {
        Random::new(self.0)
    }
}

/// The seed as it is stored.
impl From<Seed> for u128 {
    fn from(seed: Seed) -> (value: u128) {
        seed.0
    }
}

impl vstd::std_specs::convert::FromSpecImpl<Seed> for u128 {
    open spec fn obeys_from_spec() -> bool {
        true
    }

    open spec fn from_spec(seed: Seed) -> u128 {
        seed@
    }
}


/// Seeds by value, through `Seed::from_integer`.
impl From<u8> for Seed {
    fn from(value: u8) -> (seed: Seed) {
        Seed::from_integer(value)
    }
}

impl vstd::std_specs::convert::FromSpecImpl<u8> for Seed {
    open spec fn obeys_from_spec() -> bool {
        true
    }

    open spec fn from_spec(value: u8) -> Seed {
        Seed::with_value(mix128_spec(value.seed_bits()))
    }
}

/// Seeds by value, through `Seed::from_integer`.
impl From<u16> for Seed {
    fn from(value: u16) -> (seed: Seed) {
        Seed::from_integer(value)
    }
}

impl vstd::std_specs::convert::FromSpecImpl<u16> for Seed {
    open spec fn obeys_from_spec() -> bool {
        true
    }

    open spec fn from_spec(value: u16) -> Seed {
        Seed::with_value(mix128_spec(value.seed_bits()))
    }
}

/// Seeds by value, through `Seed::from_integer`.
impl From<u32> for Seed {
    fn from(value: u32) -> (seed: Seed) {
        Seed::from_integer(value)
    }
}

impl vstd::std_specs::convert::FromSpecImpl<u32> for Seed {
    open spec fn obeys_from_spec() -> bool {
        true
    }

    open spec fn from_spec(value: u32) -> Seed {
        Seed::with_value(mix128_spec(value.seed_bits()))
    }
}

/// Seeds by value, through `Seed::from_integer`.
impl From<u64> for Seed {
    fn from(value: u64) -> (seed: Seed) {
        Seed::from_integer(value)
    }
}

impl vstd::std_specs::convert::FromSpecImpl<u64> for Seed {
    open spec fn obeys_from_spec() -> bool {
        true
    }

    open spec fn from_spec(value: u64) -> Seed {
        Seed::with_value(mix128_spec(value.seed_bits()))
    }
}

/// Seeds by value, through `Seed::from_integer`.
impl From<u128> for Seed {
    fn from(value: u128) -> (seed: Seed) {
        Seed::from_integer(value)
    }
}

impl vstd::std_specs::convert::FromSpecImpl<u128> for Seed {
    open spec fn obeys_from_spec() -> bool {
        true
    }

    open spec fn from_spec(value: u128) -> Seed {
        Seed::with_value(mix128_spec(value.seed_bits()))
    }
}

/// Seeds by value, through `Seed::from_integer`.
impl From<i8> for Seed {
    fn from(value: i8) -> (seed: Seed) {
        Seed::from_integer(value)
    }
}

impl vstd::std_specs::convert::FromSpecImpl<i8> for Seed {
    open spec fn obeys_from_spec() -> bool {
        true
    }

    open spec fn from_spec(value: i8) -> Seed {
        Seed::with_value(mix128_spec(value.seed_bits()))
    }
}

/// Seeds by value, through `Seed::from_integer`.
impl From<i16> for Seed {
    fn from(value: i16) -> (seed: Seed) {
        Seed::from_integer(value)
    }
}

impl vstd::std_specs::convert::FromSpecImpl<i16> for Seed {
    open spec fn obeys_from_spec() -> bool {
        true
    }

    open spec fn from_spec(value: i16) -> Seed {
        Seed::with_value(mix128_spec(value.seed_bits()))
    }
}

/// Seeds by value, through `Seed::from_integer`.
impl From<i32> for Seed {
    fn from(value: i32) -> (seed: Seed) {
        Seed::from_integer(value)
    }
}

impl vstd::std_specs::convert::FromSpecImpl<i32> for Seed {
    open spec fn obeys_from_spec() -> bool {
        true
    }

    open spec fn from_spec(value: i32) -> Seed {
        Seed::with_value(mix128_spec(value.seed_bits()))
    }
}

/// Seeds by value, through `Seed::from_integer`.
impl From<i64> for Seed {
    fn from(value: i64) -> (seed: Seed) {
        Seed::from_integer(value)
    }
}

impl vstd::std_specs::convert::FromSpecImpl<i64> for Seed {
    open spec fn obeys_from_spec() -> bool {
        true
    }

    open spec fn from_spec(value: i64) -> Seed {
        Seed::with_value(mix128_spec(value.seed_bits()))
    }
}

/// Seeds by value, through `Seed::from_integer`.
impl From<i128> for Seed {
    fn from(value: i128) -> (seed: Seed) {
        Seed::from_integer(value)
    }
}

impl vstd::std_specs::convert::FromSpecImpl<i128> for Seed {
    open spec fn obeys_from_spec() -> bool {
        true
    }

    open spec fn from_spec(value: i128) -> Seed {
        Seed::with_value(mix128_spec(value.seed_bits()))
    }
}

/// Seeds as the byte `0` or `1`.
impl From<bool> for Seed {
    fn from(value: bool) -> (seed: Seed) {
        let byte: u8 = if value { 1 } else { 0 };
        Seed::from_integer(byte)
    }
}

impl vstd::std_specs::convert::FromSpecImpl<bool> for Seed {
    open spec fn obeys_from_spec() -> bool {
        true
    }

    open spec fn from_spec(value: bool) -> Seed {
        Seed::with_value(mix128_spec((if value { 1u8 } else { 0u8 }).seed_bits()))
    }
}

/// Seeds by the character's code point.
impl From<char> for Seed {
    fn from(value: char) -> (seed: Seed) {
        let code: u32 = value as u32;
        Seed::from_integer(code)
    }
}

impl vstd::std_specs::convert::FromSpecImpl<char> for Seed {
    open spec fn obeys_from_spec() -> bool {
        true
    }

    open spec fn from_spec(value: char) -> Seed {
        Seed::with_value(mix128_spec((value as u32).seed_bits()))
    }
}

/// A generator started from the seed.
impl From<Seed> for Random {
    fn from(seed: Seed) -> (random: Random)
        ensures
            random.seed_spec() == seed@,
            random.state() == seeded_state(seed@),
    {
        seed.to_random()
    }
}

/// The generator's state is stated by `from` itself, over `seed_spec` and
/// `state`; a generator value cannot be written in a specification.
impl vstd::std_specs::convert::FromSpecImpl<Seed> for Random {
    open spec fn obeys_from_spec() -> bool {
        false
    }

    open spec fn from_spec(seed: Seed) -> Random {
        vstd::pervasive::arbitrary()
    }
}

} // verus!
