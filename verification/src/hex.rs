//! Writing a 128-bit value as 32 hexadecimal digits, and reading such text
//! back the way `u128::from_str_radix` reads it after trimming.
use vstd::prelude::*;
use crate::seed::Seed;
use crate::text::push_char;

verus! {

/// `16` to the power `k`.
pub open spec fn pow16(k: nat) -> nat
    decreases k,
{
    if k == 0 { 1 } else { 16 * pow16((k - 1) as nat) }
}

/// The lowercase digit for `d`.
pub open spec fn hex_char(d: nat) -> char {
    if d < 10 { ('0' as nat + d) as char } else { ('a' as nat + d - 10) as char }
}

/// Digit `k` of `v`, counting from the least significant.
pub open spec fn hex_digit(v: u128, k: nat) -> nat {
    (v as nat / pow16(k)) % 16
}

/// `v` as 32 lowercase hexadecimal digits, most significant first.
pub open spec fn hex_text(v: u128) -> Seq<char> {
    Seq::new(32, |i: int| hex_char(hex_digit(v, (31 - i) as nat)))
}

/// The value of a hexadecimal digit of either case.
pub open spec fn hex_value(c: char) -> Option<nat> {
    if '0' <= c && c <= '9' {
        Some((c as nat - '0' as nat) as nat)
    } else if 'a' <= c && c <= 'f' {
        Some((c as nat - 'a' as nat + 10) as nat)
    } else if 'A' <= c && c <= 'F' {
        Some((c as nat - 'A' as nat + 10) as nat)
    } else {
        None
    }
}

/// Whether `c` is white space in the Unicode sense that `str::trim` uses.
pub open spec fn is_space(c: char) -> bool {
    ('\u{9}' <= c && c <= '\u{d}') || c == ' ' || c == '\u{85}' || c == '\u{a0}' || c == '\u{1680}'
        || ('\u{2000}' <= c && c <= '\u{200a}') || c == '\u{2028}' || c == '\u{2029}' || c == '\u{202f}'
        || c == '\u{205f}' || c == '\u{3000}'
}

/// `s` without leading white space.
pub open spec fn trim_start(s: Seq<char>) -> Seq<char>
    decreases s.len(),
{
    if s.len() > 0 && is_space(s[0]) { trim_start(s.drop_first()) } else { s }
}

/// `s` without trailing white space.
pub open spec fn trim_end(s: Seq<char>) -> Seq<char>
    decreases s.len(),
{
    if s.len() > 0 && is_space(s.last()) { trim_end(s.drop_last()) } else { s }
}

/// `s` without every leading repetition of the two characters `a`, `b`.
pub open spec fn strip_pairs(s: Seq<char>, a: char, b: char) -> Seq<char>
    decreases s.len(),
{
    if s.len() >= 2 && s[0] == a && s[1] == b { strip_pairs(s.subrange(2, s.len() as int), a, b) } else { s }
}

/// `s` without its underscores.
pub open spec fn without_underscores(s: Seq<char>) -> Seq<char> {
    s.filter(|c: char| c != '_')
}

/// The text `from_hex` parses: trimmed, without leading `0x` and `0X`
/// runs, and without underscores.
pub open spec fn hex_cleaned(s: Seq<char>) -> Seq<char> {
    without_underscores(strip_pairs(strip_pairs(trim_end(trim_start(s)), '0', 'x'), '0', 'X'))
}

/// The value of a run of hexadecimal digits, most significant first, or
/// `None` when one is not a digit.
pub open spec fn digits_value(s: Seq<char>) -> Option<nat>
    decreases s.len(),
{
    if s.len() == 0 {
        Some(0)
    } else {
        match (digits_value(s.drop_last()), hex_value(s.last())) {
            (Some(high), Some(d)) => Some(high * 16 + d),
            _ => None,
        }
    }
}

/// What `u128::from_str_radix(s, 16)` gives: an optional `+`, then at
/// least one digit, with a value that fits.
pub open spec fn radix16(s: Seq<char>) -> Option<u128> {
    let digits = if s.len() > 0 && s[0] == '+' { s.drop_first() } else { s };
    if digits.len() == 0 {
        None
    } else {
        match digits_value(digits) {
            Some(v) => if v <= u128::MAX { Some(v as u128) } else { None },
            None => None,
        }
    }
}

/// The value `from_hex` reads from `s`.
pub open spec fn hex_parse(s: Seq<char>) -> Option<u128> {
    radix16(hex_cleaned(s))
}

proof fn lemma_pow16_pos(k: nat)
    ensures
        pow16(k) > 0,
    decreases k,
{
    if k > 0 {
        lemma_pow16_pos((k - 1) as nat);
    }
}

/// Reading the digits of `v` from the most significant down to digit
/// `32 - n` gives `v` divided by `16^(32 - n)`.
proof fn lemma_prefix_value(v: u128, n: nat)
    requires
        n <= 32,
    ensures
        digits_value(hex_text(v).subrange(0, n as int)) == Some(v as nat / pow16((32 - n) as nat)),
    decreases n,
{
    let t = hex_text(v);
    let k = (32 - n) as nat;
    lemma_pow16_pos(k);
    if n == 0 {
        assert(t.subrange(0, 0) =~= Seq::<char>::empty());
        assert(pow16(32) == 0x1_0000_0000_0000_0000_0000_0000_0000_0000) by {
            reveal_with_fuel(pow16, 33);
        }
        assert(v as nat / pow16(32) == 0);
    } else {
        lemma_prefix_value(v, (n - 1) as nat);
        let s = t.subrange(0, n as int);
        assert(s.drop_last() =~= t.subrange(0, n - 1));
        let d = hex_digit(v, k);
        assert(s.last() == hex_char(d));
        assert(d < 16);
        assert(hex_value(hex_char(d)) == Some(d));
        lemma_pow16_pos((k + 1) as nat);
        assert(pow16(k + 1) == 16 * pow16(k));
        vstd::arithmetic::div_mod::lemma_div_denominator(v as int, pow16(k) as int, 16);
        vstd::arithmetic::mul::lemma_mul_is_commutative(pow16(k) as int, 16);
        let q = v as nat / pow16(k);
        vstd::arithmetic::div_mod::lemma_fundamental_div_mod(q as int, 16);
    }
}

/// Reading back the digits `hex_text` writes gives the value.
pub proof fn lemma_hex_roundtrip(v: u128)
    ensures
        hex_parse(hex_text(v)) == Some(v),
{
    let t = hex_text(v);
    assert(hex_char(hex_digit(v, 31)) != ' ');
    assert(t[0] == hex_char(hex_digit(v, 31)));
    assert forall|i: int| 0 <= i < 32 implies !is_space(#[trigger] t[i]) && t[i] != '_' && t[i] != 'x' && t[i] != 'X' && t[i] != '+' by {
        let d = hex_digit(v, (31 - i) as nat);
        assert(d < 16);
    }
    assert(trim_start(t) == t);
    assert(trim_end(t) == t);
    assert(strip_pairs(t, '0', 'x') == t);
    assert(strip_pairs(t, '0', 'X') == t);
    lemma_filter_keeps(t);
    lemma_prefix_value(v, 32);
    assert(t.subrange(0, 32) =~= t);
    assert(hex_cleaned(t) == t);
    assert(pow16(0) == 1);
    assert(v as nat / 1 == v as nat);
    assert(digits_value(t) == Some(v as nat));
    assert(t[0] != '+');
    assert(t.len() == 32);
    assert(radix16(t) == Some(v));
}

/// Two readings `from_hex` promises: a `0x` prefix and underscores are
/// skipped, and a letter past `f` is refused.
pub proof fn lemma_hex_examples()
    ensures
        hex_parse(seq!['0', 'x', '0', '0', '_', 'f', 'f']) == Some(255u128),
        hex_parse(seq!['x', 'y', 'z']) is None,
{
    let a = seq!['0', 'x', '0', '0', '_', 'f', 'f'];
    assert(trim_start(a) == a);
    assert(trim_end(a) == a);
    let b = seq!['0', '0', '_', 'f', 'f'];
    assert(a.subrange(2, 7) =~= b);
    assert(strip_pairs(b, '0', 'x') == b);
    assert(strip_pairs(a, '0', 'x') == b);
    assert(strip_pairs(b, '0', 'X') == b);
    let keep = |c: char| c != '_';
    let e = Seq::<char>::empty();
    assert(e.filter(keep) =~= e) by {
        reveal(Seq::filter);
    }
    e.lemma_filter_push('0', keep);
    assert(e.push('0').push('0') =~= seq!['0', '0']);
    e.push('0').lemma_filter_push('0', keep);
    e.push('0').push('0').lemma_filter_push('_', keep);
    e.push('0').push('0').push('_').lemma_filter_push('f', keep);
    e.push('0').push('0').push('_').push('f').lemma_filter_push('f', keep);
    assert(e.push('0').push('0').push('_').push('f').push('f') =~= b);
    let c = seq!['0', '0', 'f', 'f'];
    assert(without_underscores(b) =~= c);
    assert(hex_cleaned(a) == c);
    assert(c.drop_last() =~= seq!['0', '0', 'f']);
    assert(c.drop_last().drop_last() =~= seq!['0', '0']);
    assert(c.drop_last().drop_last().drop_last() =~= seq!['0']);
    assert(c.drop_last().drop_last().drop_last().drop_last() =~= Seq::<char>::empty());
    assert(digits_value(Seq::<char>::empty()) == Some(0nat));
    assert(digits_value(seq!['0']) == Some(0nat));
    assert(digits_value(seq!['0', '0']) == Some(0nat));
    assert(digits_value(seq!['0', '0', 'f']) == Some(15nat));
    assert(digits_value(c) == Some(255nat));
    assert(radix16(c) == Some(255u128));

    let x = seq!['x', 'y', 'z'];
    assert(trim_start(x) == x);
    assert(trim_end(x) == x);
    assert(strip_pairs(x, '0', 'x') == x);
    assert(strip_pairs(x, '0', 'X') == x);
    e.lemma_filter_push('x', keep);
    e.push('x').lemma_filter_push('y', keep);
    e.push('x').push('y').lemma_filter_push('z', keep);
    assert(e.push('x').push('y').push('z') =~= x);
    assert(without_underscores(x) =~= x);
    assert(hex_value('z') is None);
    assert(digits_value(x) is None);
}

/// Filtering out underscores keeps a text with none.
proof fn lemma_filter_keeps(t: Seq<char>)
    requires
        forall|i: int| 0 <= i < t.len() ==> #[trigger] t[i] != '_',
    ensures
        without_underscores(t) == t,
    decreases t.len(),
{
    reveal(Seq::filter);
    if t.len() > 0 {
        lemma_filter_keeps(t.drop_last());
        assert(t[t.len() - 1] != '_');
        assert(t.drop_last().push(t.last()) =~= t);
    }
}

/// The lowercase digit for `d`.
fn digit_char(d: u8) -> (c: char)
    requires
        d < 16,
    ensures
        c == hex_char(d as nat),
{
    if d < 10 {
        ('0' as u8 + d) as char
    } else {
        ('a' as u8 + d - 10) as char
    }
}

/// The value of a hexadecimal digit of either case.
fn digit_value(c: char) -> (d: Option<u8>)
    ensures
        match d {
            Some(d) => hex_value(c) == Some(d as nat) && d < 16,
            None => hex_value(c) is None,
        },
{
    if '0' <= c && c <= '9' {
        Some((c as u32 - '0' as u32) as u8)
    } else if 'a' <= c && c <= 'f' {
        Some((c as u32 - 'a' as u32 + 10) as u8)
    } else if 'A' <= c && c <= 'F' {
        Some((c as u32 - 'A' as u32 + 10) as u8)
    } else {
        None
    }
}

/// Whether `c` is white space as `str::trim` counts it.
fn space(c: char) -> (b: bool)
    ensures
        b == is_space(c),
{
    ('\u{9}' <= c && c <= '\u{d}') || c == ' ' || c == '\u{85}' || c == '\u{a0}' || c == '\u{1680}'
        || ('\u{2000}' <= c && c <= '\u{200a}') || c == '\u{2028}' || c == '\u{2029}' || c == '\u{202f}'
        || c == '\u{205f}' || c == '\u{3000}'
}

impl Seed {
    /// The seed as 32 lowercase hexadecimal digits, for logs and save files.
    pub fn to_hex(self) -> (text: String)
        ensures
            text@ == hex_text(self@),
    {
        let mut digits: Vec<char> = Vec::new();
        let mut value: u128 = self.value();
        let mut k: usize = 0;
        proof {
            assert(self@ as nat / 1 == self@ as nat);
        }
        while k < 32
            invariant
                k <= 32,
                digits@.len() == k,
                value as nat == self@ as nat / pow16(k as nat),
                forall|j: int| 0 <= j < k ==> #[trigger] digits@[j] == hex_char(hex_digit(self@, j as nat)),
            decreases 32 - k,
        {
            let d = (value & 0xF) as u8;
            proof {
                assert(value & 0xF == value % 16 && value >> 4u32 == value / 16) by (bit_vector);
                lemma_pow16_pos(k as nat);
                assert(pow16((k + 1) as nat) == 16 * pow16(k as nat));
                vstd::arithmetic::div_mod::lemma_div_denominator(self@ as int, pow16(k as nat) as int, 16);
                vstd::arithmetic::mul::lemma_mul_is_commutative(pow16(k as nat) as int, 16);
            }
            digits.push(digit_char(d));
            value = value >> 4u32;
            k += 1;
        }
        let mut text = String::new();
        let mut i: usize = 0;
        while i < 32
            invariant
                i <= 32,
                digits@.len() == 32,
                forall|j: int| 0 <= j < 32 ==> #[trigger] digits@[j] == hex_char(hex_digit(self@, j as nat)),
                text@ == hex_text(self@).subrange(0, i as int),
            decreases 32 - i,
        {
            push_char(&mut text, digits[31 - i]);
            proof {
                assert(text@ =~= hex_text(self@).subrange(0, i + 1));
            }
            i += 1;
        }
        proof {
            assert(hex_text(self@).subrange(0, 32) =~= hex_text(self@));
        }
        text
    }

    /// Reads back what `to_hex` writes, or `None` when the text is no such
    /// value: surrounding white space, leading `0x` (or `0X`) and
    /// underscores anywhere are allowed, then an optional `+` and one to
    /// any number of digits of either case whose value fits 128 bits.
    pub fn from_hex(text: &str) -> (seed: Option<Seed>)
        ensures
            match seed {
                Some(s) => hex_parse(text@) == Some(s@),
                None => hex_parse(text@) is None,
            },
    {
        let n = text.unicode_len();
        let ghost s = text@;
        let mut chars: Vec<char> = Vec::new();
        let mut i: usize = 0;
        while i < n
            invariant
                n == s.len(),
                s == text@,
                i <= n,
                chars@ == s.subrange(0, i as int),
            decreases n - i,
        {
            chars.push(text.get_char(i));
            proof {
                assert(chars@ =~= s.subrange(0, i + 1));
            }
            i += 1;
        }
        proof {
            assert(chars@ =~= s);
        }
        // Leading white space.
        let mut a: usize = 0;
        while a < n && space(chars[a])
            invariant
                a <= n,
                n == s.len(),
                chars@ == s,
                trim_start(s) == trim_start(s.subrange(a as int, n as int)),
            decreases n - a,
        {
            proof {
                let sub = s.subrange(a as int, n as int);
                assert(sub.drop_first() =~= s.subrange(a + 1, n as int));
                assert(sub[0] == s[a as int]);
            }
            a += 1;
        }
        proof {
            let sub = s.subrange(a as int, n as int);
            if a < n {
                assert(sub[0] == s[a as int]);
            }
            assert(trim_start(s) == sub);
        }
        // Trailing white space.
        let mut b: usize = n;
        while b > a && space(chars[b - 1])
            invariant
                a <= b <= n,
                n == s.len(),
                chars@ == s,
                trim_end(s.subrange(a as int, n as int)) == trim_end(s.subrange(a as int, b as int)),
            decreases b,
        {
            proof {
                let sub = s.subrange(a as int, b as int);
                assert(sub.drop_last() =~= s.subrange(a as int, b - 1));
                assert(sub.last() == s[b - 1]);
            }
            b -= 1;
        }
        proof {
            let sub = s.subrange(a as int, b as int);
            if a < b {
                assert(sub.last() == s[b - 1]);
            }
            assert(trim_end(trim_start(s)) == sub);
        }
        // Leading `0x` runs, then leading `0X` runs.
        let mut c: usize = a;
        while b - c >= 2 && chars[c] == '0' && chars[c + 1] == 'x'
            invariant
                a <= c <= b <= n,
                n == s.len(),
                chars@ == s,
                strip_pairs(s.subrange(a as int, b as int), '0', 'x') == strip_pairs(s.subrange(c as int, b as int), '0', 'x'),
            decreases b - c,
        {
            proof {
                let sub = s.subrange(c as int, b as int);
                assert(sub.subrange(2, sub.len() as int) =~= s.subrange(c + 2, b as int));
                assert(sub[0] == s[c as int] && sub[1] == s[c + 1]);
            }
            c += 2;
        }
        proof {
            let sub = s.subrange(c as int, b as int);
            if c + 1 < b {
                assert(sub[0] == s[c as int] && sub[1] == s[c + 1]);
            }
            assert(strip_pairs(s.subrange(a as int, b as int), '0', 'x') == sub);
        }
        let mut e: usize = c;
        while b - e >= 2 && chars[e] == '0' && chars[e + 1] == 'X'
            invariant
                c <= e <= b <= n,
                n == s.len(),
                chars@ == s,
                strip_pairs(s.subrange(c as int, b as int), '0', 'X') == strip_pairs(s.subrange(e as int, b as int), '0', 'X'),
            decreases b - e,
        {
            proof {
                let sub = s.subrange(e as int, b as int);
                assert(sub.subrange(2, sub.len() as int) =~= s.subrange(e + 2, b as int));
                assert(sub[0] == s[e as int] && sub[1] == s[e + 1]);
            }
            e += 2;
        }
        proof {
            let sub = s.subrange(e as int, b as int);
            if e + 1 < b {
                assert(sub[0] == s[e as int] && sub[1] == s[e + 1]);
            }
            assert(strip_pairs(s.subrange(c as int, b as int), '0', 'X') == sub);
        }
        // Underscores.
        let mut cleaned: Vec<char> = Vec::new();
        let mut j: usize = e;
        proof {
            reveal(Seq::filter);
            assert(s.subrange(e as int, e as int) =~= Seq::<char>::empty());
        }
        while j < b
            invariant
                e <= j <= b <= n,
                n == s.len(),
                chars@ == s,
                cleaned@ == without_underscores(s.subrange(e as int, j as int)),
            decreases b - j,
        {
            proof {
                reveal(Seq::filter);
                let sub = s.subrange(e as int, j + 1);
                assert(sub.drop_last() =~= s.subrange(e as int, j as int));
                assert(sub.last() == s[j as int]);
            }
            if chars[j] != '_' {
                cleaned.push(chars[j]);
            }
            j += 1;
        }
        let ghost cs = cleaned@;
        assert(cs == hex_cleaned(s));
        // What `u128::from_str_radix` reads: an optional `+`, then digits.
        let m = cleaned.len();
        let start: usize = if m > 0 && cleaned[0] == '+' { 1 } else { 0 };
        let ghost digits = if cs.len() > 0 && cs[0] == '+' { cs.drop_first() } else { cs };
        assert(digits =~= cs.subrange(start as int, m as int));
        if start == m {
            return None;
        }
        let mut value: u128 = 0;
        let mut k: usize = start;
        proof {
            assert(digits.subrange(0, 0) =~= Seq::<char>::empty());
        }
        while k < m
            invariant
                start <= k <= m,
                m == cs.len(),
                cleaned@ == cs,
                digits == cs.subrange(start as int, m as int),
                cs == hex_cleaned(text@),
                digits == (if cs.len() > 0 && cs[0] == '+' { cs.drop_first() } else { cs }),
                digits.len() > 0,
                digits_value(digits.subrange(0, k - start)) == Some(value as nat),
            decreases m - k,
        {
            let ghost prefix = digits.subrange(0, k + 1 - start);
            proof {
                assert(prefix.drop_last() =~= digits.subrange(0, k - start));
                assert(prefix.last() == cs[k as int]);
            }
            let d = match digit_value(cleaned[k]) {
                Some(d) => d,
                None => {
                    proof {
                        if digits_value(digits) is Some {
                            lemma_digits_prefix(digits, (k + 1 - start) as nat);
                        }
                    }
                    return None;
                },
            };
            if value > (u128::MAX - d as u128) / 16 {
                proof {
                    assert(value * 16 + d > u128::MAX) by (nonlinear_arith)
                        requires
                            value > (u128::MAX - d as u128) / 16,
                            d < 16;
                    if digits_value(digits) is Some {
                        lemma_digits_prefix(digits, (k + 1 - start) as nat);
                    }
                }
                return None;
            }
            proof {
                assert(value * 16 + d <= u128::MAX) by (nonlinear_arith)
                    requires
                        value <= (u128::MAX - d as u128) / 16,
                        d < 16;
            }
            value = value * 16 + d as u128;
            k += 1;
        }
        proof {
            assert(digits.subrange(0, m - start) =~= digits);
        }
        Some(Seed::from_raw(value))
    }
}

/// A run of digits with a value has a value at each prefix, never above
/// the whole.
proof fn lemma_digits_prefix(s: Seq<char>, k: nat)
    requires
        k <= s.len(),
        digits_value(s) is Some,
    ensures
        digits_value(s.subrange(0, k as int)) is Some,
        digits_value(s.subrange(0, k as int))->0 <= digits_value(s)->0,
    decreases s.len(),
{
    if k == s.len() {
        assert(s.subrange(0, k as int) =~= s);
    } else {
        lemma_digits_prefix(s.drop_last(), k);
        assert(s.drop_last().subrange(0, k as int) =~= s.subrange(0, k as int));
    }
}

} // verus!
