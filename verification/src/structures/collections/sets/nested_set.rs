//! A set stored as a hash trie: each level of the tree consumes five bits
//! of the element's hash, so it holds 32 buckets. Each node is a 32-bit
//! occupancy bitmap plus a compact array of only the occupied buckets (a
//! hash array mapped trie), so sparse levels stay small.
//!
//! Elements whose full 64-bit hashes collide share a leaf bucket.
use vstd::prelude::*;
use crate::structures::traits::collection::{Choose, Collection, CollectionInsert, CollectionRemove, SetAlgebra, UniqueCollection};
use crate::structures::traits::key::Key;
use crate::structures::hashing::{hash_one, hash_one_spec};
use crate::structures::vec_ops::{position_of, vec_contains};

verus! {

broadcast use {vstd::set::group_set_axioms, vstd::seq_lib::group_seq_properties};

/// Bits of the hash each level consumes.
const BITS_PER_LEVEL: u32 = 5;

/// Whether bit `b` of `x` is set.
pub open spec fn bit(x: u32, b: u32) -> bool {
    (x >> b) & 1u32 == 1u32
}

/// How many of the lowest `n` bits of `x` are set.
pub open spec fn ones(x: u32, n: nat) -> nat
    decreases n,
{
    if n == 0 {
        0
    } else {
        ones(x, (n - 1) as nat) + if bit(x, (n - 1) as u32) { 1nat } else { 0nat }
    }
}

/// The occupied bucket whose entry stands at index `k` of the compact
/// array.
spec fn bucket_at(x: u32, k: int) -> u32 {
    choose|b: u32| b < 32 && bit(x, b) && ones(x, b as nat) == k
}

proof fn lemma_ones_mono(x: u32, a: nat, b: nat)
    requires
        a <= b,
    ensures
        ones(x, a) <= ones(x, b),
    decreases b,
{
    if a < b {
        lemma_ones_mono(x, a, (b - 1) as nat);
    }
}

proof fn lemma_ones_strict(x: u32, a: nat, b: nat)
    requires
        a < b,
        a < 32,
        bit(x, a as u32),
    ensures
        ones(x, a) < ones(x, b),
{
    lemma_ones_mono(x, a + 1, b);
}

proof fn lemma_ones_bound(x: u32, n: nat)
    ensures
        ones(x, n) <= n,
    decreases n,
{
    if n > 0 {
        lemma_ones_bound(x, (n - 1) as nat);
    }
}

proof fn lemma_ones_onto(x: u32, n: nat, k: int)
    requires
        n <= 32,
        0 <= k < ones(x, n),
    ensures
        exists|b: u32| b < n && bit(x, b) && ones(x, b as nat) == k,
    decreases n,
{
    if n > 0 {
        let m = (n - 1) as nat;
        if k < ones(x, m) {
            lemma_ones_onto(x, m, k);
        } else {
            assert(bit(x, m as u32) && ones(x, m) == k);
        }
    }
}

/// A set bit and its index in the compact array determine each other.
proof fn lemma_bucket_at(x: u32, b: u32)
    requires
        b < 32,
        bit(x, b),
    ensures
        ones(x, b as nat) < ones(x, 32),
        bucket_at(x, ones(x, b as nat) as int) == b,
{
    lemma_ones_strict(x, b as nat, 32);
    let c = bucket_at(x, ones(x, b as nat) as int);
    assert(c < 32 && bit(x, c) && ones(x, c as nat) == ones(x, b as nat));
    if c < b {
        lemma_ones_strict(x, c as nat, b as nat);
    } else if c > b {
        lemma_ones_strict(x, b as nat, c as nat);
    }
}

/// Every index of the compact array belongs to a set bit.
proof fn lemma_bucket_at_onto(x: u32, k: int)
    requires
        0 <= k < ones(x, 32),
    ensures
        bucket_at(x, k) < 32,
        bit(x, bucket_at(x, k)),
        ones(x, bucket_at(x, k) as nat) == k,
{
    lemma_ones_onto(x, 32, k);
}

/// Setting a clear bit adds one to the count of every range above it.
proof fn lemma_ones_set(x: u32, b: u32, n: nat)
    requires
        b < 32,
        !bit(x, b),
        n <= 32,
    ensures
        ones(x | (1u32 << b), n) == ones(x, n) + if n > b { 1nat } else { 0nat },
        forall|c: u32| c < 32 ==> #[trigger] bit(x | (1u32 << b), c) == (bit(x, c) || c == b),
    decreases n,
{
    assert forall|c: u32| c < 32 implies #[trigger] bit(x | (1u32 << b), c) == (bit(x, c) || c == b) by {
        assert(((x | (1u32 << b)) >> c) & 1u32 == 1u32 <==> (((x >> c) & 1u32 == 1u32) || c == b)) by (bit_vector)
            requires
                b < 32,
                c < 32;
    }
    if n > 0 {
        lemma_ones_set(x, b, (n - 1) as nat);
    }
}

/// Clearing a set bit takes one from the count of every range above it.
proof fn lemma_ones_clear(x: u32, b: u32, n: nat)
    requires
        b < 32,
        bit(x, b),
        n <= 32,
    ensures
        ones(x & !(1u32 << b), n) + (if n > b { 1nat } else { 0nat }) == ones(x, n),
        forall|c: u32| c < 32 ==> #[trigger] bit(x & !(1u32 << b), c) == (bit(x, c) && c != b),
    decreases n,
{
    assert forall|c: u32| c < 32 implies #[trigger] bit(x & !(1u32 << b), c) == (bit(x, c) && c != b) by {
        assert(((x & !(1u32 << b)) >> c) & 1u32 == 1u32 <==> (((x >> c) & 1u32 == 1u32) && c != b)) by (bit_vector)
            requires
                b < 32,
                c < 32;
    }
    if n > 0 {
        lemma_ones_clear(x, b, (n - 1) as nat);
    }
}

/// The number of set bits of `x` below bit `b`.
fn rank(x: u32, b: u32) -> (r: usize)
    requires
        b <= 32,
    ensures
        r == ones(x, b as nat),
{
    let mut r: usize = 0;
    let mut c: u32 = 0;
    while c < b
        invariant
            c <= b <= 32,
            r == ones(x, c as nat),
            r <= c,
        decreases b - c,
    {
        if (x >> c) & 1 == 1 {
            r += 1;
        }
        c += 1;
    }
    r
}

/// Whether bit `b` of `x` is set, computed.
fn has_bit(x: u32, b: u32) -> (set: bool)
    requires
        b < 32,
    ensures
        set == bit(x, b),
{
    let set = x & (1u32 << b) != 0;
    assert(set == ((x >> b) & 1u32 == 1u32)) by (bit_vector)
        requires
            b < 32,
            set == (x & (1u32 << b) != 0);
    set
}

/// The hash that places an element.
pub open spec fn hkey<T: Key>(x: T) -> u64 {
    hash_one_spec(x)
}

/// The bucket a hash falls in at the level that starts at bit `shift`.
pub open spec fn bucket_spec(hash: u64, shift: u32) -> u32 {
    ((hash >> shift) & 31u64) as u32
}

/// The lowest `shift` bits of a hash: the path to the level that starts at
/// bit `shift`.
pub open spec fn low(hash: u64, shift: u32) -> u64 {
    hash & (((1u64 << shift) as u64) - 1u64) as u64
}

fn bucket_of(hash: u64, shift: u32) -> (b: u32)
    requires
        shift < 64,
    ensures
        b == bucket_spec(hash, shift),
        b < 32,
{
    let b = ((hash >> shift) & 31) as u32;
    assert(((hash >> shift) & 31u64) < 32) by (bit_vector);
    b
}

/// A hash on the path `p` to a level, falling in bucket `b` there, is on
/// the path `p | b << shift` to the next level, and back.
proof fn lemma_next_path(h: u64, shift: u32, p: u64, b: u32)
    requires
        shift <= 55,
        b < 32,
        low(p, shift) == p,
    ensures
        (low(h, shift) == p && bucket_spec(h, shift) == b) <==> low(h, (shift + 5) as u32) == p | ((b as u64) << shift),
        low(p | ((b as u64) << shift), (shift + 5) as u32) == p | ((b as u64) << shift),
{
    let s5 = (shift + 5) as u32;
    let bb = b as u64;
    assert((h & (((1u64 << shift) as u64) - 1u64) as u64 == p && ((h >> shift) & 31u64) as u32 == b)
        <==> (h & (((1u64 << s5) as u64) - 1u64) as u64 == p | (bb << shift))) by (bit_vector)
        requires
            shift <= 55,
            s5 == shift + 5,
            bb == b as u64,
            b < 32,
            p & (((1u64 << shift) as u64) - 1u64) as u64 == p;
    assert((p | (bb << shift)) & (((1u64 << s5) as u64) - 1u64) as u64 == p | (bb << shift)) by (bit_vector)
        requires
            shift <= 55,
            s5 == shift + 5,
            bb < 32,
            p & (((1u64 << shift) as u64) - 1u64) as u64 == p;
}

/// Two hashes on the same path to the last level and in the same bucket
/// there are the same hash.
proof fn lemma_last_level(h1: u64, h2: u64)
    requires
        low(h1, 60) == low(h2, 60),
        bucket_spec(h1, 60) == bucket_spec(h2, 60),
    ensures
        h1 == h2,
{
    assert(h1 == h2) by (bit_vector)
        requires
            h1 & (((1u64 << 60u32) as u64) - 1u64) as u64 == h2 & (((1u64 << 60u32) as u64) - 1u64) as u64,
            ((h1 >> 60u32) & 31u64) as u32 == ((h2 >> 60u32) & 31u64) as u32;
}

/// One occupied bucket of a node.
enum Entry<T> {
    Leaf(u64, T),
    /// Elements whose full hashes are equal.
    Collision(u64, Vec<T>),
    Branch(Box<Node<T>>),
}

/// A level of the trie: which buckets are occupied, and their entries in
/// bucket order.
struct Node<T> {
    bitmap: u32,
    entries: Vec<Entry<T>>,
}

/// Hash-array-mapped-trie set storing unique elements of type `T`.
pub struct NestedSet<T: Key> {
    root: Node<T>,
    len: usize,
}

spec fn entry_has<T>(e: Entry<T>, x: T) -> bool
    decreases e,
{
    match e {
        Entry::Leaf(_, y) => y == x,
        Entry::Collision(_, ys) => ys@.contains(x),
        Entry::Branch(c) => has_in(c.entries@, x),
    }
}

spec fn has_in<T>(es: Seq<Entry<T>>, x: T) -> bool
    decreases es,
{
    if es.len() == 0 {
        false
    } else {
        entry_has(es[0], x) || has_in(es.drop_first(), x)
    }
}

/// Whether `x` is stored under node `n`.
spec fn node_has<T>(n: Node<T>, x: T) -> bool {
    has_in(n.entries@, x)
}

/// The hash `h` of an entry's elements is on the path `p` and in bucket `b`
/// of the level at `shift`.
spec fn in_slot(h: u64, shift: u32, p: u64, b: u32) -> bool {
    low(h, shift) == p && bucket_spec(h, shift) == b
}

spec fn node_wf<T: Key>(n: Node<T>, shift: u32, p: u64) -> bool {
    &&& shift <= 60
    &&& shift % 5 == 0
    &&& low(p, shift) == p
    &&& n.entries@.len() == ones(n.bitmap, 32)
    &&& wf_list(n.entries@, shift, p, n.bitmap, 0)
}

/// Entries from index `k` on are well formed for their buckets.
spec fn wf_list<T: Key>(es: Seq<Entry<T>>, shift: u32, p: u64, bitmap: u32, k: int) -> bool
    decreases es,
{
    if es.len() == 0 {
        true
    } else {
        entry_wf(es[0], shift, p, bucket_at(bitmap, k)) && wf_list(es.drop_first(), shift, p, bitmap, k + 1)
    }
}

spec fn entry_wf<T: Key>(e: Entry<T>, shift: u32, p: u64, b: u32) -> bool
    decreases e,
{
    match e {
        Entry::Leaf(h, x) => h == hkey(x) && in_slot(h, shift, p, b),
        Entry::Collision(h, xs) => in_slot(h, shift, p, b) && xs@.len() >= 2 && xs@.no_duplicates()
            && forall|i: int| 0 <= i < xs@.len() ==> #[trigger] hkey(xs@[i]) == h,
        Entry::Branch(c) => {
            &&& shift + 5 <= 60
            &&& (shift + 5) % 5 == 0
            &&& low(p | ((b as u64) << shift), (shift + 5) as u32) == p | ((b as u64) << shift)
            &&& c.entries@.len() == ones(c.bitmap, 32)
            &&& wf_list(c.entries@, (shift + 5) as u32, p | ((b as u64) << shift), c.bitmap, 0)
        },
    }
}

proof fn lemma_has_in<T>(es: Seq<Entry<T>>, x: T)
    ensures
        has_in(es, x) <==> exists|k: int| 0 <= k < es.len() && #[trigger] entry_has(es[k], x),
    decreases es,
{
    if es.len() > 0 {
        lemma_has_in(es.drop_first(), x);
        if has_in(es.drop_first(), x) {
            let k = choose|k: int| 0 <= k < es.drop_first().len() && #[trigger] entry_has(es.drop_first()[k], x);
            assert(entry_has(es[k + 1], x));
        }
        if entry_has(es[0], x) {
            assert(entry_has(es[0], x));
        }
        if exists|k: int| 0 <= k < es.len() && #[trigger] entry_has(es[k], x) {
            let k = choose|k: int| 0 <= k < es.len() && #[trigger] entry_has(es[k], x);
            if k > 0 {
                assert(entry_has(es.drop_first()[k - 1], x));
            }
        }
    }
}

proof fn lemma_wf_list<T: Key>(es: Seq<Entry<T>>, shift: u32, p: u64, bitmap: u32, k: int)
    ensures
        wf_list(es, shift, p, bitmap, k) <==> forall|i: int| 0 <= i < es.len() ==> #[trigger] entry_wf(es[i], shift, p, bucket_at(bitmap, k + i)),
    decreases es,
{
    if es.len() > 0 {
        lemma_wf_list(es.drop_first(), shift, p, bitmap, k + 1);
        if forall|i: int| 0 <= i < es.len() ==> #[trigger] entry_wf(es[i], shift, p, bucket_at(bitmap, k + i)) {
            assert(entry_wf(es[0], shift, p, bucket_at(bitmap, k + 0)));
            assert forall|i: int| 0 <= i < es.drop_first().len() implies #[trigger] entry_wf(es.drop_first()[i], shift, p, bucket_at(bitmap, k + 1 + i)) by {
                assert(es.drop_first()[i] == es[i + 1]);
                assert(entry_wf(es[i + 1], shift, p, bucket_at(bitmap, k + (i + 1))));
            }
        }
        if wf_list(es, shift, p, bitmap, k) {
            assert forall|i: int| 0 <= i < es.len() implies #[trigger] entry_wf(es[i], shift, p, bucket_at(bitmap, k + i)) by {
                if i > 0 {
                    assert(es[i] == es.drop_first()[i - 1]);
                    assert(entry_wf(es.drop_first()[i - 1], shift, p, bucket_at(bitmap, k + 1 + (i - 1))));
                }
            }
        }
    }
}

/// A branch entry is well formed when its node is, one level down.
proof fn lemma_branch_wf<T: Key>(c: Node<T>, shift: u32, p: u64, b: u32)
    ensures
        entry_wf(Entry::Branch(Box::new(c)), shift, p, b) <==> (shift + 5 <= 60 && node_wf(c, (shift + 5) as u32, p | ((b as u64) << shift))),
{
}

/// The node's entries match its bitmap bucket by bucket.
proof fn lemma_wf_bits<T: Key>(n: Node<T>, shift: u32, p: u64)
    requires
        node_wf(n, shift, p),
    ensures
        forall|b: u32| b < 32 && #[trigger] bit(n.bitmap, b) ==> ones(n.bitmap, b as nat) < n.entries@.len()
            && entry_wf(n.entries@[ones(n.bitmap, b as nat) as int], shift, p, b),
{
    lemma_wf_list(n.entries@, shift, p, n.bitmap, 0);
    assert forall|b: u32| b < 32 && #[trigger] bit(n.bitmap, b) implies ones(n.bitmap, b as nat) < n.entries@.len()
        && entry_wf(n.entries@[ones(n.bitmap, b as nat) as int], shift, p, b) by {
        lemma_bucket_at(n.bitmap, b);
        let k = ones(n.bitmap, b as nat) as int;
        assert(entry_wf(n.entries@[k], shift, p, bucket_at(n.bitmap, 0 + k)));
    }
}

/// A node whose entries match its bitmap bucket by bucket is well formed.
proof fn lemma_bits_wf<T: Key>(n: Node<T>, shift: u32, p: u64)
    requires
        shift <= 60,
        shift % 5 == 0,
        low(p, shift) == p,
        n.entries@.len() == ones(n.bitmap, 32),
        forall|b: u32| b < 32 && #[trigger] bit(n.bitmap, b) ==> entry_wf(n.entries@[ones(n.bitmap, b as nat) as int], shift, p, b),
    ensures
        node_wf(n, shift, p),
{
    assert forall|k: int| 0 <= k < n.entries@.len() implies #[trigger] entry_wf(n.entries@[k], shift, p, bucket_at(n.bitmap, 0 + k)) by {
        lemma_bucket_at_onto(n.bitmap, k);
        let b = bucket_at(n.bitmap, k);
        assert(bit(n.bitmap, b));
    }
    lemma_wf_list(n.entries@, shift, p, n.bitmap, 0);
}

/// Every element of an entry, or of a node, has a hash on its path.
proof fn lemma_entry_slot<T: Key>(e: Entry<T>, shift: u32, p: u64, b: u32, x: T)
    requires
        entry_wf(e, shift, p, b),
        entry_has(e, x),
        b < 32,
        shift <= 60,
        low(p, shift) == p,
    ensures
        in_slot(hkey(x), shift, p, b),
    decreases e,
{
    match e {
        Entry::Leaf(h, y) => {},
        Entry::Collision(h, xs) => {
            let i = choose|i: int| 0 <= i < xs@.len() && xs@[i] == x;
            assert(hkey(xs@[i]) == h);
        },
        Entry::Branch(c) => {
            assert(node_wf(*c, (shift + 5) as u32, p | ((b as u64) << shift)));
            lemma_node_path(*c, (shift + 5) as u32, p | ((b as u64) << shift), x);
            lemma_next_path(hkey(x), shift, p, b);
        },
    }
}

proof fn lemma_node_path<T: Key>(n: Node<T>, shift: u32, p: u64, x: T)
    requires
        node_wf(n, shift, p),
        node_has(n, x),
    ensures
        low(hkey(x), shift) == p,
    decreases n,
{
    lemma_has_in(n.entries@, x);
    lemma_wf_list(n.entries@, shift, p, n.bitmap, 0);
    let k = choose|k: int| 0 <= k < n.entries@.len() && #[trigger] entry_has(n.entries@[k], x);
    lemma_bucket_at_onto(n.bitmap, k);
    assert(entry_wf(n.entries@[k], shift, p, bucket_at(n.bitmap, 0 + k)));
    lemma_entry_slot(n.entries@[k], shift, p, bucket_at(n.bitmap, k), x);
}

/// An element is in a node exactly when it is in the entry of its bucket.
proof fn lemma_lookup<T: Key>(n: Node<T>, shift: u32, p: u64, x: T)
    requires
        node_wf(n, shift, p),
    ensures
        ({
            let b = bucket_spec(hkey(x), shift);
            node_has(n, x) <==> (low(hkey(x), shift) == p && bit(n.bitmap, b)
                && entry_has(n.entries@[ones(n.bitmap, b as nat) as int], x))
        }),
{
    let b = bucket_spec(hkey(x), shift);
    let h = hkey(x);
    assert((((h >> shift) & 31u64) as u32) < 32) by (bit_vector);
    lemma_has_in(n.entries@, x);
    lemma_wf_list(n.entries@, shift, p, n.bitmap, 0);
    if node_has(n, x) {
        let k = choose|k: int| 0 <= k < n.entries@.len() && #[trigger] entry_has(n.entries@[k], x);
        lemma_bucket_at_onto(n.bitmap, k);
        let c = bucket_at(n.bitmap, k);
        assert(entry_wf(n.entries@[k], shift, p, bucket_at(n.bitmap, 0 + k)));
        lemma_entry_slot(n.entries@[k], shift, p, c, x);
    }
    if low(hkey(x), shift) == p && bit(n.bitmap, b) && entry_has(n.entries@[ones(n.bitmap, b as nat) as int], x) {
        lemma_bucket_at(n.bitmap, b);
        assert(entry_has(n.entries@[ones(n.bitmap, b as nat) as int], x));
    }
}


/// Whether an element with hash `h` belongs in bucket `b` of the level at
/// `shift` on the path `p`.
spec fn belongs(h: u64, shift: u32, p: u64, b: u32) -> bool {
    in_slot(h, shift, p, b)
}

/// An empty node is well formed at any level.
proof fn lemma_empty_wf<T: Key>(n: Node<T>, shift: u32, p: u64)
    requires
        n.bitmap == 0,
        n.entries@.len() == 0,
        shift <= 60,
        shift % 5 == 0,
        low(p, shift) == p,
    ensures
        node_wf(n, shift, p),
        forall|y: T| !node_has(n, y),
{
    assert forall|c: u32| c < 32 implies !#[trigger] bit(0u32, c) by {
        assert((0u32 >> c) & 1u32 == 0u32) by (bit_vector);
    }
    assert forall|m: nat| m <= 32 implies #[trigger] ones(0u32, m) == 0 by {
        lemma_ones_zero(m);
    }
    assert forall|y: T| !node_has(n, y) by {
        lemma_has_in(n.entries@, y);
    }
}

proof fn lemma_ones_zero(m: nat)
    requires
        m <= 32,
    ensures
        ones(0u32, m) == 0,
    decreases m,
{
    if m > 0 {
        lemma_ones_zero((m - 1) as nat);
        let c = (m - 1) as u32;
        assert((0u32 >> c) & 1u32 == 0u32) by (bit_vector);
    }
}

/// Replacing the entry of an occupied bucket changes only that bucket.
proof fn lemma_replace_entry<T: Key>(old: Node<T>, new: Node<T>, shift: u32, p: u64, b: u32, e: Entry<T>)
    requires
        node_wf(old, shift, p),
        b < 32,
        bit(old.bitmap, b),
        new.bitmap == old.bitmap,
        new.entries@ == old.entries@.update(ones(old.bitmap, b as nat) as int, e),
        entry_wf(e, shift, p, b),
    ensures
        node_wf(new, shift, p),
        forall|y: T| #[trigger] node_has(new, y) <==> if belongs(hkey(y), shift, p, b) { entry_has(e, y) } else { node_has(old, y) },
{
    lemma_replace_wf(old, new, shift, p, b, e);
    assert forall|y: T| #[trigger] node_has(new, y) <==> if belongs(hkey(y), shift, p, b) { entry_has(e, y) } else { node_has(old, y) } by {
        lemma_replace_has(old, new, shift, p, b, e, y);
    }
}

proof fn lemma_replace_wf<T: Key>(old: Node<T>, new: Node<T>, shift: u32, p: u64, b: u32, e: Entry<T>)
    requires
        node_wf(old, shift, p),
        b < 32,
        bit(old.bitmap, b),
        new.bitmap == old.bitmap,
        new.entries@ == old.entries@.update(ones(old.bitmap, b as nat) as int, e),
        entry_wf(e, shift, p, b),
    ensures
        node_wf(new, shift, p),
{
    let slot = ones(old.bitmap, b as nat) as int;
    lemma_wf_bits(old, shift, p);
    lemma_bucket_at(old.bitmap, b);
    assert forall|c: u32| c < 32 && #[trigger] bit(new.bitmap, c) implies entry_wf(new.entries@[ones(new.bitmap, c as nat) as int], shift, p, c) by {
        if c != b {
            lemma_bucket_at(old.bitmap, c);
            assert(ones(old.bitmap, c as nat) != slot);
            assert(new.entries@[ones(new.bitmap, c as nat) as int] == old.entries@[ones(old.bitmap, c as nat) as int]);
        }
    }
    lemma_bits_wf(new, shift, p);
}

proof fn lemma_replace_has<T: Key>(old: Node<T>, new: Node<T>, shift: u32, p: u64, b: u32, e: Entry<T>, y: T)
    requires
        node_wf(old, shift, p),
        node_wf(new, shift, p),
        b < 32,
        bit(old.bitmap, b),
        new.bitmap == old.bitmap,
        new.entries@ == old.entries@.update(ones(old.bitmap, b as nat) as int, e),
    ensures
        node_has(new, y) <==> if belongs(hkey(y), shift, p, b) { entry_has(e, y) } else { node_has(old, y) },
{
    lemma_lookup(old, shift, p, y);
    lemma_lookup(new, shift, p, y);
    let h = hkey(y);
    let by = bucket_spec(h, shift);
    assert((((h >> shift) & 31u64) as u32) < 32) by (bit_vector);
    lemma_bucket_at(old.bitmap, b);
    if by != b && bit(old.bitmap, by) {
        lemma_bucket_at(old.bitmap, by);
    }
}

/// Occupying a free bucket with an entry adds just that bucket.
proof fn lemma_add_entry<T: Key>(old: Node<T>, new: Node<T>, shift: u32, p: u64, b: u32, e: Entry<T>)
    requires
        node_wf(old, shift, p),
        b < 32,
        !bit(old.bitmap, b),
        new.bitmap == old.bitmap | (1u32 << b),
        new.entries@ == old.entries@.insert(ones(old.bitmap, b as nat) as int, e),
        entry_wf(e, shift, p, b),
    ensures
        node_wf(new, shift, p),
        forall|y: T| #[trigger] node_has(new, y) <==> if belongs(hkey(y), shift, p, b) { entry_has(e, y) } else { node_has(old, y) },
{
    let slot = ones(old.bitmap, b as nat) as int;
    lemma_wf_bits(old, shift, p);
    lemma_ones_set(old.bitmap, b, 32);
    lemma_ones_set(old.bitmap, b, b as nat);
    lemma_ones_bound(old.bitmap, b as nat);
    lemma_ones_mono(old.bitmap, b as nat, 32);
    assert forall|c: u32| c < 32 && #[trigger] bit(new.bitmap, c) implies entry_wf(new.entries@[ones(new.bitmap, c as nat) as int], shift, p, c) by {
        lemma_ones_set(old.bitmap, b, c as nat);
        if c < b {
            lemma_ones_strict(old.bitmap, c as nat, b as nat);
        } else if c > b {
            lemma_ones_mono(old.bitmap, (b + 1) as nat, c as nat);
            lemma_ones_set(old.bitmap, b, (b + 1) as nat);
            lemma_bucket_at(old.bitmap, c);
        }
    }
    lemma_bits_wf(new, shift, p);
    assert forall|y: T| #[trigger] node_has(new, y) <==> if belongs(hkey(y), shift, p, b) { entry_has(e, y) } else { node_has(old, y) } by {
        lemma_lookup(old, shift, p, y);
        lemma_lookup(new, shift, p, y);
        let by = bucket_spec(hkey(y), shift);
        let h = hkey(y);
        assert((((h >> shift) & 31u64) as u32) < 32) by (bit_vector);
        lemma_ones_set(old.bitmap, b, by as nat);
        if by < b && bit(old.bitmap, by) {
            lemma_ones_strict(old.bitmap, by as nat, b as nat);
        } else if by > b && bit(old.bitmap, by) {
            lemma_ones_mono(old.bitmap, (b + 1) as nat, by as nat);
            lemma_ones_set(old.bitmap, b, (b + 1) as nat);
        }
    }
}

/// Emptying an occupied bucket removes just that bucket.
proof fn lemma_drop_entry<T: Key>(old: Node<T>, new: Node<T>, shift: u32, p: u64, b: u32)
    requires
        node_wf(old, shift, p),
        b < 32,
        bit(old.bitmap, b),
        new.bitmap == old.bitmap & !(1u32 << b),
        new.entries@ == old.entries@.remove(ones(old.bitmap, b as nat) as int),
    ensures
        node_wf(new, shift, p),
        forall|y: T| #[trigger] node_has(new, y) <==> (node_has(old, y) && !belongs(hkey(y), shift, p, b)),
{
    let slot = ones(old.bitmap, b as nat) as int;
    lemma_wf_bits(old, shift, p);
    lemma_ones_clear(old.bitmap, b, 32);
    lemma_bucket_at(old.bitmap, b);
    assert forall|c: u32| c < 32 && #[trigger] bit(new.bitmap, c) implies entry_wf(new.entries@[ones(new.bitmap, c as nat) as int], shift, p, c) by {
        lemma_ones_clear(old.bitmap, b, c as nat);
        lemma_bucket_at(old.bitmap, c);
        if c < b {
            lemma_ones_strict(old.bitmap, c as nat, b as nat);
        } else {
            lemma_ones_strict(old.bitmap, b as nat, c as nat);
        }
    }
    lemma_bits_wf(new, shift, p);
    assert forall|y: T| #[trigger] node_has(new, y) <==> (node_has(old, y) && !belongs(hkey(y), shift, p, b)) by {
        lemma_lookup(old, shift, p, y);
        lemma_lookup(new, shift, p, y);
        let by = bucket_spec(hkey(y), shift);
        let h = hkey(y);
        assert((((h >> shift) & 31u64) as u32) < 32) by (bit_vector);
        lemma_ones_clear(old.bitmap, b, by as nat);
        if by != b && bit(old.bitmap, by) {
            lemma_bucket_at(old.bitmap, by);
            if by < b {
                lemma_ones_strict(old.bitmap, by as nat, b as nat);
            } else {
                lemma_ones_strict(old.bitmap, b as nat, by as nat);
            }
        }
    }
}


/// The path of the next level down, through bucket `b`.
spec fn next_path(p: u64, b: u32, shift: u32) -> u64 {
    p | ((b as u64) << shift)
}

impl<T: Key> Node<T> {
    fn new() -> (n: Self)
        ensures
            n.bitmap == 0,
            n.entries@.len() == 0,
    {
        Node { bitmap: 0, entries: Vec::new() }
    }

    /// Whether `item`, with hash `hash`, is stored under this node.
    fn contains(&self, hash: u64, item: &T, shift: u32, Ghost(p): Ghost<u64>) -> (found: bool)
        requires
            node_wf(*self, shift, p),
            hash == hkey(*item),
        ensures
            found == node_has(*self, *item),
        decreases 60 - shift,
    {
        proof {
            lemma_lookup(*self, shift, p, *item);
            lemma_wf_bits(*self, shift, p);
        }
        let bucket = bucket_of(hash, shift);
        if !has_bit(self.bitmap, bucket) {
            return false;
        }
        let slot = rank(self.bitmap, bucket);
        match &self.entries[slot] {
            Entry::Leaf(leaf_hash, leaf) => *leaf_hash == hash && leaf.key_eq(item),
            Entry::Collision(bucket_hash, items) => {
                let found = *bucket_hash == hash && vec_contains(items, item);
                proof {
                    if items@.contains(*item) && *bucket_hash != hash {
                        let i = choose|i: int| 0 <= i < items@.len() && items@[i] == *item;
                        assert(hkey(items@[i]) == *bucket_hash);
                    }
                }
                found
            },
            Entry::Branch(node) => {
                let ghost q = next_path(p, bucket, shift);
                let found = node.contains(hash, item, shift + BITS_PER_LEVEL, Ghost(q));
                proof {
                    if found {
                        lemma_node_path(**node, (shift + 5) as u32, q, *item);
                        lemma_next_path(hash, shift, p, bucket);
                    }
                }
                found
            },
        }
    }
}/// Putting a leaf for `item` in a free bucket adds just `item`.
proof fn lemma_insert_fresh<T: Key>(before: Node<T>, new: Node<T>, shift: u32, p: u64, b: u32, item: T)
    requires
        node_wf(before, shift, p),
        b < 32,
        !bit(before.bitmap, b),
        belongs(hkey(item), shift, p, b),
        new.bitmap == before.bitmap | (1u32 << b),
        new.entries@ == before.entries@.insert(ones(before.bitmap, b as nat) as int, Entry::Leaf(hkey(item), item)),
    ensures
        node_wf(new, shift, p),
        !node_has(before, item),
        forall|y: T| #[trigger] node_has(new, y) <==> (node_has(before, y) || y == item),
{
    lemma_add_entry(before, new, shift, p, b, Entry::Leaf(hkey(item), item));
    lemma_lookup(before, shift, p, item);
    assert forall|y: T| #[trigger] node_has(new, y) <==> (node_has(before, y) || y == item) by {
        lemma_lookup(before, shift, p, y);
    }
}

/// Replacing the entry of `item`'s bucket by one that also holds `item`
/// adds just `item`.
proof fn lemma_insert_via_entry<T: Key>(before: Node<T>, new: Node<T>, shift: u32, p: u64, b: u32, old_e: Entry<T>, e: Entry<T>, item: T)
    requires
        node_wf(before, shift, p),
        b < 32,
        bit(before.bitmap, b),
        before.entries@[ones(before.bitmap, b as nat) as int] == old_e,
        new.bitmap == before.bitmap,
        new.entries@ == before.entries@.update(ones(before.bitmap, b as nat) as int, e),
        entry_wf(e, shift, p, b),
        belongs(hkey(item), shift, p, b),
        forall|y: T| #[trigger] entry_has(e, y) <==> (entry_has(old_e, y) || y == item),
    ensures
        node_wf(new, shift, p),
        node_has(before, item) == entry_has(old_e, item),
        forall|y: T| #[trigger] node_has(new, y) <==> (node_has(before, y) || y == item),
{
    lemma_replace_entry(before, new, shift, p, b, e);
    lemma_lookup(before, shift, p, item);
    assert forall|y: T| #[trigger] node_has(new, y) <==> (node_has(before, y) || y == item) by {
        lemma_lookup(before, shift, p, y);
        if entry_has(old_e, y) {
            lemma_wf_bits(before, shift, p);
            lemma_entry_slot(old_e, shift, p, b, y);
        }
    }
}

/// Every element of a leaf or collision entry has the entry's hash.
proof fn lemma_flat_hash<T: Key>(e: Entry<T>, shift: u32, p: u64, b: u32, h: u64, y: T)
    requires
        entry_wf(e, shift, p, b),
        e is Leaf || e is Collision,
        h == (match e { Entry::Leaf(g, _) => g, Entry::Collision(g, _) => g, Entry::Branch(_) => 0u64 }),
        entry_has(e, y),
    ensures
        hkey(y) == h,
{
    match e {
        Entry::Leaf(g, v) => {},
        Entry::Collision(g, vs) => {
            let i = choose|i: int| 0 <= i < vs@.len() && vs@[i] == y;
            assert(hkey(vs@[i]) == g);
        },
        Entry::Branch(_) => {},
    }
}

/// A leaf or collision entry put alone in an empty node one level down.
proof fn lemma_placed<T: Key>(empty: Node<T>, node: Node<T>, e: Entry<T>, h: u64, shift: u32, p: u64, b: u32, inner: u32)
    requires
        entry_wf(e, shift, p, b),
        e is Leaf || e is Collision,
        h == (match e { Entry::Leaf(g, _) => g, Entry::Collision(g, _) => g, Entry::Branch(_) => 0u64 }),
        shift + 5 <= 60,
        shift % 5 == 0,
        b < 32,
        low(p, shift) == p,
        inner == bucket_spec(h, (shift + 5) as u32),
        inner < 32,
        empty.bitmap == 0,
        empty.entries@.len() == 0,
        node.bitmap == 1u32 << inner,
        node.entries@ == seq![e],
    ensures
        node_wf(node, (shift + 5) as u32, next_path(p, b, shift)),
        forall|y: T| #[trigger] node_has(node, y) <==> entry_has(e, y),
{
    let q = next_path(p, b, shift);
    let below = (shift + 5) as u32;
    lemma_next_path(h, shift, p, b);
    lemma_empty_wf(empty, below, q);
    assert(0u32 | (1u32 << inner) == 1u32 << inner) by (bit_vector);
    assert(!bit(empty.bitmap, inner)) by {
        assert((0u32 >> inner) & 1u32 == 0u32) by (bit_vector);
    }
    lemma_ones_zero(inner as nat);
    assert(node.entries@ =~= empty.entries@.insert(0, e));
    match e {
        Entry::Leaf(g, v) => {
            assert(entry_wf(e, below, q, inner));
        },
        Entry::Collision(g, vs) => {
            assert(entry_wf(e, below, q, inner));
        },
        Entry::Branch(_) => {},
    }
    lemma_add_entry(empty, node, below, q, inner, e);
    assert forall|y: T| #[trigger] node_has(node, y) <==> entry_has(e, y) by {
        if entry_has(e, y) {
            lemma_flat_hash(e, shift, p, b, h, y);
        }
    }
}

impl<T: Key> Node<T> {
    /// Adds `item`, with hash `hash`, under this node. Returns whether it
    /// was new.
    fn insert(&mut self, hash: u64, item: T, shift: u32, Ghost(p): Ghost<u64>) -> (inserted: bool)
        requires
            node_wf(*old(self), shift, p),
            hash == hkey(item),
            low(hash, shift) == p,
        ensures
            node_wf(*final(self), shift, p),
            inserted == !node_has(*old(self), item),
            forall|y: T| #[trigger] node_has(*final(self), y) <==> (node_has(*old(self), y) || y == item),
        decreases 60 - shift, 2int,
    {
        let ghost before = *self;
        proof {
            lemma_wf_bits(before, shift, p);
        }
        let bucket = bucket_of(hash, shift);
        let slot = rank(self.bitmap, bucket);
        proof {
            lemma_ones_mono(self.bitmap, bucket as nat, 32);
        }
        if !has_bit(self.bitmap, bucket) {
            // A free bucket: the item goes in as a leaf.
            self.bitmap = self.bitmap | (1u32 << bucket);
            self.entries.insert(slot, Entry::Leaf(hash, item));
            proof {
                lemma_insert_fresh(before, *self, shift, p, bucket, item);
            }
            return true;
        }
        let entry = self.entries.remove(slot);
        let ghost old_e = entry;
        let (e, inserted) = Node::entry_insert(entry, hash, item, shift, bucket, Ghost(p));
        self.entries.insert(slot, e);
        proof {
            assert(self.entries@ =~= before.entries@.update(slot as int, e));
            lemma_insert_via_entry(before, *self, shift, p, bucket, old_e, e, item);
        }
        inserted
    }

    /// Adds `item` to the entry of its bucket. Returns the new entry and
    /// whether `item` was new.
    fn entry_insert(entry: Entry<T>, hash: u64, item: T, shift: u32, bucket: u32, Ghost(p): Ghost<u64>) -> (out: (Entry<T>, bool))
        requires
            entry_wf(entry, shift, p, bucket),
            bucket < 32,
            shift <= 60,
            shift % 5 == 0,
            low(p, shift) == p,
            hash == hkey(item),
            belongs(hash, shift, p, bucket),
        ensures
            entry_wf(out.0, shift, p, bucket),
            out.1 == !entry_has(entry, item),
            forall|y: T| #[trigger] entry_has(out.0, y) <==> (entry_has(entry, y) || y == item),
        decreases 60 - shift, 1int,
    {
        match entry {
            Entry::Branch(node) => {
                let mut node = node;
                let ghost q = next_path(p, bucket, shift);
                proof {
                    lemma_next_path(hash, shift, p, bucket);
                }
                let ghost old_node = *node;
                let inserted = (&mut *node).insert(hash, item, shift + BITS_PER_LEVEL, Ghost(q));
                proof {
                    assert forall|y: T| #[trigger] entry_has(Entry::Branch(node), y) <==> (entry_has(entry, y) || y == item) by {
                        assert(entry_has(Entry::Branch(node), y) == node_has(*node, y));
                        assert(entry_has(entry, y) == node_has(old_node, y));
                    }
                }
                (Entry::Branch(node), inserted)
            },
            Entry::Collision(h, items) => {
                if h != hash {
                    let e = Node::split_entry(Entry::Collision(h, items), h, hash, item, shift, bucket, Ghost(p));
                    return (e, true);
                }
                let mut items = items;
                if vec_contains(&items, &item) {
                    return (Entry::Collision(h, items), false);
                }
                let ghost old_items = items@;
                items.push(item);
                proof {
                    assert(items@.no_duplicates()) by {
                        assert forall|i: int, j: int| 0 <= i < items@.len() && 0 <= j < items@.len() && i != j implies items@[i] != items@[j] by {
                            if i < old_items.len() && j < old_items.len() {
                                assert(old_items[i] == items@[i] && old_items[j] == items@[j]);
                            } else if i < old_items.len() {
                                assert(old_items.contains(items@[i]));
                            } else {
                                assert(old_items.contains(items@[j]));
                            }
                        }
                    }
                    assert forall|y: T| #[trigger] items@.contains(y) <==> (old_items.contains(y) || y == item) by {
                        if items@.contains(y) && y != item {
                            let i = choose|i: int| 0 <= i < items@.len() && items@[i] == y;
                            assert(old_items[i] == y);
                        }
                        if old_items.contains(y) {
                            let i = choose|i: int| 0 <= i < old_items.len() && old_items[i] == y;
                            assert(items@[i] == y);
                        }
                        if y == item {
                            assert(items@[old_items.len() as int] == y);
                        }
                    }
                }
                (Entry::Collision(h, items), true)
            },
            Entry::Leaf(h, v) => {
                if h != hash {
                    let e = Node::split_entry(Entry::Leaf(h, v), h, hash, item, shift, bucket, Ghost(p));
                    return (e, true);
                }
                if v.key_eq(&item) {
                    return (Entry::Leaf(h, v), false);
                }
                let pair = vec![v, item];
                proof {
                    assert(pair@.no_duplicates()) by {
                        assert(pair@[0] != pair@[1]);
                    }
                    assert forall|i: int| 0 <= i < pair@.len() implies #[trigger] hkey(pair@[i]) == hash by {}
                    assert forall|y: T| #[trigger] pair@.contains(y) <==> (y == v || y == item) by {
                        if y == v {
                            assert(pair@[0] == y);
                        }
                        if y == item {
                            assert(pair@[1] == y);
                        }
                    }
                }
                (Entry::Collision(hash, pair), true)
            },
        }
    }

    /// A leaf or collision entry with hash `h`, other than `hash`, becomes a
    /// branch holding it one level down, next to `item`.
    fn split_entry(existing: Entry<T>, h: u64, hash: u64, item: T, shift: u32, bucket: u32, Ghost(p): Ghost<u64>) -> (e: Entry<T>)
        requires
            entry_wf(existing, shift, p, bucket),
            existing is Leaf || existing is Collision,
            h == (match existing { Entry::Leaf(g, _) => g, Entry::Collision(g, _) => g, Entry::Branch(_) => 0u64 }),
            h != hash,
            bucket < 32,
            shift <= 60,
            shift % 5 == 0,
            low(p, shift) == p,
            hash == hkey(item),
            belongs(hash, shift, p, bucket),
        ensures
            entry_wf(e, shift, p, bucket),
            !entry_has(existing, item),
            forall|y: T| #[trigger] entry_has(e, y) <==> (entry_has(existing, y) || y == item),
        decreases 60 - shift, 0int,
    {
        // Two different hashes on one path and in one bucket differ further
        // down, so there is a level below.
        proof {
            assert(in_slot(h, shift, p, bucket));
            if shift == 60 {
                lemma_last_level(h, hash);
            }
            lemma_next_path(hash, shift, p, bucket);
            if entry_has(existing, item) {
                lemma_flat_hash(existing, shift, p, bucket, h, item);
            }
        }
        let ghost q = next_path(p, bucket, shift);
        let below = shift + BITS_PER_LEVEL;
        let mut node = Node::new();
        let ghost empty = node;
        let inner = bucket_of(h, below);
        let ghost ex = existing;
        node.bitmap = 1u32 << inner;
        node.entries.push(existing);
        proof {
            assert(node.entries@ =~= seq![ex]);
            lemma_placed(empty, node, ex, h, shift, p, bucket, inner);
        }
        let ghost placed = node;
        let inserted = node.insert(hash, item, below, Ghost(q));
        let e = Entry::Branch(Box::new(node));
        proof {
            lemma_branch_wf(node, shift, p, bucket);
            assert forall|y: T| #[trigger] entry_has(e, y) <==> (entry_has(ex, y) || y == item) by {
                assert(entry_has(e, y) == node_has(node, y));
            }
        }
        e
    }
}


/// Swapping out the element at `i` of a list without repeats leaves the
/// others, still without repeats.
proof fn lemma_swap_removed<T>(old: Seq<T>, new: Seq<T>, i: int)
    requires
        old.no_duplicates(),
        0 <= i < old.len(),
        new == old.update(i, old.last()).drop_last(),
    ensures
        new.no_duplicates(),
        new.len() == old.len() - 1,
        forall|y: T| #[trigger] new.contains(y) <==> (old.contains(y) && y != old[i]),
{
    let n = old.len() - 1;
    assert forall|a: int, b: int| 0 <= a < new.len() && 0 <= b < new.len() && a != b implies new[a] != new[b] by {
        let a2 = if a == i { n } else { a };
        let b2 = if b == i { n } else { b };
        assert(new[a] == old[a2] && new[b] == old[b2]);
    }
    assert forall|y: T| #[trigger] new.contains(y) <==> (old.contains(y) && y != old[i]) by {
        if new.contains(y) {
            let a = choose|a: int| 0 <= a < new.len() && new[a] == y;
            let a2 = if a == i { n } else { a };
            assert(old[a2] == y);
        }
        if old.contains(y) && y != old[i] {
            let a = choose|a: int| 0 <= a < old.len() && old[a] == y;
            if a == n {
                assert(new[i] == y);
            } else {
                assert(new[a] == y);
            }
        }
    }
}

/// A node with one entry holds what that entry holds.
proof fn lemma_single_entry<T>(n: Node<T>, y: T)
    requires
        n.entries@.len() == 1,
    ensures
        node_has(n, y) == entry_has(n.entries@[0], y),
{
    lemma_has_in(n.entries@, y);
}

/// A lone leaf or collision pulled up from a branch one level down fits
/// the branch's bucket.
proof fn lemma_pull_up<T: Key>(node: Node<T>, e: Entry<T>, shift: u32, p: u64, b: u32)
    requires
        shift + 5 <= 60,
        b < 32,
        low(p, shift) == p,
        node_wf(node, (shift + 5) as u32, next_path(p, b, shift)),
        node.entries@.len() == 1,
        node.entries@[0] == e,
        e is Leaf || e is Collision,
    ensures
        entry_wf(e, shift, p, b),
{
    let q = next_path(p, b, shift);
    lemma_wf_list(node.entries@, (shift + 5) as u32, q, node.bitmap, 0);
    let inner = bucket_at(node.bitmap, 0);
    assert(entry_wf(e, (shift + 5) as u32, q, bucket_at(node.bitmap, 0int + 0int)));
    match e {
        Entry::Leaf(h, x) => {
            lemma_next_path(h, shift, p, b);
        },
        Entry::Collision(h, xs) => {
            lemma_next_path(h, shift, p, b);
        },
        Entry::Branch(_) => {},
    }
}

impl<T: Key> Node<T> {
    /// Removes `item`, with hash `hash`, from under this node, returning
    /// the stored copy.
    fn remove(&mut self, hash: u64, item: &T, shift: u32, Ghost(p): Ghost<u64>) -> (taken: Option<T>)
        requires
            node_wf(*old(self), shift, p),
            hash == hkey(*item),
            low(hash, shift) == p,
        ensures
            node_wf(*final(self), shift, p),
            match taken {
                Some(v) => v == *item && node_has(*old(self), *item),
                None => !node_has(*old(self), *item),
            },
            forall|y: T| #[trigger] node_has(*final(self), y) <==> (node_has(*old(self), y) && y != *item),
        decreases 60 - shift, 2int,
    {
        let ghost before = *self;
        proof {
            lemma_wf_bits(before, shift, p);
            lemma_lookup(before, shift, p, *item);
        }
        let bucket = bucket_of(hash, shift);
        if !has_bit(self.bitmap, bucket) {
            return None;
        }
        let slot = rank(self.bitmap, bucket);
        proof {
            lemma_bucket_at(self.bitmap, bucket);
        }
        let entry = self.entries.remove(slot);
        let ghost old_e = entry;
        proof {
            assert(old_e == before.entries@[slot as int]);
        }
        let (rest, taken) = Node::entry_remove(entry, hash, item, shift, bucket, Ghost(p));
        match rest {
            None => {
                self.bitmap = self.bitmap & !(1u32 << bucket);
                proof {
                    lemma_drop_entry(before, *self, shift, p, bucket);
                    assert forall|y: T| #[trigger] node_has(*self, y) <==> (node_has(before, y) && y != *item) by {
                        lemma_lookup(before, shift, p, y);
                    }
                }
                taken
            },
            Some(e) => {
                self.entries.insert(slot, e);
                proof {
                    assert(self.entries@ =~= before.entries@.update(slot as int, e));
                    lemma_replace_entry(before, *self, shift, p, bucket, e);
                    assert forall|y: T| #[trigger] node_has(*self, y) <==> (node_has(before, y) && y != *item) by {
                        lemma_lookup(before, shift, p, y);
                        if entry_has(old_e, y) {
                            lemma_entry_slot(old_e, shift, p, bucket, y);
                        }
                    }
                }
                taken
            },
        }
    }

    /// Removes `item` from the entry of its bucket. Returns what is left of
    /// the entry, if anything, and the stored copy.
    fn entry_remove(entry: Entry<T>, hash: u64, item: &T, shift: u32, bucket: u32, Ghost(p): Ghost<u64>) -> (out: (Option<Entry<T>>, Option<T>))
        requires
            entry_wf(entry, shift, p, bucket),
            bucket < 32,
            shift <= 60,
            shift % 5 == 0,
            low(p, shift) == p,
            hash == hkey(*item),
            belongs(hash, shift, p, bucket),
        ensures
            match out.1 {
                Some(v) => v == *item && entry_has(entry, *item),
                None => !entry_has(entry, *item) && out.0 is Some,
            },
            match out.0 {
                Some(e) => entry_wf(e, shift, p, bucket)
                    && forall|y: T| #[trigger] entry_has(e, y) <==> (entry_has(entry, y) && y != *item),
                None => out.1 is Some && forall|y: T| #[trigger] entry_has(entry, y) ==> y == *item,
            },
        decreases 60 - shift, 1int,
    {
        match entry {
            Entry::Leaf(h, v) => {
                if h == hash && v.key_eq(item) {
                    (None, Some(v))
                } else {
                    (Some(Entry::Leaf(h, v)), None)
                }
            },
            Entry::Collision(h, items) => {
                if h != hash {
                    proof {
                        if items@.contains(*item) {
                            let i = choose|i: int| 0 <= i < items@.len() && items@[i] == *item;
                            assert(hkey(items@[i]) == h);
                        }
                    }
                    return (Some(Entry::Collision(h, items)), None);
                }
                let mut items = items;
                match position_of(&items, item) {
                    None => (Some(Entry::Collision(h, items)), None),
                    Some(position) => {
                        let ghost old_items = items@;
                        let removed = items.swap_remove(position);
                        proof {
                            lemma_swap_removed(old_items, items@, position as int);
                            assert forall|i: int| 0 <= i < items@.len() implies #[trigger] hkey(items@[i]) == h by {
                                assert(old_items.contains(items@[i]));
                                let j = choose|j: int| 0 <= j < old_items.len() && old_items[j] == items@[i];
                                assert(hkey(old_items[j]) == h);
                            }
                        }
                        if items.len() == 1 {
                            let ghost after_swap = items@;
                            let last = items.pop().unwrap();
                            proof {
                                assert(last == after_swap[0]);
                                assert forall|y: T| #[trigger] entry_has(Entry::Leaf(h, last), y) <==> (old_items.contains(y) && y != *item) by {
                                    assert(after_swap.contains(last));
                                    if after_swap.contains(y) {
                                        let i = choose|i: int| 0 <= i < after_swap.len() && after_swap[i] == y;
                                    }
                                }
                                assert(hkey(after_swap[0]) == h);
                            }
                            (Some(Entry::Leaf(h, last)), Some(removed))
                        } else {
                            (Some(Entry::Collision(h, items)), Some(removed))
                        }
                    },
                }
            },
            Entry::Branch(node) => {
                let mut node = node;
                let ghost old_node = *node;
                let ghost q = next_path(p, bucket, shift);
                proof {
                    lemma_next_path(hash, shift, p, bucket);
                }
                let taken = (&mut *node).remove(hash, item, shift + BITS_PER_LEVEL, Ghost(q));
                proof {
                    assert(entry_has(entry, *item) == node_has(old_node, *item));
                    assert forall|y: T| #[trigger] entry_has(entry, y) == node_has(old_node, y) by {}
                }
                if taken.is_none() {
                    proof {
                        assert forall|y: T| #[trigger] entry_has(Entry::Branch(node), y) <==> (entry_has(entry, y) && y != *item) by {
                            assert(entry_has(Entry::Branch(node), y) == node_has(*node, y));
                        }
                    }
                    return (Some(Entry::Branch(node)), None);
                }
                if node.entries.len() == 0 {
                    proof {
                        assert forall|y: T| #[trigger] entry_has(entry, y) implies y == *item by {
                            lemma_has_in(node.entries@, y);
                            assert(!node_has(*node, y));
                        }
                    }
                    return (None, taken);
                }
                if node.entries.len() == 1 && !matches!(node.entries[0], Entry::Branch(_)) {
                    // Pull a lone leaf back up so chains of single branches
                    // do not linger after removals.
                    let ghost shrunk = *node;
                    let lone = node.entries.pop().unwrap();
                    proof {
                        lemma_pull_up(shrunk, lone, shift, p, bucket);
                        assert forall|y: T| #[trigger] entry_has(lone, y) <==> (entry_has(entry, y) && y != *item) by {
                            lemma_single_entry(shrunk, y);
                        }
                    }
                    return (Some(lone), taken);
                }
                proof {
                    lemma_branch_wf(*node, shift, p, bucket);
                    assert forall|y: T| #[trigger] entry_has(Entry::Branch(node), y) <==> (entry_has(entry, y) && y != *item) by {
                        assert(entry_has(Entry::Branch(node), y) == node_has(*node, y));
                    }
                }
                (Some(Entry::Branch(node)), taken)
            },
        }
    }
}


/// The elements under a node in depth-first order.
spec fn list_in<T>(es: Seq<Entry<T>>) -> Seq<T>
    decreases es,
{
    if es.len() == 0 {
        Seq::empty()
    } else {
        list_in(es.drop_last()) + entry_list(es.last())
    }
}

spec fn entry_list<T>(e: Entry<T>) -> Seq<T>
    decreases e,
{
    match e {
        Entry::Leaf(_, x) => seq![x],
        Entry::Collision(_, xs) => xs@,
        Entry::Branch(c) => list_in(c.entries@),
    }
}

/// Levels in use below and at a node.
spec fn depth_in<T>(es: Seq<Entry<T>>) -> nat
    decreases es,
{
    if es.len() == 0 {
        0
    } else {
        let rest = depth_in(es.drop_last());
        let here = entry_depth(es.last());
        if rest >= here { rest } else { here }
    }
}

spec fn entry_depth<T>(e: Entry<T>) -> nat
    decreases e,
{
    match e {
        Entry::Branch(c) => 1 + depth_in(c.entries@),
        _ => 0,
    }
}

proof fn lemma_list_prefix<T: Key>(n: Node<T>, shift: u32, p: u64, m: int)
    requires
        node_wf(n, shift, p),
        0 <= m <= n.entries@.len(),
    ensures
        forall|y: T| #[trigger] list_in(n.entries@.subrange(0, m)).contains(y)
            <==> exists|k: int| 0 <= k < m && #[trigger] entry_has(n.entries@[k], y),
        list_in(n.entries@.subrange(0, m)).no_duplicates(),
        depth_in(n.entries@.subrange(0, m)) <= (60 - shift) / 5,
    decreases n, m,
{
    let es = n.entries@;
    lemma_wf_list(es, shift, p, n.bitmap, 0);
    if m > 0 {
        let sub = es.subrange(0, m);
        assert(sub.drop_last() =~= es.subrange(0, m - 1));
        assert(sub.last() == es[m - 1]);
        lemma_list_prefix(n, shift, p, m - 1);
        let b = bucket_at(n.bitmap, m - 1);
        lemma_bucket_at_onto(n.bitmap, m - 1);
        assert(entry_wf(es[m - 1], shift, p, bucket_at(n.bitmap, 0 + (m - 1))));
        assert(decreases_to!(n => n.entries));
        lemma_entry_list(es[m - 1], shift, p, b);
        let a = list_in(es.subrange(0, m - 1));
        let c = entry_list(es[m - 1]);
        assert(list_in(sub) == a + c);
        assert forall|y: T| #[trigger] list_in(sub).contains(y) <==> exists|k: int| 0 <= k < m && #[trigger] entry_has(es[k], y) by {
            if list_in(sub).contains(y) {
                let i = choose|i: int| 0 <= i < (a + c).len() && (a + c)[i] == y;
                if i < a.len() {
                    assert(a.contains(y));
                } else {
                    assert(c[i - a.len()] == y);
                    assert(c.contains(y));
                }
            }
            if exists|k: int| 0 <= k < m && #[trigger] entry_has(es[k], y) {
                let k = choose|k: int| 0 <= k < m && #[trigger] entry_has(es[k], y);
                if k < m - 1 {
                    assert(a.contains(y));
                    let i = choose|i: int| 0 <= i < a.len() && a[i] == y;
                    assert((a + c)[i] == y);
                } else {
                    assert(c.contains(y));
                    let i = choose|i: int| 0 <= i < c.len() && c[i] == y;
                    assert((a + c)[i + a.len()] == y);
                }
            }
        }
        assert forall|y: T| a.contains(y) implies !c.contains(y) by {
            let k = choose|k: int| 0 <= k < m - 1 && #[trigger] entry_has(es[k], y);
            let bk = bucket_at(n.bitmap, k);
            lemma_bucket_at_onto(n.bitmap, k);
            assert(entry_wf(es[k], shift, p, bucket_at(n.bitmap, 0 + k)));
            lemma_entry_slot(es[k], shift, p, bk, y);
            if c.contains(y) {
                lemma_entry_slot(es[m - 1], shift, p, b, y);
            }
        }
        lemma_concat_no_dups(a, c);
    } else {
        assert(es.subrange(0, 0) =~= Seq::<Entry<T>>::empty());
    }
}

proof fn lemma_entry_list<T: Key>(e: Entry<T>, shift: u32, p: u64, b: u32)
    requires
        entry_wf(e, shift, p, b),
        shift <= 60,
    ensures
        forall|y: T| #[trigger] entry_list(e).contains(y) <==> entry_has(e, y),
        entry_list(e).no_duplicates(),
        entry_depth(e) <= (60 - shift) / 5,
    decreases e, 0int,
{
    match e {
        Entry::Leaf(_, x) => {
            assert forall|y: T| #[trigger] entry_list(e).contains(y) <==> entry_has(e, y) by {
                if y == x {
                    assert(seq![x][0] == y);
                }
            }
        },
        Entry::Collision(_, xs) => {},
        Entry::Branch(c) => {
            let q = next_path(p, b, shift);
            assert(node_wf(*c, (shift + 5) as u32, q));
            lemma_list_prefix(*c, (shift + 5) as u32, q, c.entries@.len() as int);
            assert(c.entries@.subrange(0, c.entries@.len() as int) =~= c.entries@);
            assert forall|y: T| #[trigger] entry_list(e).contains(y) <==> entry_has(e, y) by {
                lemma_has_in(c.entries@, y);
            }
        },
    }
}

proof fn lemma_concat_no_dups<A>(a: Seq<A>, b: Seq<A>)
    requires
        a.no_duplicates(),
        b.no_duplicates(),
        forall|x: A| a.contains(x) ==> !b.contains(x),
    ensures
        (a + b).no_duplicates(),
{
    let c = a + b;
    assert forall|i: int, j: int| 0 <= i < c.len() && 0 <= j < c.len() && i != j implies c[i] != c[j] by {
        if i < a.len() && j >= a.len() {
            assert(a.contains(c[i]));
            assert(b.contains(c[j]));
        } else if j < a.len() && i >= a.len() {
            assert(a.contains(c[j]));
            assert(b.contains(c[i]));
        } else if i >= a.len() && j >= a.len() {
            assert(c[i] == b[i - a.len()] && c[j] == b[j - a.len()]);
        }
    }
}

impl<T: Key> Node<T> {
    /// Appends the elements under this node in depth-first order.
    fn collect(&self, out: &mut Vec<T>)
        ensures
            final(out)@ == old(out)@ + list_in(self.entries@),
        decreases self,
    {
        let mut i: usize = 0;
        proof {
            assert(self.entries@.subrange(0, 0) =~= Seq::<Entry<T>>::empty());
            assert(out@ =~= old(out)@ + list_in(Seq::<Entry<T>>::empty()));
        }
        while i < self.entries.len()
            invariant
                i <= self.entries@.len(),
                out@ == old(out)@ + list_in(self.entries@.subrange(0, i as int)),
            decreases self.entries@.len() - i,
        {
            let ghost before = out@;
            let ghost sub = self.entries@.subrange(0, i + 1);
            proof {
                assert(sub.drop_last() =~= self.entries@.subrange(0, i as int));
                assert(sub.last() == self.entries@[i as int]);
                assert(list_in(sub) == list_in(self.entries@.subrange(0, i as int)) + entry_list(self.entries@[i as int]));
            }
            match &self.entries[i] {
                Entry::Leaf(_, x) => {
                    out.push(*x);
                },
                Entry::Collision(_, xs) => {
                    let mut j: usize = 0;
                    while j < xs.len()
                        invariant
                            j <= xs@.len(),
                            i < self.entries@.len(),
                            out@ == before + xs@.subrange(0, j as int),
                        decreases xs@.len() - j,
                    {
                        out.push(xs[j]);
                        proof {
                            assert(out@ =~= before + xs@.subrange(0, j + 1));
                        }
                        j += 1;
                    }
                    proof {
                        assert(xs@.subrange(0, xs@.len() as int) =~= xs@);
                    }
                },
                Entry::Branch(node) => {
                    proof {
                        assert(decreases_to!(self => self.entries));
                    }
                    node.collect(out);
                },
            }
            proof {
                assert(out@ =~= old(out)@ + list_in(sub));
            }
            i += 1;
        }
        proof {
            assert(self.entries@.subrange(0, i as int) =~= self.entries@);
        }
    }

    /// Levels in use below this node, not counting it.
    fn depth_below(&self, Ghost(shift): Ghost<u32>, Ghost(p): Ghost<u64>) -> (d: usize)
        requires
            node_wf(*self, shift, p),
        ensures
            d == depth_in(self.entries@),
            d <= 12,
        decreases self,
    {
        proof {
            lemma_list_prefix(*self, shift, p, self.entries@.len() as int);
            assert(self.entries@.subrange(0, self.entries@.len() as int) =~= self.entries@);
            lemma_wf_list(self.entries@, shift, p, self.bitmap, 0);
        }
        let mut deepest: usize = 0;
        let mut i: usize = 0;
        proof {
            assert(self.entries@.subrange(0, 0) =~= Seq::<Entry<T>>::empty());
        }
        while i < self.entries.len()
            invariant
                i <= self.entries@.len(),
                node_wf(*self, shift, p),
                depth_in(self.entries@) <= 12,
                deepest == depth_in(self.entries@.subrange(0, i as int)),
                deepest <= 12,
            decreases self.entries@.len() - i,
        {
            let ghost sub = self.entries@.subrange(0, i + 1);
            proof {
                assert(sub.drop_last() =~= self.entries@.subrange(0, i as int));
                assert(sub.last() == self.entries@[i as int]);
                lemma_list_prefix(*self, shift, p, i + 1);
            }
            let here: usize = match &self.entries[i] {
                Entry::Branch(node) => {
                    proof {
                        assert(decreases_to!(self => self.entries));
                        lemma_wf_list(self.entries@, shift, p, self.bitmap, 0);
                        assert(entry_wf(self.entries@[i as int], shift, p, bucket_at(self.bitmap, 0 + i)));
                        lemma_list_prefix(**node, (shift + 5) as u32, next_path(p, bucket_at(self.bitmap, 0 + i), shift), node.entries@.len() as int);
                        assert(node.entries@.subrange(0, node.entries@.len() as int) =~= node.entries@);
                    }
                    1 + node.depth_below(Ghost((shift + 5) as u32), Ghost(next_path(p, bucket_at(self.bitmap, 0 + i), shift)))
                },
                _ => 0,
            };
            proof {
                assert(here == entry_depth(self.entries@[i as int]));
            }
            if here > deepest {
                deepest = here;
            }
            i += 1;
        }
        proof {
            assert(self.entries@.subrange(0, i as int) =~= self.entries@);
        }
        deepest
    }
}


/// The root path is empty.
proof fn lemma_root_path(h: u64)
    ensures
        low(h, 0) == 0,
{
    assert(h & (((1u64 << 0u32) as u64) - 1u64) as u64 == 0) by (bit_vector);
}

/// The elements under a well-formed root, listed once each.
proof fn lemma_root_list<T: Key>(root: Node<T>)
    requires
        node_wf(root, 0, 0),
    ensures
        list_in(root.entries@).no_duplicates(),
        forall|y: T| #[trigger] list_in(root.entries@).contains(y) <==> node_has(root, y),
        list_in(root.entries@).to_set() == Set::new(|y: T| node_has(root, y)),
        Set::new(|y: T| node_has(root, y)).finite(),
        Set::new(|y: T| node_has(root, y)).len() == list_in(root.entries@).len(),
        depth_in(root.entries@) <= 12,
{
    lemma_list_prefix(root, 0, 0, root.entries@.len() as int);
    assert(root.entries@.subrange(0, root.entries@.len() as int) =~= root.entries@);
    assert forall|y: T| #[trigger] list_in(root.entries@).contains(y) <==> node_has(root, y) by {
        lemma_has_in(root.entries@, y);
    }
    assert(list_in(root.entries@).to_set() =~= Set::new(|y: T| node_has(root, y)));
    list_in(root.entries@).unique_seq_to_set();
}

impl<T: Key> NestedSet<T> {
    #[verifier::type_invariant]
    spec fn inv(self) -> bool {
        node_wf(self.root, 0, 0) && self.len == list_in(self.root.entries@).len()
    }
}

impl<T: Key> View for NestedSet<T> {
    type V = Set<T>;

    closed spec fn view(&self) -> Set<T> {
        Set::new(|y: T| node_has(self.root, y))
    }
}

impl<T: Key> NestedSet<T> {
    /// The members in depth-first trie order: the order `iter` lists them in.
    pub closed spec fn listing(&self) -> Seq<T> {
        list_in(self.root.entries@)
    }
}

impl<T: Key> NestedSet<T> {
    /// Creates an empty trie set.
    pub fn new() -> (set: Self)
        ensures
            set@ == Set::<T>::empty(),
    {
        let root = Node::new();
        proof {
            lemma_root_path(0);
            lemma_empty_wf(root, 0, 0);
            assert(list_in(root.entries@) =~= Seq::<T>::empty());
        }
        let set = NestedSet { root, len: 0 };
        proof {
            assert(set@ =~= Set::<T>::empty());
        }
        set
    }

    /// The member set is finite.
    fn facts(&self)
        ensures
            self@.finite(),
    {
        proof {
            use_type_invariant(self);
            lemma_root_list(self.root);
        }
    }

    /// The number of members.
    pub fn len(&self) -> (n: usize)
        ensures
            self@.finite(),
            n == self@.len(),
    {
        proof {
            use_type_invariant(self);
            lemma_root_list(self.root);
        }
        self.len
    }

    /// Whether no members are stored.
    pub fn is_empty(&self) -> (empty: bool)
        ensures
            empty == (self@.len() == 0),
    {
        self.len() == 0
    }

    /// Removes every member and resets the trie.
    pub fn clear(&mut self)
        ensures
            final(self)@ == Set::<T>::empty(),
    {
        *self = NestedSet::new();
    }

    /// The members in depth-first trie order.
    pub fn iter(&self) -> (items: Vec<T>)
        ensures
            items@ == self.listing(),
            items@.no_duplicates(),
            items@.to_set() == self@,
            items@.len() == self@.len(),
    {
        proof {
            use_type_invariant(self);
            lemma_root_list(self.root);
        }
        let mut out: Vec<T> = Vec::new();
        self.root.collect(&mut out);
        proof {
            assert(out@ =~= list_in(self.root.entries@));
        }
        out
    }

    /// Whether `item` is present.
    pub fn contains(&self, item: &T) -> (found: bool)
        ensures
            found == self@.contains(*item),
    {
        proof {
            use_type_invariant(self);
        }
        let hash = hash_one(item);
        self.root.contains(hash, item, 0, Ghost(0))
    }

    /// Adds `item`; returns whether it was new. The set must not already
    /// hold `usize::MAX` members.
    pub fn insert(&mut self, item: T) -> (inserted: bool)
        requires
            old(self)@.len() < usize::MAX,
        ensures
            inserted == !old(self)@.contains(item),
            final(self)@ == old(self)@.insert(item),
    {
        proof {
            use_type_invariant(&*self);
        }
        let mut taken = NestedSet::new();
        std::mem::swap(&mut taken, self);
        let NestedSet { mut root, len } = taken;
        let ghost before = root;
        let hash = hash_one(&item);
        proof {
            lemma_root_path(hash);
            lemma_root_list(before);
        }
        let inserted = root.insert(hash, item, 0, Ghost(0));
        proof {
            lemma_root_list(root);
            let old_view = Set::new(|y: T| node_has(before, y));
            let new_view = Set::new(|y: T| node_has(root, y));
            assert(new_view =~= old_view.insert(item));
        }
        let new_len = if inserted { len + 1 } else { len };
        *self = NestedSet { root, len: new_len };
        proof {
            assert(self@ =~= Set::new(|y: T| node_has(before, y)).insert(item));
        }
        inserted
    }

    /// Removes `item` and returns the stored copy.
    pub fn take(&mut self, item: &T) -> (taken: Option<T>)
        ensures
            taken == (if old(self)@.contains(*item) { Some(*item) } else { None::<T> }),
            final(self)@ == old(self)@.remove(*item),
    {
        proof {
            use_type_invariant(&*self);
        }
        let mut whole = NestedSet::new();
        std::mem::swap(&mut whole, self);
        let NestedSet { mut root, len } = whole;
        let ghost before = root;
        let hash = hash_one(item);
        proof {
            lemma_root_path(hash);
            lemma_root_list(before);
        }
        let taken = root.remove(hash, item, 0, Ghost(0));
        proof {
            lemma_root_list(root);
            let old_view = Set::new(|y: T| node_has(before, y));
            let new_view = Set::new(|y: T| node_has(root, y));
            assert(new_view =~= old_view.remove(*item));
        }
        let new_len = if taken.is_some() { len - 1 } else { len };
        *self = NestedSet { root, len: new_len };
        proof {
            assert(self@ =~= Set::new(|y: T| node_has(before, y)).remove(*item));
        }
        taken
    }

    /// Removes `item`; returns whether it was present.
    pub fn remove(&mut self, item: &T) -> (removed: bool)
        ensures
            removed == old(self)@.contains(*item),
            final(self)@ == old(self)@.remove(*item),
    {
        self.take(item).is_some()
    }

    /// Keeps the members for which `keep` returns `true`.
    pub fn retain<F: Fn(&T) -> bool>(&mut self, keep: F)
        requires
            forall|x: &T| #[trigger] keep.requires((x,)),
        ensures
            forall|x: T| #[trigger] final(self)@.contains(x) ==> old(self)@.contains(x) && keep.ensures((&x,), true),
            forall|x: T| old(self)@.contains(x) && !final(self)@.contains(x) ==> keep.ensures((&x,), false),
    {
        let items = self.iter();
        let ghost start = self@;
        let mut i: usize = 0;
        while i < items.len()
            invariant
                i <= items@.len(),
                items@.no_duplicates(),
                items@.to_set() == start,
                forall|x: &T| #[trigger] keep.requires((x,)),
                forall|y: T| #[trigger] self@.contains(y) ==> start.contains(y),
                forall|j: int| i <= j < items@.len() ==> self@.contains(#[trigger] items@[j]),
                forall|j: int| 0 <= j < i && !self@.contains(#[trigger] items@[j]) ==> keep.ensures((&items@[j],), false),
                forall|j: int| 0 <= j < i && self@.contains(#[trigger] items@[j]) ==> keep.ensures((&items@[j],), true),
                forall|y: T| start.contains(y) && !self@.contains(y) ==> exists|j: int| 0 <= j < i && #[trigger] items@[j] == y,
            decreases items@.len() - i,
        {
            let x = items[i];
            let kept = keep(&x);
            let ghost mid = self@;
            if !kept {
                self.remove(&x);
            }
            proof {
                assert forall|j: int| i + 1 <= j < items@.len() implies self@.contains(#[trigger] items@[j]) by {
                    assert(items@[j] != items@[i as int]);
                    assert(mid.contains(items@[j]));
                }
                assert forall|j: int| 0 <= j < i + 1 && !self@.contains(#[trigger] items@[j]) implies keep.ensures((&items@[j],), false) by {
                    if j < i {
                        assert(items@[j] != x);
                    }
                }
                assert forall|j: int| 0 <= j < i + 1 && self@.contains(#[trigger] items@[j]) implies keep.ensures((&items@[j],), true) by {
                    if j == i {
                        assert(kept);
                    }
                }
                assert forall|y: T| start.contains(y) && !self@.contains(y) implies exists|j: int| 0 <= j < i + 1 && #[trigger] items@[j] == y by {
                    if y == x {
                        assert(items@[i as int] == y);
                    } else {
                        assert(!mid.contains(y));
                        let j = choose|j: int| 0 <= j < i && #[trigger] items@[j] == y;
                        assert(items@[j] == y);
                    }
                }
            }
            i += 1;
        }
        proof {
            assert forall|x: T| #[trigger] self@.contains(x) implies start.contains(x) && keep.ensures((&x,), true) by {
                assert(items@.to_set().contains(x));
                let j = choose|j: int| 0 <= j < items@.len() && items@[j] == x;
            }
            assert forall|x: T| start.contains(x) && !self@.contains(x) implies keep.ensures((&x,), false) by {
                let j = choose|j: int| 0 <= j < i && #[trigger] items@[j] == x;
            }
        }
    }

    /// How many levels of the trie are in use.
    pub closed spec fn levels(&self) -> nat {
        1 + depth_in(self.root.entries@)
    }

    /// Number of trie levels in use.
    pub fn depth(&self) -> (d: usize)
        ensures
            d == self.levels(),
            1 <= d <= 13,
    {
        proof {
            use_type_invariant(self);
        }
        1 + self.root.depth_below(Ghost(0), Ghost(0))
    }

    /// Adds every item of `items`. The result must fit `usize::MAX`
    /// members.
    pub fn extend(&mut self, items: &Vec<T>)
        requires
            old(self)@.len() + items@.len() < usize::MAX,
        ensures
            final(self)@ == old(self)@.union(items@.to_set()),
    {
        let mut i: usize = 0;
        self.facts();
        proof {
            assert(items@.subrange(0, 0).to_set() =~= Set::<T>::empty());
            assert(self@ =~= old(self)@.union(Set::<T>::empty()));
        }
        while i < items.len()
            invariant
                i <= items@.len(),
                self@ == old(self)@.union(items@.subrange(0, i as int).to_set()),
                old(self)@.finite(),
                old(self)@.len() + items@.len() < usize::MAX,
            decreases items@.len() - i,
        {
            self.facts();
            proof {
                let part = items@.subrange(0, i as int);
                part.lemma_cardinality_of_set();
                vstd::set_lib::lemma_len_union(old(self)@, part.to_set());
            }
            self.insert(items[i]);
            proof {
                assert(items@.subrange(0, i + 1) =~= items@.subrange(0, i as int).push(items@[i as int]));
                assert(self@ =~= old(self)@.union(items@.subrange(0, i + 1).to_set()));
            }
            i += 1;
        }
        proof {
            assert(items@.subrange(0, i as int) =~= items@);
        }
    }

    /// The members of `self` that are in `other` (when `wanted`) or not in
    /// it (otherwise).
    fn filtered(&self, other: &Self, wanted: bool) -> (out: Self)
        ensures
            out@ == self@.filter(|x: T| other@.contains(x) == wanted),
    {
        let items = self.iter();
        let mut out = NestedSet::new();
        let mut i: usize = 0;
        self.facts();
        proof {
        }
        while i < items.len()
            invariant
                i <= items@.len(),
                items@.no_duplicates(),
                items@.len() == self@.len(),
                out@ == items@.subrange(0, i as int).to_set().filter(|x: T| other@.contains(x) == wanted),
            decreases items@.len() - i,
        {
            let x = items[i];
            if other.contains(&x) == wanted {
                out.facts();
                proof {
                    let part = items@.subrange(0, i as int);
                    part.lemma_cardinality_of_set();
                    vstd::set_lib::lemma_len_subset(out@, part.to_set());
                }
                out.insert(x);
            }
            proof {
                assert(items@.subrange(0, i + 1) =~= items@.subrange(0, i as int).push(x));
                assert(out@ =~= items@.subrange(0, i + 1).to_set().filter(|x: T| other@.contains(x) == wanted));
            }
            i += 1;
        }
        proof {
            assert(items@.subrange(0, i as int) =~= items@);
            assert(out@ =~= self@.filter(|x: T| other@.contains(x) == wanted));
        }
        out
    }

    /// Every member of either set. Together they must hold fewer than
    /// `usize::MAX` members.
    pub fn union(&self, other: &Self) -> (out: Self)
        requires
            self@.len() + other@.len() < usize::MAX,
        ensures
            out@ == self@.union(other@),
    {
        let mut out = NestedSet::new();
        let mine = self.iter();
        let theirs = other.iter();
        proof {
            assert(out@.len() == 0);
        }
        out.extend(&mine);
        proof {
            assert(out@ =~= self@);
        }
        out.extend(&theirs);
        proof {
            assert(out@ =~= self@.union(other@));
        }
        out
    }

    /// The members of both sets.
    pub fn intersection(&self, other: &Self) -> (out: Self)
        ensures
            out@ == self@.intersect(other@),
    {
        let out = self.filtered(other, true);
        proof {
            assert(out@ =~= self@.intersect(other@));
        }
        out
    }

    /// The members of `self` absent from `other`.
    pub fn difference(&self, other: &Self) -> (out: Self)
        ensures
            out@ == self@.difference(other@),
    {
        let out = self.filtered(other, false);
        proof {
            assert(out@ =~= self@.difference(other@));
        }
        out
    }

    /// The members of exactly one set.
    pub fn symmetric_difference(&self, other: &Self) -> (out: Self)
        requires
            self@.len() + other@.len() < usize::MAX,
        ensures
            out@ == self@.difference(other@).union(other@.difference(self@)),
    {
        let a = self.difference(other);
        let b = other.difference(self);
        self.facts();
        other.facts();
        proof {
            vstd::set_lib::lemma_len_subset(a@, self@);
            vstd::set_lib::lemma_len_subset(b@, other@);
        }
        a.union(&b)
    }

    /// Whether every member of `self` is in `other`.
    pub fn is_subset(&self, other: &Self) -> (sub: bool)
        ensures
            sub == self@.subset_of(other@),
    {
        let items = self.iter();
        self.facts();
        other.facts();
        proof {
        }
        if self.len() > other.len() {
            proof {
                if self@.subset_of(other@) {
                    vstd::set_lib::lemma_len_subset(self@, other@);
                }
            }
            return false;
        }
        let mut i: usize = 0;
        while i < items.len()
            invariant
                i <= items@.len(),
                items@.to_set() == self@,
                forall|j: int| 0 <= j < i ==> other@.contains(#[trigger] items@[j]),
            decreases items@.len() - i,
        {
            if !other.contains(&items[i]) {
                proof {
                    assert(items@.to_set().contains(items@[i as int]));
                }
                return false;
            }
            i += 1;
        }
        proof {
            assert forall|x: T| self@.contains(x) implies other@.contains(x) by {
                assert(items@.to_set().contains(x));
                let j = choose|j: int| 0 <= j < items@.len() && items@[j] == x;
            }
        }
        true
    }

    /// Whether every member of `other` is in `self`.
    pub fn is_superset(&self, other: &Self) -> (sup: bool)
        ensures
            sup == other@.subset_of(self@),
    {
        other.is_subset(self)
    }

    /// Whether the sets have no member in common.
    pub fn is_disjoint(&self, other: &Self) -> (disjoint: bool)
        ensures
            disjoint == self@.disjoint(other@),
    {
        let items = self.iter();
        let mut i: usize = 0;
        while i < items.len()
            invariant
                i <= items@.len(),
                items@.to_set() == self@,
                forall|j: int| 0 <= j < i ==> !other@.contains(#[trigger] items@[j]),
            decreases items@.len() - i,
        {
            if other.contains(&items[i]) {
                proof {
                    assert(items@.to_set().contains(items@[i as int]));
                }
                return false;
            }
            i += 1;
        }
        proof {
            assert forall|x: T| self@.contains(x) implies !other@.contains(x) by {
                assert(items@.to_set().contains(x));
                let j = choose|j: int| 0 <= j < items@.len() && items@[j] == x;
            }
        }
        true
    }

    /// Whether both sets have the same members.
    pub fn equals(&self, other: &Self) -> (same: bool)
        ensures
            same == (self@ == other@),
    {
        self.facts();
        other.facts();
        proof {
        }
        let same = self.len() == other.len() && self.is_subset(other);
        proof {
            if same {
                vstd::set_lib::lemma_subset_equality(self@, other@);
            }
        }
        same
    }
}

impl<T: Key> Default for NestedSet<T> {
    fn default() -> (set: Self)
        ensures
            set@ == Set::<T>::empty(),
    {
        NestedSet::new()
    }
}

impl<T: Key> Collection for NestedSet<T> {
    type Item = T;

    open spec fn listed(&self) -> Seq<T> {
        self.listing()
    }

    fn len(&self) -> usize {
        NestedSet::len(self)
    }

    fn contains(&self, item: &T) -> bool {
        proof {
            use_type_invariant(self);
            lemma_root_list(self.root);
        }
        NestedSet::contains(self, item)
    }

    fn elements(&self) -> Vec<T> {
        self.iter()
    }
}

impl<T: Key> CollectionInsert for NestedSet<T> {
    /// Adds the item, unless the set already holds `usize::MAX` members.
    fn insert(&mut self, item: T) -> (added: bool)
        ensures
            added == (old(self)@.len() < usize::MAX && !old(self)@.contains(item)),
            final(self)@ == (if old(self)@.len() < usize::MAX { old(self)@.insert(item) } else { old(self)@ }),
    {
        if NestedSet::len(self) < usize::MAX {
            NestedSet::insert(self, item)
        } else {
            false
        }
    }
}

impl<T: Key> CollectionRemove for NestedSet<T> {
    fn remove(&mut self, item: &T) -> bool {
        NestedSet::remove(self, item)
    }

    fn clear(&mut self) {
        NestedSet::clear(self)
    }
}

impl<T: Key> UniqueCollection for NestedSet<T> {

}

impl<T: Key> Choose for NestedSet<T> {

}

} // verus!
