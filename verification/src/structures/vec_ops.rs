//! Searching and editing vectors of keys, with the facts about sequences
//! without repeats that the structures rely on.
use vstd::prelude::*;
use super::traits::key::Key;

verus! {

broadcast use {vstd::seq_lib::group_seq_properties, vstd::set::group_set_axioms, vstd::seq_lib::seq_to_set_is_finite};

/// Position of the first occurrence of `item`.
pub fn position_of<T: Key>(items: &Vec<T>, item: &T) -> (found: Option<usize>)
    ensures
        match found {
            Some(i) => i < items@.len() && items@[i as int] == *item && forall|j: int|
                0 <= j < i ==> items@[j] != *item,
            None => !items@.contains(*item),
        },
{
    let mut i: usize = 0;
    while i < items.len()
        invariant
            i <= items@.len(),
            forall|j: int| 0 <= j < i ==> items@[j] != *item,
        decreases items@.len() - i,
    {
        if items[i].key_eq(item) {
            return Some(i);
        }
        i += 1;
    }
    None
}

/// Position of the last occurrence of `item`.
pub fn last_position_of<T: Key>(items: &Vec<T>, item: &T) -> (found: Option<usize>)
    ensures
        match found {
            Some(i) => i < items@.len() && items@[i as int] == *item && forall|j: int|
                i < j < items@.len() ==> items@[j] != *item,
            None => !items@.contains(*item),
        },
{
    let mut i: usize = items.len();
    while i > 0
        invariant
            i <= items@.len(),
            forall|j: int| i <= j < items@.len() ==> items@[j] != *item,
        decreases i,
    {
        if items[i - 1].key_eq(item) {
            return Some(i - 1);
        }
        i -= 1;
    }
    None
}

/// Whether `item` occurs in `items`.
pub fn vec_contains<T: Key>(items: &Vec<T>, item: &T) -> (found: bool)
    ensures
        found == items@.contains(*item),
{
    position_of(items, item).is_some()
}

/// Whether `needle` appears in `haystack` as a run of consecutive elements.
pub open spec fn window_in<T>(needle: Seq<T>, haystack: Seq<T>) -> bool {
    needle.len() == 0 || exists|start: int|
        0 <= start && start + needle.len() <= haystack.len()
            && #[trigger] haystack.subrange(start, start + needle.len()) == needle
}

/// Whether the elements of `needle` appear consecutively, in order, in
/// `haystack`.
pub fn is_window<T: Key>(needle: &Vec<T>, haystack: &Vec<T>) -> (found: bool)
    ensures
        found == window_in(needle@, haystack@),
{
    let n = needle.len();
    if n == 0 {
        return true;
    }
    if n > haystack.len() {
        proof {
            assert forall|start: int| 0 <= start && start + n <= haystack@.len() implies
                #[trigger] haystack@.subrange(start, start + n) != needle@ by {}
        }
        return false;
    }
    let last = haystack.len() - n;
    let mut start: usize = 0;
    while start <= last
        invariant
            n == needle@.len(),
            0 < n <= haystack@.len(),
            last == haystack.len() - n,
            start <= last + 1,
            forall|s: int| 0 <= s < start ==> #[trigger] haystack@.subrange(s, s + n) != needle@,
        decreases haystack@.len() + 1 - start,
    {
        let mut j: usize = 0;
        let mut same = true;
        while j < n && same
            invariant
                n == needle@.len(),
                start + n <= haystack.len(),
                j <= n,
                same == forall|k: int| 0 <= k < j ==> haystack@[start + k] == needle@[k],
            decreases n - j,
        {
            if !haystack[start + j].key_eq(&needle[j]) {
                same = false;
            }
            j += 1;
        }
        proof {
            let w = haystack@.subrange(start as int, start + n);
            if same {
                assert forall|k: int| 0 <= k < n implies #[trigger] w[k] == needle@[k] by {
                    assert(haystack@[start + k] == needle@[k]);
                }
                assert(w =~= needle@);
            } else {
                let k = choose|k: int| 0 <= k < j && haystack@[start + k] != needle@[k];
                assert(w[k] == haystack@[start + k]);
            }
        }
        if same {
            return true;
        }
        start += 1;
    }
    proof {
        assert forall|s: int| 0 <= s && s + n <= haystack@.len() implies
            #[trigger] haystack@.subrange(s, s + n) != needle@ by {}
    }
    false
}

/// A fresh vector holding the same elements in the same order.
pub fn copy_vec<T: Copy>(items: &Vec<T>) -> (out: Vec<T>)
    ensures
        out@ == items@,
{
    let mut out: Vec<T> = Vec::with_capacity(items.len());
    let mut i: usize = 0;
    while i < items.len()
        invariant
            i <= items@.len(),
            out@ == items@.subrange(0, i as int),
        decreases items@.len() - i,
    {
        out.push(items[i]);
        proof {
            assert(items@.subrange(0, i + 1) =~= items@.subrange(0, i as int).push(items@[i as int]));
        }
        i += 1;
    }
    proof {
        assert(items@.subrange(0, items@.len() as int) =~= items@);
    }
    out
}

/// Removing one position from a sequence without repeats leaves a sequence
/// without repeats whose members are the old ones less the removed value.
pub proof fn lemma_remove_unique<T>(s: Seq<T>, i: int)
    requires
        s.no_duplicates(),
        0 <= i < s.len(),
    ensures
        s.remove(i).no_duplicates(),
        s.remove(i).to_set() =~= s.to_set().remove(s[i]),
        s.remove(i).len() == s.len() - 1,
        forall|x: T| s.remove(i).contains(x) <==> (s.contains(x) && x != s[i]),
{
    let r = s.remove(i);
    assert forall|a: int, b: int| 0 <= a < r.len() && 0 <= b < r.len() && a != b implies r[a]
        != r[b] by {
        let sa = if a < i { a } else { a + 1 };
        let sb = if b < i { b } else { b + 1 };
        assert(r[a] == s[sa]);
        assert(r[b] == s[sb]);
    }
    assert forall|x: T| r.contains(x) <==> (s.contains(x) && x != s[i]) by {
        if r.contains(x) {
            let k = choose|k: int| 0 <= k < r.len() && r[k] == x;
            let sk = if k < i { k } else { k + 1 };
            assert(s[sk] == x);
            assert(sk != i);
        }
        if s.contains(x) && x != s[i] {
            let k = choose|k: int| 0 <= k < s.len() && s[k] == x;
            if k < i {
                assert(r[k] == x);
            } else {
                assert(k != i);
                assert(r[k - 1] == x);
            }
        }
    }
}

/// Appending a value that is not yet present keeps a sequence without
/// repeats.
pub proof fn lemma_push_unique<T>(s: Seq<T>, x: T)
    requires
        s.no_duplicates(),
        !s.contains(x),
    ensures
        s.push(x).no_duplicates(),
        s.push(x).to_set() =~= s.to_set().insert(x),
        forall|y: T| s.push(x).contains(y) <==> (s.contains(y) || y == x),
{
    let p = s.push(x);
    assert forall|a: int, b: int| 0 <= a < p.len() && 0 <= b < p.len() && a != b implies p[a]
        != p[b] by {
        if a < s.len() && b < s.len() {
            assert(p[a] == s[a] && p[b] == s[b]);
        } else if a < s.len() {
            assert(p[a] == s[a]);
        } else if b < s.len() {
            assert(p[b] == s[b]);
        }
    }
    assert forall|y: T| p.contains(y) <==> (s.contains(y) || y == x) by {
        if p.contains(y) {
            let k = choose|k: int| 0 <= k < p.len() && p[k] == y;
            if k < s.len() {
                assert(s[k] == y);
            }
        }
        if s.contains(y) {
            let k = choose|k: int| 0 <= k < s.len() && s[k] == y;
            assert(p[k] == y);
        }
        if y == x {
            assert(p[s.len() as int] == y);
        }
    }
}

/// A sequence without repeats has as many members as positions.
pub proof fn lemma_unique_len<T>(s: Seq<T>)
    requires
        s.no_duplicates(),
    ensures
        s.to_set().len() == s.len(),
        s.to_set().finite(),
{
    s.unique_seq_to_set();
}

} // verus!

verus! {

/// Inserting a value that is not yet present anywhere keeps a sequence
/// without repeats.
pub proof fn lemma_insert_unique<T>(s: Seq<T>, i: int, x: T)
    requires
        s.no_duplicates(),
        !s.contains(x),
        0 <= i <= s.len(),
    ensures
        s.insert(i, x).no_duplicates(),
        s.insert(i, x).to_set() =~= s.to_set().insert(x),
        forall|y: T| s.insert(i, x).contains(y) <==> (s.contains(y) || y == x),
{
    let r = s.insert(i, x);
    assert forall|a: int, b: int| 0 <= a < r.len() && 0 <= b < r.len() && a != b implies r[a]
        != r[b] by {
        if a != i && b != i {
            let sa = if a < i { a } else { a - 1 };
            let sb = if b < i { b } else { b - 1 };
            assert(r[a] == s[sa]);
            assert(r[b] == s[sb]);
        } else if a == i {
            let sb = if b < i { b } else { b - 1 };
            assert(r[b] == s[sb]);
        } else {
            let sa = if a < i { a } else { a - 1 };
            assert(r[a] == s[sa]);
        }
    }
    assert forall|y: T| r.contains(y) <==> (s.contains(y) || y == x) by {
        if r.contains(y) {
            let k = choose|k: int| 0 <= k < r.len() && r[k] == y;
            if k < i {
                assert(s[k] == y);
            } else if k > i {
                assert(s[k - 1] == y);
            }
        }
        if s.contains(y) {
            let k = choose|k: int| 0 <= k < s.len() && s[k] == y;
            if k < i {
                assert(r[k] == y);
            } else {
                assert(r[k + 1] == y);
            }
        }
        if y == x {
            assert(r[i] == y);
        }
    }
}

/// Overwriting one position with a value found nowhere else keeps a
/// sequence without repeats.
pub proof fn lemma_update_unique<T>(s: Seq<T>, i: int, x: T)
    requires
        s.no_duplicates(),
        0 <= i < s.len(),
        forall|j: int| 0 <= j < s.len() && j != i ==> s[j] != x,
    ensures
        s.update(i, x).no_duplicates(),
        forall|y: T| s.update(i, x).contains(y) <==> ((s.contains(y) && y != s[i]) || y == x),
{
    let r = s.update(i, x);
    assert forall|y: T| r.contains(y) <==> ((s.contains(y) && y != s[i]) || y == x) by {
        if r.contains(y) {
            let k = choose|k: int| 0 <= k < r.len() && r[k] == y;
            if k != i {
                assert(s[k] == y);
            }
        }
        if s.contains(y) && y != s[i] {
            let k = choose|k: int| 0 <= k < s.len() && s[k] == y;
            assert(k != i);
            assert(r[k] == y);
        }
        if y == x {
            assert(r[i] == y);
        }
    }
}

/// Exchanging two positions keeps a sequence without repeats and keeps its
/// members.
pub proof fn lemma_swap_unique<T>(s: Seq<T>, a: int, b: int)
    requires
        s.no_duplicates(),
        0 <= a < s.len(),
        0 <= b < s.len(),
    ensures
        s.update(a, s[b]).update(b, s[a]).no_duplicates(),
        forall|y: T| s.update(a, s[b]).update(b, s[a]).contains(y) <==> s.contains(y),
{
    let r = s.update(a, s[b]).update(b, s[a]);
    assert forall|p: int, q: int| 0 <= p < r.len() && 0 <= q < r.len() && p != q implies r[p]
        != r[q] by {
        let sp = if p == a { b } else if p == b { a } else { p };
        let sq = if q == a { b } else if q == b { a } else { q };
        assert(r[p] == s[sp]);
        assert(r[q] == s[sq]);
    }
    assert forall|y: T| r.contains(y) <==> s.contains(y) by {
        if r.contains(y) {
            let k = choose|k: int| 0 <= k < r.len() && r[k] == y;
            let sk = if k == a { b } else if k == b { a } else { k };
            assert(s[sk] == y);
        }
        if s.contains(y) {
            let k = choose|k: int| 0 <= k < s.len() && s[k] == y;
            let rk = if k == a { b } else if k == b { a } else { k };
            assert(r[rk] == y);
        }
    }
}

/// A prefix of a sequence without repeats does not contain the element that
/// follows it.
pub proof fn lemma_prefix_excludes_next<T>(s: Seq<T>, i: int)
    requires
        s.no_duplicates(),
        0 <= i < s.len(),
    ensures
        !s.subrange(0, i).contains(s[i]),
        s.subrange(0, i + 1) == s.subrange(0, i).push(s[i]),
{
    if s.subrange(0, i).contains(s[i]) {
        let k = choose|k: int| 0 <= k < i && s.subrange(0, i)[k] == s[i];
        assert(s[k] == s[i]);
    }
    assert(s.subrange(0, i + 1) =~= s.subrange(0, i).push(s[i]));
}

/// Any subrange of a sequence without repeats has no repeats.
pub proof fn lemma_subrange_unique<T>(s: Seq<T>, a: int, b: int)
    requires
        s.no_duplicates(),
        0 <= a <= b <= s.len(),
    ensures
        s.subrange(a, b).no_duplicates(),
{
    let r = s.subrange(a, b);
    assert forall|p: int, q: int| 0 <= p < r.len() && 0 <= q < r.len() && p != q implies r[p]
        != r[q] by {
        assert(r[p] == s[a + p]);
        assert(r[q] == s[a + q]);
    }
}

} // verus!

verus! {

/// Rearranging a sequence without repeats cannot create repeats, and keeps
/// its members.
pub proof fn lemma_permutation_unique<T>(s: Seq<T>, r: Seq<T>)
    requires
        s.no_duplicates(),
        r.to_multiset() == s.to_multiset(),
    ensures
        r.no_duplicates(),
        forall|x: T| r.contains(x) <==> s.contains(x),
{
    broadcast use vstd::seq_lib::group_to_multiset_ensures;
    s.lemma_multiset_has_no_duplicates();
    r.lemma_multiset_has_no_duplicates_conv();
    assert forall|x: T| r.contains(x) <==> s.contains(x) by {
        assert(r.to_multiset().contains(x) == r.contains(x));
        assert(s.to_multiset().contains(x) == s.contains(x));
    }
}

} // verus!
