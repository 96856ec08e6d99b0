//! Random reordering and selection of positions.
use vstd::prelude::*;
use crate::random::{Random, XoState, bounded_draw, redraw_limit, xo_step, state_drawing, lemma_bounded_draw_below};
use super::vec_ops::lemma_swap_unique;

verus! {

broadcast use {vstd::seq_lib::group_to_multiset_ensures, vstd::multiset::group_multiset_axioms};

/// The sequence with positions `a` and `b` exchanged.
pub open spec fn swapped<T>(s: Seq<T>, a: int, b: int) -> Seq<T> {
    s.update(a, s[b]).update(b, s[a])
}

/// Exchanging two positions keeps the same values with the same counts.
pub proof fn lemma_swap_multiset<T>(s: Seq<T>, a: int, b: int)
    requires
        0 <= a < s.len(),
        0 <= b < s.len(),
    ensures
        swapped(s, a, b).to_multiset() == s.to_multiset(),
        swapped(s, a, b).len() == s.len(),
{
    let u = s.update(a, s[b]);
    assert(u[b] == (if a == b { s[b] } else { s[b] }));
    assert(u.to_multiset() == s.to_multiset().insert(s[b]).remove(s[a]));
    assert(u.update(b, s[a]).to_multiset() == u.to_multiset().insert(s[a]).remove(u[b]));
    assert(s.to_multiset().insert(s[b]).remove(s[a]).insert(s[a]).remove(s[b]) =~= s.to_multiset()) by {
        assert(s.to_multiset().contains(s[a]));
        assert(s.to_multiset().contains(s[b]));
    }
}

/// The Fisher-Yates pass over the first `count` positions of `s` from
/// generator state `state`: the last of them swaps with a position drawn
/// uniformly among them, then the pass goes on with one position fewer.
/// Returns the reordered sequence and the generator state after the draws.
pub open spec fn fisher_yates<T>(s: Seq<T>, state: XoState, count: nat) -> (Seq<T>, XoState)
    decreases count,
{
    if count <= 1 {
        (s, state)
    } else {
        let top = (count - 1) as nat;
        let draw = bounded_draw(state, count as u64, redraw_limit());
        fisher_yates(swapped(s, top as int, draw.0 as int), draw.1, top)
    }
}

/// Fisher-Yates shuffle: every position from the last down swaps with a
/// uniformly chosen position at or before it.
pub fn shuffle<T: Copy>(items: &mut Vec<T>, random: &mut Random)
    ensures
        (final(items)@, final(random).state()) == fisher_yates(old(items)@, old(random).state(), old(items)@.len()),
        final(items)@.to_multiset() == old(items)@.to_multiset(),
        final(items)@.len() == old(items)@.len(),
        final(random).seed_spec() == old(random).seed_spec(),
{
    let mut last: usize = items.len();
    while last > 1
        invariant
            last <= items@.len(),
            items@.to_multiset() == old(items)@.to_multiset(),
            items@.len() == old(items)@.len(),
            random.seed_spec() == old(random).seed_spec(),
            fisher_yates(items@, random.state(), last as nat) == fisher_yates(old(items)@, old(random).state(), old(items)@.len()),
        decreases last,
    {
        last = last - 1;
        let other = random.uniform_index(last + 1);
        let a = items[last];
        let b = items[other];
        proof {
            lemma_swap_multiset(items@, last as int, other as int);
        }
        let ghost before = items@;
        items.set(last, b);
        items.set(other, a);
        proof {
            assert(items@ =~= swapped(before, last as int, other as int));
        }
    }
}

/// The positions `0..len` in order.
pub open spec fn identity_positions(len: nat) -> Seq<usize> {
    Seq::new(len, |j: int| j as usize)
}

/// The Fisher-Yates pass run from the front over `positions`, from position
/// `from` up to `count`: position `p` swaps with a position drawn uniformly
/// in `p..len`. Returns the reordered positions and the generator state
/// after the draws.
pub open spec fn front_draw(positions: Seq<usize>, state: XoState, from: nat, count: nat) -> (Seq<usize>, XoState)
    decreases count - from,
{
    if from >= count || from >= positions.len() {
        (positions, state)
    } else {
        let draw = bounded_draw(state, (positions.len() - from) as u64, redraw_limit());
        front_draw(swapped(positions, from as int, from + draw.0), draw.1, from + 1, count)
    }
}

/// The positions that `uniform_indices` picks with a generator in state
/// `state`: the first `min(k, len)` entries of the front Fisher-Yates pass
/// over `0..len`, with the generator state after the draws.
pub open spec fn drawn_indices(len: nat, k: nat, state: XoState) -> (Seq<usize>, XoState) {
    let count = if k < len { k } else { len };
    let pass = front_draw(identity_positions(len), state, 0, count);
    (pass.0.take(count as int), pass.1)
}

/// `min(k, len)` distinct positions below `len`, drawn uniformly at random
/// in random order.
pub fn draw_indices(len: usize, k: usize, random: &mut Random) -> (indices: Vec<usize>)
    ensures
        (indices@, final(random).state()) == drawn_indices(len as nat, k as nat, old(random).state()),
        final(random).seed_spec() == old(random).seed_spec(),
        indices@.len() == (if k < len { k } else { len }),
        indices@.no_duplicates(),
        forall|i: int| 0 <= i < indices@.len() ==> indices@[i] < len,
{
    let k = if k < len { k } else { len };
    let mut positions: Vec<usize> = Vec::with_capacity(len);
    let mut i: usize = 0;
    while i < len
        invariant
            i <= len,
            positions@.len() == i,
            forall|j: int| 0 <= j < i ==> positions@[j] == j,
        decreases len - i,
    {
        positions.push(i);
        i += 1;
    }
    proof {
        assert(positions@.no_duplicates());
        assert(positions@ =~= identity_positions(len as nat));
    }
    let mut indices: Vec<usize> = Vec::with_capacity(k);
    let mut position: usize = 0;
    while position < k
        invariant
            position <= k <= len,
            positions@.len() == len,
            positions@.no_duplicates(),
            forall|j: int| 0 <= j < len ==> positions@[j] < len,
            indices@ == positions@.subrange(0, position as int),
            front_draw(positions@, random.state(), position as nat, k as nat)
                == front_draw(identity_positions(len as nat), old(random).state(), 0, k as nat),
            random.seed_spec() == old(random).seed_spec(),
        decreases k - position,
    {
        let other = position + random.uniform_index(len - position);
        let a = positions[position];
        let b = positions[other];
        proof {
            lemma_swap_unique(positions@, position as int, other as int);
        }
        let ghost before = positions@;
        positions.set(position, b);
        positions.set(other, a);
        indices.push(b);
        proof {
            assert(positions@ =~= swapped(before, position as int, other as int));
            assert(indices@ =~= positions@.subrange(0, position + 1));
        }
        position += 1;
    }
    proof {
        let r = indices@;
        assert forall|p: int, q: int| 0 <= p < r.len() && 0 <= q < r.len() && p != q implies r[p] != r[q] by {
            assert(r[p] == positions@[p]);
            assert(r[q] == positions@[q]);
        }
        assert(indices@ =~= positions@.take(k as int));
    }
    indices
}

/// Up to `k` distinct positions below `len`: the first `k` without a
/// generator, a uniformly random selection in random order with one
/// (`draw_indices`).
pub fn uniform_indices(len: usize, k: usize, random: Option<&mut Random>) -> (indices: Vec<usize>)
    ensures
        indices@.len() == (if k < len { k } else { len }),
        indices@.no_duplicates(),
        forall|i: int| 0 <= i < indices@.len() ==> indices@[i] < len,
        random is None ==> forall|i: int| 0 <= i < indices@.len() ==> indices@[i] == i,
        random matches Some(r) ==> indices@ == drawn_indices(len as nat, k as nat, r.state()).0,
{
    match random {
        None => {
            let k = if k < len { k } else { len };
            let mut indices: Vec<usize> = Vec::with_capacity(k);
            let mut i: usize = 0;
            while i < k
                invariant
                    i <= k <= len,
                    indices@.len() == i,
                    forall|j: int| 0 <= j < i ==> indices@[j] == j,
                decreases k - i,
            {
                indices.push(i);
                i += 1;
            }
            indices
        },
        Some(random) => draw_indices(len, k, random),
    }
}


/// A Fisher-Yates pass keeps the length and leaves every position from
/// `count` on in place.
pub proof fn lemma_fisher_yates_keeps_tail<T>(s: Seq<T>, state: XoState, count: nat)
    requires
        count <= s.len(),
        count <= u64::MAX,
    ensures
        fisher_yates(s, state, count).0.len() == s.len(),
        forall|k: int| count <= k < s.len() ==> #[trigger] fisher_yates(s, state, count).0[k] == s[k],
    decreases count,
{
    if count > 1 {
        let top = (count - 1) as nat;
        let range = count as u64;
        let draw = bounded_draw(state, range, redraw_limit());
        lemma_bounded_draw_below(state, range, redraw_limit());
        let t = swapped(s, top as int, draw.0 as int);
        lemma_fisher_yates_keeps_tail(t, draw.1, top);
    }
}

/// Each step of the pass draws the partner of the last open position from
/// all open positions, itself included: for every position `j` below
/// `count` some generator state swaps position `count - 1` with `j` and
/// goes on from there.
pub proof fn lemma_fisher_yates_any_partner<T>(s: Seq<T>, count: nat, j: nat)
    requires
        2 <= count,
        j < count,
        count <= u64::MAX,
    ensures
        exists|state: XoState, next: XoState| #![trigger fisher_yates(s, state, count), xo_step(next)] fisher_yates(s, state, count)
            == fisher_yates(swapped(s, count - 1, j as int), next, (count - 1) as nat),
{
    let range = count as u64;
    let state = state_drawing(range, j as u64);
    assert(bounded_draw(state, range, redraw_limit()) == (j as u64, xo_step(state)));
    assert(fisher_yates(s, state, count) == fisher_yates(swapped(s, count - 1, j as int), xo_step(state), (count - 1) as nat));
}

/// Any element can end up last: for every position `j` some generator
/// state makes the shuffle put `s[j]` at the end.
pub proof fn lemma_fisher_yates_any_last<T>(s: Seq<T>, j: int)
    requires
        0 <= j < s.len(),
        s.len() <= u64::MAX,
    ensures
        exists|state: XoState| #[trigger] fisher_yates(s, state, s.len()).0[s.len() - 1] == s[j],
{
    let n = s.len();
    if n == 1 {
        let state = (0u64, 0u64, 0u64, 0u64);
        assert(fisher_yates(s, state, n).0[n - 1] == s[j]);
    } else {
        let state = state_drawing(n as u64, j as u64);
        assert(bounded_draw(state, n as u64, redraw_limit()) == (j as u64, xo_step(state)));
        let t = swapped(s, n - 1, j);
        lemma_fisher_yates_keeps_tail(t, xo_step(state), (n - 1) as nat);
        assert(fisher_yates(s, state, n).0[n - 1] == t[n - 1]);
    }
}

/// Two items can be left as they are: some generator state makes the
/// shuffle of a pair the identity.
pub proof fn lemma_fisher_yates_pair_can_stay<T>(s: Seq<T>)
    requires
        s.len() == 2,
    ensures
        exists|state: XoState| #[trigger] fisher_yates(s, state, 2).0 == s,
{
    let state = state_drawing(2, 1);
    assert(bounded_draw(state, 2, redraw_limit()) == (1u64, xo_step(state)));
    assert(swapped(s, 1, 1) =~= s);
    assert(fisher_yates(swapped(s, 1, 1), xo_step(state), 1) == (swapped(s, 1, 1), xo_step(state)));
    assert(fisher_yates(s, state, 2) == fisher_yates(swapped(s, 1, 1), xo_step(state), 1));
    assert(fisher_yates(s, state, 2).0 == s);
}

/// A front pass keeps the length and leaves every position before `from`
/// in place.
pub proof fn lemma_front_draw_keeps_head(positions: Seq<usize>, state: XoState, from: nat, count: nat)
    requires
        positions.len() <= u64::MAX,
    ensures
        front_draw(positions, state, from, count).0.len() == positions.len(),
        forall|i: int| 0 <= i < from && i < positions.len() ==> #[trigger] front_draw(positions, state, from, count).0[i] == positions[i],
    decreases count - from,
{
    if !(from >= count || from >= positions.len()) {
        let range = (positions.len() - from) as u64;
        let draw = bounded_draw(state, range, redraw_limit());
        lemma_bounded_draw_below(state, range, redraw_limit());
        let t = swapped(positions, from as int, from + draw.0);
        lemma_front_draw_keeps_head(t, draw.1, from + 1, count);
    }
}

/// Each step of the front pass draws the partner of position `from` from
/// every position at or after it: for every `j` in `from..len` some
/// generator state swaps `from` with `j` and goes on from there.
pub proof fn lemma_front_draw_any_partner(positions: Seq<usize>, from: nat, count: nat, j: nat)
    requires
        from < count,
        from <= j < positions.len(),
        positions.len() <= u64::MAX,
    ensures
        exists|state: XoState, next: XoState| #![trigger front_draw(positions, state, from, count), xo_step(next)] front_draw(positions, state, from, count)
            == front_draw(swapped(positions, from as int, j as int), next, from + 1, count),
{
    let range = (positions.len() - from) as u64;
    let state = state_drawing(range, (j - from) as u64);
    assert(bounded_draw(state, range, redraw_limit()) == ((j - from) as u64, xo_step(state)));
    assert(front_draw(positions, state, from, count) == front_draw(swapped(positions, from as int, j as int), xo_step(state), from + 1, count));
}

/// Every index below `len` can be drawn: for each `j` some generator state
/// makes `j` the first of the drawn indices.
pub proof fn lemma_drawn_indices_any_first(len: nat, k: nat, j: nat)
    requires
        0 < k,
        j < len,
        len <= u64::MAX,
        len <= usize::MAX,
    ensures
        exists|state: XoState| #[trigger] drawn_indices(len, k, state).0[0] == j,
{
    let count = if k < len { k } else { len };
    let ids = identity_positions(len);
    let state = state_drawing(len as u64, j as u64);
    assert(bounded_draw(state, len as u64, redraw_limit()) == (j as u64, xo_step(state)));
    let t = swapped(ids, 0, j as int);
    assert(front_draw(ids, state, 0, count) == front_draw(t, xo_step(state), 1, count));
    lemma_front_draw_keeps_head(t, xo_step(state), 1, count);
    assert(ids[j as int] == j);
    assert(t[0] == j);
    assert(drawn_indices(len, k, state).0[0] == j);
}

} // verus!
