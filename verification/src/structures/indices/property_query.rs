//! Assigns properties to elements and answers queries over them.
//!
//! Each property has a kind that decides its storage (see
//! `property_storage`). Queries are `Expr` trees; every evaluated query is
//! cached, and a write to a property drops only the cached results that
//! read it.
use vstd::prelude::*;
use crate::structures::traits::key::Key;
use crate::structures::traits::collection::Collection;
use crate::structures::relation::{domain, image, preimage, range};
use crate::structures::entries::Entries;
use crate::structures::collections::sets::unordered_set::UnorderedSet;
use super::property_storage::{
    Storage, PropertyKind, Cardinality, Uniqueness, kind_of, pairs_of, members_of, cardinality_of,
    uniqueness_of, after_put_single, after_put_value,
};
use super::query_expr::{
    Expr, Facts, eval, eval_all, eval_any, deps, reads_universe, agree_on, lemma_eval_frame,
    same_expr, lemma_same_expr,
};

verus! {

broadcast use {vstd::set::group_set_axioms, vstd::map::group_map_axioms, vstd::seq_lib::group_seq_properties};

/// How `fuse` treats properties both sides have.
#[derive(Clone, Copy, Debug, PartialEq, Eq, Structural)]
pub enum FuseMode {
    /// Single values already set here are kept; multi values are added to.
    Merge,
    /// The other side's values replace these.
    Overwrite,
}

/// A property registered with different kinds on the two sides of a fuse.
#[derive(Debug, PartialEq, Eq, Structural)]
pub struct FuseError<P> {
    /// Property whose registered kinds disagree.
    pub property: P,
    /// Kind already registered in the destination query.
    pub current: PropertyKind,
    /// Incompatible kind registered in the incoming query.
    pub incoming: PropertyKind,
}

/// A cached query result, with what the query reads.
pub struct CacheEntry<E, P, V> {
    expr: Expr<P, V>,
    result: UnorderedSet<E>,
    reads: UnorderedSet<P>,
    reads_universe: bool,
}

/// The facts a set of storages and a universe hold.
pub open spec fn facts_of<E: Key, P, V: Key>(storages: Map<P, Storage<E, V>>, universe: Set<E>) -> Facts<E, P, V> {
    Facts {
        members: storages.map_values(|s: Storage<E, V>| members_of(s)),
        pairs: storages.map_values(|s: Storage<E, V>| pairs_of(s)),
        universe,
    }
}

/// The registered kind of each property.
pub open spec fn kinds_of<E, P, V>(storages: Map<P, Storage<E, V>>) -> Map<P, PropertyKind> {
    storages.map_values(|s: Storage<E, V>| kind_of(s))
}

/// Every cached result is what its expression means under `facts`.
spec fn cache_valid<E: Key, P: Key, V: Key>(cache: Seq<CacheEntry<E, P, V>>, facts: Facts<E, P, V>) -> bool {
    forall|i: int| 0 <= i < cache.len() ==> {
        &&& (#[trigger] cache[i]).result@ == eval(cache[i].expr, facts)
        &&& cache[i].reads@ == deps(cache[i].expr)
        &&& cache[i].reads_universe == reads_universe(cache[i].expr)
    }
}

/// The elements that hold at least one property.
pub open spec fn holders<E, P, V>(facts: Facts<E, P, V>) -> Set<E> {
    Set::new(|e: E| exists|p: P| #[trigger] facts.members.contains_key(p) && facts.members[p].contains(e))
}

/// The members of `p`; none when `p` is unregistered.
pub open spec fn members_at<E, P, V>(f: Facts<E, P, V>, p: P) -> Set<E> {
    if f.members.contains_key(p) { f.members[p] } else { Set::empty() }
}

/// The pairs of `p`; none when `p` is unregistered.
pub open spec fn pairs_at<E, P, V>(f: Facts<E, P, V>, p: P) -> Set<(E, V)> {
    if f.pairs.contains_key(p) { f.pairs[p] } else { Set::empty() }
}

/// The kind `p` has once registered with `default` unless it already was.
pub open spec fn kind_after<P>(kinds: Map<P, PropertyKind>, p: P, default: PropertyKind) -> PropertyKind {
    if kinds.contains_key(p) { kinds[p] } else { default }
}

/// The facts with `p` registered (keeping what it holds) and `e` in the
/// universe.
pub open spec fn facts_touched<E, P, V>(f: Facts<E, P, V>, e: E, p: P) -> Facts<E, P, V> {
    Facts {
        members: f.members.insert(p, members_at(f, p)),
        pairs: f.pairs.insert(p, pairs_at(f, p)),
        universe: f.universe.insert(e),
    }
}

/// The facts after `e` is flagged with `p` of kind `k`: a flag property
/// gains `e`; a valued one is left as it is.
pub open spec fn facts_flagged<E, P, V>(f: Facts<E, P, V>, k: PropertyKind, e: E, p: P) -> Facts<E, P, V> {
    if k == PropertyKind::Flag {
        Facts {
            members: f.members.insert(p, members_at(f, p).insert(e)),
            pairs: f.pairs.insert(p, pairs_at(f, p)),
            universe: f.universe.insert(e),
        }
    } else {
        facts_touched(f, e, p)
    }
}

/// The facts after `e` is given `v` for `p` of kind `k`: as its only
/// value when `single`, as one more value otherwise. A flag property just
/// gains `e`.
pub open spec fn facts_written<E, P, V>(f: Facts<E, P, V>, k: PropertyKind, e: E, p: P, v: V, single: bool) -> Facts<E, P, V> {
    if k == PropertyKind::Flag {
        facts_flagged(f, k, e, p)
    } else {
        let pairs = if single { after_put_single(pairs_at(f, p), k, e, v) } else { after_put_value(pairs_at(f, p), k, e, v) };
        Facts {
            members: f.members.insert(p, domain(pairs)),
            pairs: f.pairs.insert(p, pairs),
            universe: f.universe.insert(e),
        }
    }
}

/// Writing a value adds at most the written element to the holders.
proof fn lemma_written_domain<E, V>(pairs: Set<(E, V)>, k: PropertyKind, e: E, v: V, single: bool)
    ensures
        domain(if single { after_put_single(pairs, k, e, v) } else { after_put_value(pairs, k, e, v) }).subset_of(domain(pairs).insert(e)),
{
    let out = if single { after_put_single(pairs, k, e, v) } else { after_put_value(pairs, k, e, v) };
    assert forall|x: E| domain(out).contains(x) implies domain(pairs).insert(e).contains(x) by {
        let w = choose|w: V| out.contains((x, w));
        if x != e {
            assert(pairs.contains((x, w)));
        }
    }
}

/// The facts after `e` gives up `p`.
pub open spec fn facts_without_member<E, P, V>(f: Facts<E, P, V>, e: E, p: P) -> Facts<E, P, V> {
    Facts {
        members: f.members.insert(p, members_at(f, p).remove(e)),
        pairs: f.pairs.insert(p, pairs_at(f, p).filter(|q: (E, V)| q.0 != e)),
        universe: f.universe,
    }
}

/// The facts after `e` gives up the value `v` of the valued property `p`.
pub open spec fn facts_without_pair<E, P, V>(f: Facts<E, P, V>, e: E, p: P, v: V) -> Facts<E, P, V> {
    Facts {
        members: f.members.insert(p, domain(pairs_at(f, p).remove((e, v)))),
        pairs: f.pairs.insert(p, pairs_at(f, p).remove((e, v))),
        universe: f.universe,
    }
}

/// The facts after `e` leaves with all its properties.
pub open spec fn facts_without_element<E, P, V>(f: Facts<E, P, V>, e: E) -> Facts<E, P, V> {
    Facts {
        members: f.members.map_values(|m: Set<E>| m.remove(e)),
        pairs: f.pairs.map_values(|ps: Set<(E, V)>| ps.filter(|q: (E, V)| q.0 != e)),
        universe: f.universe.remove(e),
    }
}

/// A storage's pairs only name its members.
proof fn lemma_pairs_in_members<E: Key, V: Key>(s: Storage<E, V>)
    ensures
        domain(pairs_of(s)).subset_of(members_of(s)),
{
    if s is Flag {
        assert(domain(pairs_of(s)) =~= Set::<E>::empty());
    }
}

/// The facts after each of `values` is added in turn to `p` (of kind `k`)
/// of `e`.
pub open spec fn facts_adding<E, P, V>(f: Facts<E, P, V>, k: PropertyKind, e: E, p: P, values: Seq<V>) -> Facts<E, P, V>
    decreases values.len(),
{
    if values.len() == 0 {
        f
    } else {
        facts_written(facts_adding(f, k, e, p, values.drop_last()), k, e, p, values.last(), false)
    }
}

/// The schema and facts after `add` gives `e` each pair in turn, each
/// unregistered property becoming `Single`.
pub open spec fn state_adding<E, P, V>(kinds: Map<P, PropertyKind>, f: Facts<E, P, V>, e: E, pairs: Seq<(P, V)>) -> (Map<P, PropertyKind>, Facts<E, P, V>)
    decreases pairs.len(),
{
    if pairs.len() == 0 {
        (kinds, f)
    } else {
        let before = state_adding(kinds, f, e, pairs.drop_last());
        let (p, v) = pairs.last();
        let k = kind_after(before.0, p, PropertyKind::Single);
        (before.0.insert(p, k), facts_written(before.1, k, e, p, v, false))
    }
}

/// Adding values to one property leaves every other property as it was,
/// and adds at most the element to the universe.
proof fn lemma_facts_adding<E, P, V>(f: Facts<E, P, V>, k: PropertyKind, e: E, p: P, values: Seq<V>)
    requires
        f.members.contains_key(p),
        f.pairs.contains_key(p),
    ensures
        facts_adding(f, k, e, p, values).members.dom() == f.members.dom(),
        facts_adding(f, k, e, p, values).pairs.dom() == f.pairs.dom(),
        facts_adding(f, k, e, p, values).universe == (if values.len() == 0 { f.universe } else { f.universe.insert(e) }),
        forall|q: P| q != p && #[trigger] f.members.contains_key(q) ==> facts_adding(f, k, e, p, values).members[q] == f.members[q],
        forall|q: P| q != p && #[trigger] f.pairs.contains_key(q) ==> facts_adding(f, k, e, p, values).pairs[q] == f.pairs[q],
    decreases values.len(),
{
    if values.len() > 0 {
        lemma_facts_adding(f, k, e, p, values.drop_last());
        let g = facts_adding(f, k, e, p, values.drop_last());
        assert(facts_adding(f, k, e, p, values).members.dom() =~= f.members.dom());
        assert(facts_adding(f, k, e, p, values).pairs.dom() =~= f.pairs.dom());
        assert(facts_adding(f, k, e, p, values).universe =~= f.universe.insert(e));
    }
}

/// The kinds registered in turn, the first registration of a property
/// winning.
pub open spec fn kinds_registering<P>(props: Seq<(P, PropertyKind)>) -> Map<P, PropertyKind>
    decreases props.len(),
{
    if props.len() == 0 {
        Map::empty()
    } else {
        let before = kinds_registering(props.drop_last());
        if before.contains_key(props.last().0) { before } else { before.insert(props.last().0, props.last().1) }
    }
}

/// Whether every property of `a` is registered in `b` with the same kind,
/// and everything `a` holds for it, `b` holds too.
pub open spec fn facts_within<E, P, V>(a_kinds: Map<P, PropertyKind>, a: Facts<E, P, V>, b_kinds: Map<P, PropertyKind>, b: Facts<E, P, V>) -> bool {
    forall|p: P| #[trigger] a_kinds.contains_key(p) ==> {
        &&& b_kinds.contains_key(p)
        &&& b_kinds[p] == a_kinds[p]
        &&& (a_kinds[p] == PropertyKind::Flag ==> a.members[p].subset_of(b.members[p]))
        &&& (a_kinds[p] != PropertyKind::Flag ==> a.pairs[p].subset_of(b.pairs[p]))
    }
}

/// Whether some property is registered on both sides with different kinds.
pub open spec fn kinds_conflict<P>(a: Map<P, PropertyKind>, b: Map<P, PropertyKind>) -> bool {
    exists|p: P| #[trigger] a.contains_key(p) && b.contains_key(p) && a[p] != b[p]
}

/// The parts of a query store.
struct Store<E, P, V> {
    storages: Entries<P, Storage<E, V>>,
    universe: UnorderedSet<E>,
    cache: Vec<CacheEntry<E, P, V>>,
}

/// Every holder is in the universe, and the cache is up to date.
spec fn store_wf<E: Key, P: Key, V: Key>(store: Store<E, P, V>) -> bool {
    &&& forall|p: P| #[trigger] store.storages@.contains_key(p) ==> members_of(store.storages@[p]).subset_of(store.universe@)
    &&& cache_valid(store.cache@, facts_of(store.storages@, store.universe@))
}

/// Whether two sets of facts agree on every property other than `changed`.
pub open spec fn agree_except<E, P, V>(a: Facts<E, P, V>, b: Facts<E, P, V>, changed: Option<P>) -> bool {
    forall|q: P|
        #![trigger a.members.contains_key(q)]
        #![trigger b.members.contains_key(q)]
        #![trigger a.pairs.contains_key(q)]
        #![trigger b.pairs.contains_key(q)]
        changed != Some(q) ==> {
        &&& a.members.contains_key(q) == b.members.contains_key(q)
        &&& (a.members.contains_key(q) ==> a.members[q] == b.members[q])
        &&& a.pairs.contains_key(q) == b.pairs.contains_key(q)
        &&& (a.pairs.contains_key(q) ==> a.pairs[q] == b.pairs[q])
    }
}

/// Whether a cache entry may be out of date after a write to `changed`,
/// and to the universe when `universe_changed`.
spec fn stale<E, P, V>(entry: CacheEntry<E, P, V>, changed: Option<P>, universe_changed: bool) -> bool {
    (changed matches Some(p) && entry.reads@.contains(p)) || (universe_changed && entry.reads_universe)
}

/// Whether a cached expression still holds after a change to `changed`
/// (when there is one) and, when `universe_changed`, to the universe: it
/// reads neither.
pub open spec fn still_cached<P, V>(x: Expr<P, V>, changed: Option<P>, universe_changed: bool) -> bool {
    !((changed matches Some(p) && deps(x).contains(p)) || (universe_changed && reads_universe(x)))
}

/// The cached expressions that survive such a change, in their order.
pub open spec fn surviving<P, V>(cached: Seq<Expr<P, V>>, changed: Option<P>, universe_changed: bool) -> Seq<Expr<P, V>> {
    cached.filter(|x: Expr<P, V>| still_cached(x, changed, universe_changed))
}

/// A change to nothing keeps every cached expression.
proof fn lemma_surviving_nothing<P, V>(cached: Seq<Expr<P, V>>)
    ensures
        surviving(cached, None, false) == cached,
    decreases cached.len(),
{
    if cached.len() == 0 {
        assert(surviving(cached, None, false) =~= cached) by {
            reveal(Seq::filter);
        }
    } else {
        let init = cached.drop_last();
        lemma_surviving_nothing(init);
        assert(cached =~= init.push(cached.last()));
        init.lemma_filter_push(cached.last(), |x: Expr<P, V>| still_cached(x, None, false));
    }
}

/// Two changes in a row keep what one change to both keeps, when they
/// concern the same property or one concerns none.
proof fn lemma_surviving_twice<P, V>(cached: Seq<Expr<P, V>>, first: Option<P>, first_universe: bool, second: Option<P>, second_universe: bool)
    requires
        first is None || second is None || first == second,
    ensures
        surviving(surviving(cached, first, first_universe), second, second_universe)
            == surviving(cached, if first is Some { first } else { second }, first_universe || second_universe),
    decreases cached.len(),
{
    let both = if first is Some { first } else { second };
    let f1 = |x: Expr<P, V>| still_cached(x, first, first_universe);
    let f2 = |x: Expr<P, V>| still_cached(x, second, second_universe);
    let f3 = |x: Expr<P, V>| still_cached(x, both, first_universe || second_universe);
    if cached.len() == 0 {
        assert(surviving(cached, first, first_universe) =~= Seq::<Expr<P, V>>::empty()) by {
            reveal(Seq::filter);
        }
        assert(surviving(Seq::<Expr<P, V>>::empty(), second, second_universe) =~= Seq::<Expr<P, V>>::empty()) by {
            reveal(Seq::filter);
        }
        assert(surviving(cached, both, first_universe || second_universe) =~= Seq::<Expr<P, V>>::empty()) by {
            reveal(Seq::filter);
        }
    } else {
        let init = cached.drop_last();
        let last = cached.last();
        lemma_surviving_twice(init, first, first_universe, second, second_universe);
        assert(cached =~= init.push(last));
        init.lemma_filter_push(last, f1);
        init.lemma_filter_push(last, f3);
        let mid = init.filter(f1);
        mid.lemma_filter_push(last, f2);
        assert(f3(last) == (f1(last) && f2(last)));
    }
}

/// The properties `element` holds, flags included.
pub open spec fn held_by<E, P, V>(f: Facts<E, P, V>, element: E) -> Set<P> {
    Set::new(|p: P| members_at(f, p).contains(element))
}

/// The properties that any of `elements` holds.
pub open spec fn held_by_any<E, P, V>(f: Facts<E, P, V>, elements: Set<E>) -> Set<P> {
    Set::new(|p: P| exists|e: E| elements.contains(e) && #[trigger] members_at(f, p).contains(e))
}

/// Whether a cached expression still holds after changes to every
/// property of `changed` and, when `universe_changed`, to the universe.
pub open spec fn kept_after<P, V>(x: Expr<P, V>, changed: Set<P>, universe_changed: bool) -> bool {
    &&& forall|p: P| #[trigger] changed.contains(p) ==> !deps(x).contains(p)
    &&& !(universe_changed && reads_universe(x))
}

/// The cached expressions that survive changes to every property of
/// `changed` (and to the universe when `universe_changed`), in their order.
pub open spec fn surviving_all<P, V>(cached: Seq<Expr<P, V>>, changed: Set<P>, universe_changed: bool) -> Seq<Expr<P, V>> {
    cached.filter(|x: Expr<P, V>| kept_after(x, changed, universe_changed))
}

/// `changed` with `more` added when there is one.
pub open spec fn with_change<P>(changed: Set<P>, more: Option<P>) -> Set<P> {
    match more {
        Some(p) => changed.insert(p),
        None => changed,
    }
}

/// Changing nothing keeps every cached expression.
proof fn lemma_surviving_all_nothing<P, V>(cached: Seq<Expr<P, V>>)
    ensures
        surviving_all(cached, Set::empty(), false) == cached,
    decreases cached.len(),
{
    if cached.len() == 0 {
        assert(surviving_all(cached, Set::empty(), false) =~= cached) by {
            reveal(Seq::filter);
        }
    } else {
        let init = cached.drop_last();
        lemma_surviving_all_nothing(init);
        assert(cached =~= init.push(cached.last()));
        init.lemma_filter_push(cached.last(), |x: Expr<P, V>| kept_after(x, Set::empty(), false));
    }
}

/// One more change after several keeps what all of them together keep.
proof fn lemma_surviving_more<P, V>(cached: Seq<Expr<P, V>>, changed: Set<P>, universe_changed: bool, more: Option<P>, more_universe: bool)
    ensures
        surviving(surviving_all(cached, changed, universe_changed), more, more_universe)
            == surviving_all(cached, with_change(changed, more), universe_changed || more_universe),
    decreases cached.len(),
{
    let f1 = |x: Expr<P, V>| kept_after(x, changed, universe_changed);
    let f2 = |x: Expr<P, V>| still_cached(x, more, more_universe);
    let f3 = |x: Expr<P, V>| kept_after(x, with_change(changed, more), universe_changed || more_universe);
    if cached.len() == 0 {
        assert(surviving_all(cached, changed, universe_changed) =~= Seq::<Expr<P, V>>::empty()) by {
            reveal(Seq::filter);
        }
        assert(surviving(Seq::<Expr<P, V>>::empty(), more, more_universe) =~= Seq::<Expr<P, V>>::empty()) by {
            reveal(Seq::filter);
        }
        assert(surviving_all(cached, with_change(changed, more), universe_changed || more_universe) =~= Seq::<Expr<P, V>>::empty()) by {
            reveal(Seq::filter);
        }
    } else {
        let init = cached.drop_last();
        let last = cached.last();
        lemma_surviving_more(init, changed, universe_changed, more, more_universe);
        assert(cached =~= init.push(last));
        init.lemma_filter_push(last, f1);
        init.lemma_filter_push(last, f3);
        let mid = init.filter(f1);
        mid.lemma_filter_push(last, f2);
        assert(f3(last) == (f1(last) && f2(last))) by {
            if f1(last) && f2(last) {
                assert forall|p: P| #[trigger] with_change(changed, more).contains(p) implies !deps(last).contains(p) by {
                    if !changed.contains(p) {
                        assert(more == Some(p));
                    }
                }
            }
            if f3(last) {
                assert forall|p: P| #[trigger] changed.contains(p) implies !deps(last).contains(p) by {
                    assert(with_change(changed, more).contains(p));
                }
                if more is Some {
                    assert(with_change(changed, more).contains(more->0));
                }
            }
        }
    }
}

/// Two rounds of changes keep what all of them together keep.
proof fn lemma_surviving_all_twice<P, V>(cached: Seq<Expr<P, V>>, a: Set<P>, a_universe: bool, b: Set<P>, b_universe: bool)
    ensures
        surviving_all(surviving_all(cached, a, a_universe), b, b_universe) == surviving_all(cached, a.union(b), a_universe || b_universe),
    decreases cached.len(),
{
    let f1 = |x: Expr<P, V>| kept_after(x, a, a_universe);
    let f2 = |x: Expr<P, V>| kept_after(x, b, b_universe);
    let f3 = |x: Expr<P, V>| kept_after(x, a.union(b), a_universe || b_universe);
    if cached.len() == 0 {
        assert(surviving_all(cached, a, a_universe) =~= Seq::<Expr<P, V>>::empty()) by {
            reveal(Seq::filter);
        }
        assert(surviving_all(Seq::<Expr<P, V>>::empty(), b, b_universe) =~= Seq::<Expr<P, V>>::empty()) by {
            reveal(Seq::filter);
        }
        assert(surviving_all(cached, a.union(b), a_universe || b_universe) =~= Seq::<Expr<P, V>>::empty()) by {
            reveal(Seq::filter);
        }
    } else {
        let init = cached.drop_last();
        let last = cached.last();
        lemma_surviving_all_twice(init, a, a_universe, b, b_universe);
        assert(cached =~= init.push(last));
        init.lemma_filter_push(last, f1);
        init.lemma_filter_push(last, f3);
        let mid = init.filter(f1);
        mid.lemma_filter_push(last, f2);
        assert(f3(last) == (f1(last) && f2(last))) by {
            if f3(last) {
                assert forall|p: P| #[trigger] a.contains(p) implies !deps(last).contains(p) by {
                    assert(a.union(b).contains(p));
                }
                assert forall|p: P| #[trigger] b.contains(p) implies !deps(last).contains(p) by {
                    assert(a.union(b).contains(p));
                }
            }
            if f1(last) && f2(last) {
                assert forall|p: P| #[trigger] a.union(b).contains(p) implies !deps(last).contains(p) by {
                    if a.contains(p) {
                    } else {
                        assert(b.contains(p));
                    }
                }
            }
        }
    }
}

/// Dropping what reads `p` once or more keeps the same expressions.
proof fn lemma_surviving_again<P, V>(c0: Seq<Expr<P, V>>, p: P, now: Seq<Expr<P, V>>)
    requires
        now == c0 || now == surviving(c0, Some(p), false),
    ensures
        surviving(now, Some(p), false) == surviving(c0, Some(p), false),
        surviving(now, None, false) == now,
{
    lemma_surviving_twice(c0, Some(p), false, Some(p), false);
    lemma_surviving_nothing(now);
}

/// Dropping the stale entries of a valid cache keeps exactly the surviving
/// expressions.
proof fn lemma_drop_stale_exprs<E: Key, P: Key, V: Key>(cache: Seq<CacheEntry<E, P, V>>, facts: Facts<E, P, V>, changed: Option<P>, universe_changed: bool)
    requires
        cache_valid(cache, facts),
    ensures
        cache.filter(|entry: CacheEntry<E, P, V>| !stale(entry, changed, universe_changed)).map_values(|entry: CacheEntry<E, P, V>| entry.expr)
            == surviving(cache.map_values(|entry: CacheEntry<E, P, V>| entry.expr), changed, universe_changed),
    decreases cache.len(),
{
    let keep = |entry: CacheEntry<E, P, V>| !stale(entry, changed, universe_changed);
    let expr_of = |entry: CacheEntry<E, P, V>| entry.expr;
    let live = |x: Expr<P, V>| still_cached(x, changed, universe_changed);
    if cache.len() == 0 {
        assert(cache.filter(keep) =~= Seq::<CacheEntry<E, P, V>>::empty()) by {
            reveal(Seq::filter);
        }
        assert(cache.map_values(expr_of).filter(live) =~= Seq::<Expr<P, V>>::empty()) by {
            reveal(Seq::filter);
        }
    } else {
        let init = cache.drop_last();
        let last = cache.last();
        assert(cache_valid(init, facts)) by {
            assert forall|i: int| 0 <= i < init.len() implies {
                &&& (#[trigger] init[i]).result@ == eval(init[i].expr, facts)
                &&& init[i].reads@ == deps(init[i].expr)
                &&& init[i].reads_universe == reads_universe(init[i].expr)
            } by {
                assert(init[i] == cache[i]);
            }
        }
        lemma_drop_stale_exprs(init, facts, changed, universe_changed);
        assert(cache =~= init.push(last));
        init.lemma_filter_push(last, keep);
        assert(cache.map_values(expr_of) =~= init.map_values(expr_of).push(last.expr));
        init.map_values(expr_of).lemma_filter_push(last.expr, live);
        assert(last == cache[cache.len() - 1]);
        assert(keep(last) == live(last.expr));
        if keep(last) {
            assert(init.filter(keep).push(last).map_values(expr_of) =~= init.filter(keep).map_values(expr_of).push(last.expr));
        }
    }
}

/// The entries of `cache` that are not stale, in order.
fn drop_stale<E: Key, P: Key, V: Key>(
    cache: Vec<CacheEntry<E, P, V>>,
    changed: Option<P>,
    universe_changed: bool,
    Ghost(before): Ghost<Facts<E, P, V>>,
    Ghost(after): Ghost<Facts<E, P, V>>,
) -> (kept: Vec<CacheEntry<E, P, V>>)
    requires
        cache_valid(cache@, before),
        agree_except(before, after, changed),
        !universe_changed ==> before.universe == after.universe,
    ensures
        cache_valid(kept@, after),
        kept@ == cache@.filter(|entry: CacheEntry<E, P, V>| !stale(entry, changed, universe_changed)),
        kept@.map_values(|entry: CacheEntry<E, P, V>| entry.expr)
            == surviving(cache@.map_values(|entry: CacheEntry<E, P, V>| entry.expr), changed, universe_changed),
{
    proof {
        lemma_drop_stale_exprs(cache@, before, changed, universe_changed);
    }
    let ghost all = cache@;
    let mut cache = cache;
    let n = cache.len();
    let mut kept: Vec<CacheEntry<E, P, V>> = Vec::new();
    let mut taken: usize = 0;
    while cache.len() > 0
        invariant
            cache@ == all.skip(taken as int),
            taken <= all.len(),
            n == all.len(),
            cache_valid(all, before),
            agree_except(before, after, changed),
            !universe_changed ==> before.universe == after.universe,
            cache_valid(kept@, after),
            kept@ == all.take(taken as int).filter(|entry: CacheEntry<E, P, V>| !stale(entry, changed, universe_changed)),
        decreases cache@.len(),
    {
        let entry = cache.remove(0);
        let ghost at = taken as int;
        proof {
            assert(all[at] == entry);
            assert(all[at].reads@ == deps(all[at].expr));
        }
        let is_stale = match changed {
            Some(p) => entry.reads.contains(&p),
            None => false,
        } || (universe_changed && entry.reads_universe);
        let ghost prev = kept@;
        if !is_stale {
            proof {
                assert(agree_on(before, after, deps(entry.expr), reads_universe(entry.expr))) by {
                    assert forall|q: P| #[trigger] deps(entry.expr).contains(q) implies before.members.contains_key(q) == after.members.contains_key(q)
                        && (before.members.contains_key(q) ==> before.members[q] == after.members[q])
                        && before.pairs.contains_key(q) == after.pairs.contains_key(q)
                        && (before.pairs.contains_key(q) ==> before.pairs[q] == after.pairs[q]) by {
                        assert(changed != Some(q));
                    }
                }
                lemma_eval_frame(entry.expr, before, after);
            }
            kept.push(entry);
        }
        taken = taken + 1;
        proof {
            assert(cache@ =~= all.skip(taken as int));
            let t = all.take(taken as int);
            assert(t.drop_last() =~= all.take(at));
            assert(t.last() == all[at]);
            reveal(Seq::filter);
            assert(kept@ =~= t.filter(|entry: CacheEntry<E, P, V>| !stale(entry, changed, universe_changed)));
        }
    }
    proof {
        assert(all.take(taken as int) =~= all);
    }
    kept
}

/// The storages with `property` given `storage`, or removed when `None`.
pub open spec fn placed<E, P, V>(storages: Map<P, Storage<E, V>>, property: P, storage: Option<Storage<E, V>>) -> Map<P, Storage<E, V>> {
    match storage {
        Some(s) => storages.insert(property, s),
        None => storages.remove(property),
    }
}

/// Stores `storage` for `property` and drops the cache entries the change
/// may have made stale. The cache was up to date for `before`, which
/// differs from the new facts only at `property`, and in the universe when
/// `universe_changed`.
fn settle<E: Key, P: Key, V: Key>(
    store: &mut Store<E, P, V>,
    property: P,
    storage: Option<Storage<E, V>>,
    universe_changed: bool,
    Ghost(before): Ghost<Facts<E, P, V>>,
)
    requires
        cache_valid(old(store).cache@, before),
        agree_except(before, facts_of(placed(old(store).storages@, property, storage), old(store).universe@), Some(property)),
        !universe_changed ==> before.universe == old(store).universe@,
        forall|q: P| #[trigger] old(store).storages@.contains_key(q) && q != property ==> members_of(old(store).storages@[q]).subset_of(old(store).universe@),
        storage matches Some(s) ==> members_of(s).subset_of(old(store).universe@),
    ensures
        store_wf(*final(store)),
        final(store).storages@ == placed(old(store).storages@, property, storage),
        final(store).universe@ == old(store).universe@,
        final(store).cache@ == old(store).cache@.filter(|entry: CacheEntry<E, P, V>| !stale(entry, Some(property), universe_changed)),
        final(store).cache@.map_values(|entry: CacheEntry<E, P, V>| entry.expr)
            == surviving(old(store).cache@.map_values(|entry: CacheEntry<E, P, V>| entry.expr), Some(property), universe_changed),
{
    match storage {
        Some(s) => {
            store.storages.insert(property, s);
        },
        None => {
            store.storages.remove(&property);
        },
    }
    let mut cache: Vec<CacheEntry<E, P, V>> = Vec::new();
    std::mem::swap(&mut cache, &mut store.cache);
    let ghost after = facts_of(store.storages@, store.universe@);
    store.cache = drop_stale(cache, Some(property), universe_changed, Ghost(before), Ghost(after));
}

/// A property store and cached expression engine. `E` identifies
/// elements, `P` properties, and `V` is the value type of valued
/// properties.
pub struct PropertyQuery<E: Key, P: Key, V: Key> {
    store: Store<E, P, V>,
}

impl<E: Key, P: Key, V: Key> PropertyQuery<E, P, V> {
    #[verifier::type_invariant]
    spec fn inv(self) -> bool {
        store_wf(self.store)
    }
}

impl<E: Key, P: Key, V: Key> View for PropertyQuery<E, P, V> {
    /// The registered kinds, and the facts the properties hold.
    type V = (Map<P, PropertyKind>, Facts<E, P, V>);

    closed spec fn view(&self) -> (Map<P, PropertyKind>, Facts<E, P, V>) {
        (kinds_of(self.store.storages@), facts_of(self.store.storages@, self.store.universe@))
    }
}

impl<E: Key, P: Key, V: Key> PropertyQuery<E, P, V> {
    /// The expressions whose results are cached, in cache order.
    pub closed spec fn cached(&self) -> Seq<Expr<P, V>> {
        self.store.cache@.map_values(|entry: CacheEntry<E, P, V>| entry.expr)
    }

    /// An empty query with no registered properties or elements.
    pub fn new() -> (query: Self)
        ensures
            query@.0 == Map::<P, PropertyKind>::empty(),
            query@.1.members == Map::<P, Set<E>>::empty(),
            query@.1.pairs == Map::<P, Set<(E, V)>>::empty(),
            query@.1.universe == Set::<E>::empty(),
            query.cached() == Seq::<Expr<P, V>>::empty(),
    {
        let store = Store { storages: Entries::new(), universe: UnorderedSet::new(), cache: Vec::new() };
        proof {
            assert(kinds_of(store.storages@) =~= Map::<P, PropertyKind>::empty());
            assert(facts_of(store.storages@, store.universe@).members =~= Map::<P, Set<E>>::empty());
            assert(facts_of(store.storages@, store.universe@).pairs =~= Map::<P, Set<(E, V)>>::empty());
            assert(store.cache@.map_values(|entry: CacheEntry<E, P, V>| entry.expr) =~= Seq::<Expr<P, V>>::empty());
        }
        PropertyQuery { store }
    }

    /// Every holder is in the universe; kinds, members and pairs cover the
    /// same properties.
    pub fn check_invariants(&self)
        ensures
            self@.0.dom() == self@.1.members.dom(),
            self@.1.members.dom() == self@.1.pairs.dom(),
            forall|p: P| #[trigger] self@.1.members.contains_key(p) ==> self@.1.members[p].subset_of(self@.1.universe),
            self@.0.dom().finite(),
    {
        proof {
            use_type_invariant(self);
        }
        self.store.storages.len();
        proof {
            assert(self@.0.dom() =~= self.store.storages@.dom());
            assert(self@.0.dom() =~= self@.1.members.dom());
            assert(self@.1.members.dom() =~= self@.1.pairs.dom());
        }
    }

    /// Takes the store out, leaving an empty one behind.
    fn take_store(&mut self) -> (store: Store<E, P, V>)
        ensures
            store_wf(store),
            kinds_of(store.storages@) == old(self)@.0,
            facts_of(store.storages@, store.universe@) == old(self)@.1,
            store.cache@.map_values(|entry: CacheEntry<E, P, V>| entry.expr) == old(self).cached(),
    {
        proof {
            use_type_invariant(&*self);
        }
        let mut store = Store { storages: Entries::new(), universe: UnorderedSet::new(), cache: Vec::new() };
        proof {
            assert(facts_of(store.storages@, store.universe@).members =~= Map::<P, Set<E>>::empty());
        }
        std::mem::swap(&mut store, &mut self.store);
        store
    }

    /// Puts a well-formed store back.
    fn put_store(&mut self, store: Store<E, P, V>)
        requires
            store_wf(store),
        ensures
            final(self)@.0 == kinds_of(store.storages@),
            final(self)@.1 == facts_of(store.storages@, store.universe@),
            final(self).cached() == store.cache@.map_values(|entry: CacheEntry<E, P, V>| entry.expr),
    {
        let mut store = store;
        std::mem::swap(&mut store, &mut self.store);
    }
}

impl<E: Key, P: Key, V: Key> PropertyQuery<E, P, V> {
    /// Whether `property` is registered.
    pub fn has_property(&self, property: &P) -> (found: bool)
        ensures
            found == self@.0.contains_key(*property),
    {
        self.store.storages.contains_key(property)
    }

    /// The registered kind of `property`.
    pub fn property_kind(&self, property: &P) -> (kind: Option<PropertyKind>)
        ensures
            kind == (if self@.0.contains_key(*property) { Some(self@.0[*property]) } else { None }),
    {
        match self.store.storages.get(property) {
            Some(storage) => Some(storage.kind()),
            None => None,
        }
    }

    /// The registered properties.
    pub fn properties(&self) -> (properties: Vec<P>)
        ensures
            properties@.to_set() == self@.0.dom(),
            properties@.no_duplicates(),
    {
        self.store.storages.len();
        let keys = self.store.storages.keys();
        proof {
            assert(self@.0.dom() =~= self.store.storages@.dom());
        }
        keys
    }

    /// Every element added and not removed, with or without properties.
    pub fn universe(&self) -> (universe: UnorderedSet<E>)
        ensures
            universe@ == self@.1.universe,
    {
        self.store.universe.duplicate()
    }

    /// The value of a single-valued property.
    pub fn get(&self, element: &E, property: &P) -> (value: Option<V>)
        ensures
            match value {
                Some(v) => self@.0.contains_key(*property) && cardinality_of(self@.0[*property]) == Cardinality::Single
                    && self@.1.pairs[*property].contains((*element, v)),
                None => !self@.0.contains_key(*property) || cardinality_of(self@.0[*property]) != Cardinality::Single
                    || !self@.1.members[*property].contains(*element),
            },
    {
        match self.store.storages.get(property) {
            Some(storage) => storage.get(element),
            None => None,
        }
    }

    /// Every value `element` holds for `property`.
    pub fn values(&self, element: &E, property: &P) -> (values: UnorderedSet<V>)
        ensures
            values@ == (if self@.1.pairs.contains_key(*property) { image(self@.1.pairs[*property], *element) } else { Set::empty() }),
    {
        match self.store.storages.get(property) {
            Some(storage) => storage.values(element),
            None => UnorderedSet::new(),
        }
    }

    /// Whether `element` holds `property`, flag or valued.
    pub fn has(&self, element: &E, property: &P) -> (found: bool)
        ensures
            found == (self@.1.members.contains_key(*property) && self@.1.members[*property].contains(*element)),
    {
        match self.store.storages.get(property) {
            Some(storage) => storage.contains_member(element),
            None => false,
        }
    }

    /// Whether `element` holds exactly `(property, value)`.
    pub fn has_value(&self, element: &E, property: &P, value: &V) -> (found: bool)
        ensures
            found == (self@.1.pairs.contains_key(*property) && self@.1.pairs[*property].contains((*element, *value))),
    {
        match self.store.storages.get(property) {
            Some(storage) => storage.has_pair(element, value),
            None => false,
        }
    }

    /// Whether any element holds `value` for `property`.
    pub fn is_value_used(&self, property: &P, value: &V) -> (used: bool)
        ensures
            used == (self@.1.pairs.contains_key(*property) && range(self@.1.pairs[*property]).contains(*value)),
    {
        match self.store.storages.get(property) {
            Some(storage) => storage.has_value(value),
            None => false,
        }
    }

    /// Every element holding `property`.
    pub fn members_of(&self, property: &P) -> (members: Vec<E>)
        ensures
            members@.to_set() == (if self@.1.members.contains_key(*property) { self@.1.members[*property] } else { Set::empty() }),
            members@.no_duplicates(),
    {
        match self.store.storages.get(property) {
            Some(storage) => storage.members(),
            None => {
                let out: Vec<E> = Vec::new();
                proof {
                    assert(out@.to_set() =~= Set::<E>::empty());
                }
                out
            },
        }
    }

    /// Every element whose `property` holds `value`.
    pub fn members_with(&self, property: &P, value: &V) -> (members: UnorderedSet<E>)
        ensures
            members@ == (if self@.1.pairs.contains_key(*property) { preimage(self@.1.pairs[*property], *value) } else { Set::empty() }),
    {
        match self.store.storages.get(property) {
            Some(storage) => storage.members_with(value),
            None => UnorderedSet::new(),
        }
    }

    /// Number of elements holding `property`.
    pub fn property_len(&self, property: &P) -> (n: usize)
        ensures
            n == (if self@.1.members.contains_key(*property) { self@.1.members[*property].len() } else { 0 }),
    {
        match self.store.storages.get(property) {
            Some(storage) => storage.member_count(),
            None => 0,
        }
    }

    /// Number of elements holding `value` for `property`.
    pub fn value_len(&self, property: &P, value: &V) -> (n: usize)
        ensures
            n == (if self@.1.pairs.contains_key(*property) { preimage(self@.1.pairs[*property], *value).len() } else { 0 }),
    {
        match self.store.storages.get(property) {
            Some(storage) => storage.members_with(value).len(),
            None => 0,
        }
    }

    /// Whether `element` holds every `(property, value)` pair.
    pub fn matches(&self, element: &E, pairs: &Vec<(P, V)>) -> (all: bool)
        ensures
            all == forall|i: int| 0 <= i < pairs@.len() ==> self@.1.pairs.contains_key((#[trigger] pairs@[i]).0)
                && self@.1.pairs[pairs@[i].0].contains((*element, pairs@[i].1)),
    {
        let mut i: usize = 0;
        while i < pairs.len()
            invariant
                i <= pairs@.len(),
                forall|j: int| 0 <= j < i ==> self@.1.pairs.contains_key((#[trigger] pairs@[j]).0)
                    && self@.1.pairs[pairs@[j].0].contains((*element, pairs@[j].1)),
            decreases pairs@.len() - i,
        {
            let (property, value) = pairs[i];
            if !self.has_value(element, &property, &value) {
                return false;
            }
            i += 1;
        }
        true
    }

    /// The elements holding at least one property.
    pub fn elements(&self) -> (elements: UnorderedSet<E>)
        ensures
            elements@ == holders(self@.1),
    {
        let n = self.store.storages.len();
        let mut out = UnorderedSet::new();
        let mut i: usize = 0;
        while i < n
            invariant
                i <= n,
                n == self.store.storages.key_seq().len(),
                self.store.storages.key_seq().to_set() == self.store.storages@.dom(),
                forall|e: E| #[trigger] out@.contains(e) == exists|j: int| 0 <= j < i
                    && members_of(self.store.storages@[#[trigger] self.store.storages.key_seq()[j]]).contains(e),
            decreases n - i,
        {
            let (_, storage) = self.store.storages.entry_at(i);
            let members = storage.members();
            let ghost before = out@;
            let mut j: usize = 0;
            while j < members.len()
                invariant
                    j <= members@.len(),
                    forall|e: E| #[trigger] out@.contains(e) == (before.contains(e) || members@.take(j as int).contains(e)),
                decreases members@.len() - j,
            {
                out.insert(members[j]);
                proof {
                    assert(members@.take(j + 1) =~= members@.take(j as int).push(members@[j as int]));
                }
                j += 1;
            }
            proof {
                assert(members@.take(j as int) =~= members@);
                assert forall|e: E| #[trigger] out@.contains(e) == exists|k: int| 0 <= k < i + 1
                    && members_of(self.store.storages@[#[trigger] self.store.storages.key_seq()[k]]).contains(e) by {
                    if out@.contains(e) && !before.contains(e) {
                        assert(members_of(self.store.storages@[self.store.storages.key_seq()[i as int]]).contains(e));
                    }
                }
            }
            i += 1;
        }
        proof {
            let keys = self.store.storages.key_seq();
            assert forall|e: E| out@.contains(e) == holders(self@.1).contains(e) by {
                if out@.contains(e) {
                    let k = choose|k: int| 0 <= k < n && members_of(self.store.storages@[#[trigger] keys[k]]).contains(e);
                    assert(self.store.storages@.dom().contains(keys[k]));
                    assert(self@.1.members.contains_key(keys[k]) && self@.1.members[keys[k]].contains(e));
                }
                if holders(self@.1).contains(e) {
                    let p = choose|p: P| #[trigger] self@.1.members.contains_key(p) && self@.1.members[p].contains(e);
                    assert(keys.to_set().contains(p));
                    let k = choose|k: int| 0 <= k < keys.len() && keys[k] == p;
                    assert(members_of(self.store.storages@[keys[k]]).contains(e));
                }
            }
            assert(out@ =~= holders(self@.1));
        }
        out
    }

    /// Number of elements holding at least one property.
    pub fn len(&self) -> (n: usize)
        ensures
            n == holders(self@.1).len(),
    {
        self.elements().len()
    }

    /// Whether no element holds a property. Elements only in the universe
    /// do not count.
    pub fn is_empty(&self) -> (empty: bool)
        ensures
            empty == (holders(self@.1) == Set::<E>::empty()),
    {
        self.elements().is_empty()
    }

    /// Whether `element` holds at least one property.
    pub fn contains(&self, element: &E) -> (found: bool)
        ensures
            found == holders(self@.1).contains(*element),
    {
        self.elements().contains(element)
    }

    /// The properties `element` holds, or `None` when it holds none.
    pub fn properties_of(&self, element: &E) -> (properties: Option<UnorderedSet<P>>)
        ensures
            match properties {
                Some(s) => holders(self@.1).contains(*element)
                    && s@ == Set::new(|p: P| self@.1.members.contains_key(p) && self@.1.members[p].contains(*element)),
                None => !holders(self@.1).contains(*element),
            },
    {
        let keys = self.properties();
        let mut out = UnorderedSet::new();
        let mut i: usize = 0;
        while i < keys.len()
            invariant
                i <= keys@.len(),
                keys@.to_set() == self@.0.dom(),
                self@.0.dom() == self@.1.members.dom(),
                forall|p: P| #[trigger] out@.contains(p) == (keys@.take(i as int).contains(p)
                    && self@.1.members.contains_key(p) && self@.1.members[p].contains(*element)),
            decreases keys@.len() - i,
        {
            let p = keys[i];
            if self.has(element, &p) {
                out.insert(p);
            }
            proof {
                assert(keys@.take(i + 1) =~= keys@.take(i as int).push(p));
            }
            i += 1;
        }
        proof {
            assert(keys@.take(i as int) =~= keys@);
        }
        if out.is_empty() {
            proof {
                if holders(self@.1).contains(*element) {
                    let p = choose|p: P| #[trigger] self@.1.members.contains_key(p) && self@.1.members[p].contains(*element);
                    assert(out@.contains(p));
                }
            }
            None
        } else {
            proof {
                if !(exists|p: P| out@.contains(p)) {
                    assert(out@ =~= Set::<P>::empty());
                }
                let p = choose|p: P| out@.contains(p);
                assert(self@.1.members.contains_key(p) && self@.1.members[p].contains(*element));
                assert(holders(self@.1).contains(*element));
                assert(out@ =~= Set::new(|p: P| self@.1.members.contains_key(p) && self@.1.members[p].contains(*element)));
            }
            Some(out)
        }
    }
}

impl<E: Key, P: Key, V: Key> PropertyQuery<E, P, V> {
    /// The elements matching `expr`, evaluated without the cache.
    pub fn query_uncached(&self, expr: &Expr<P, V>) -> (found: UnorderedSet<E>)
        ensures
            found@ == eval(*expr, self@.1),
        decreases expr,
    {
        match expr {
            Expr::Has(property) => {
                let members = self.members_of(property);
                let out = UnorderedSet::from_vec(members);
                proof {
                    assert(out@ =~= eval(*expr, self@.1));
                }
                out
            },
            Expr::Is(property, value) => self.members_with(property, value),
            Expr::And(children) => {
                if children.len() == 0 {
                    self.store.universe.duplicate()
                } else {
                    self.eval_list(children, true)
                }
            },
            Expr::Or(children) => self.eval_list(children, false),
            Expr::Not(child) => {
                let excluded = self.query_uncached(&**child);
                self.store.universe.difference(&excluded)
            },
        }
    }

    /// The elements matching every child (`all`) or some child.
    fn eval_list(&self, children: &Vec<Expr<P, V>>, all: bool) -> (found: UnorderedSet<E>)
        requires
            all ==> children@.len() > 0,
        ensures
            all ==> found@ == eval_all(children@, self@.1),
            !all ==> found@ == eval_any(children@, self@.1),
        decreases children,
    {
        let n = children.len();
        let mut i: usize = n;
        let mut acc: UnorderedSet<E> = UnorderedSet::new();
        if all {
            i = n - 1;
            proof {
                assert(decreases_to!(children => children@[i as int]));
            }
            acc = self.query_uncached(&children[i]);
            proof {
                let t = children@.subrange(i as int, n as int);
                assert(t.len() == 1 && t[0] == children@[i as int]);
            }
        } else {
            proof {
                assert(children@.subrange(n as int, n as int).len() == 0);
            }
        }
        while i > 0
            invariant
                i <= n,
                n == children@.len(),
                all ==> i < n,
                all ==> acc@ == eval_all(children@.subrange(i as int, n as int), self@.1),
                !all ==> acc@ == eval_any(children@.subrange(i as int, n as int), self@.1),
            decreases i,
        {
            i -= 1;
            proof {
                assert(decreases_to!(children => children@[i as int]));
            }
            let here = self.query_uncached(&children[i]);
            if all {
                acc = here.intersection(&acc);
            } else {
                acc = here.union(&acc);
            }
            proof {
                let t = children@.subrange(i as int, n as int);
                assert(t.drop_first() =~= children@.subrange(i + 1, n as int));
                assert(t[0] == children@[i as int]);
            }
        }
        proof {
            assert(children@.subrange(0, n as int) =~= children@);
        }
        acc
    }
}

impl<E: Key, P: Key, V: Key> PropertyQuery<E, P, V> {
    /// The cached result for an expression of the same shape, if any.
    fn cached_result(&self, expr: &Expr<P, V>) -> (found: Option<UnorderedSet<E>>)
        ensures
            found is Some <==> exists|k: int| 0 <= k < self.cached().len() && same_expr(#[trigger] self.cached()[k], *expr),
            found matches Some(r) ==> r@ == eval(*expr, self@.1),
    {
        proof {
            use_type_invariant(self);
        }
        let n = self.store.cache.len();
        let mut i: usize = 0;
        while i < n
            invariant
                i <= n,
                n == self.store.cache@.len(),
                store_wf(self.store),
                forall|k: int| 0 <= k < i ==> !same_expr(#[trigger] self.cached()[k], *expr),
            decreases n - i,
        {
            let entry = &self.store.cache[i];
            proof {
                assert(self.cached()[i as int] == entry.expr);
            }
            if entry.expr.same_as(expr) {
                proof {
                    lemma_same_expr(entry.expr, *expr, self@.1);
                }
                return Some(entry.result.duplicate());
            }
            i += 1;
        }
        None
    }

    /// Records the result of `expr` in the cache.
    fn remember(&mut self, expr: &Expr<P, V>, result: &UnorderedSet<E>)
        requires
            result@ == eval(*expr, old(self)@.1),
        ensures
            final(self)@ == old(self)@,
            final(self).cached().len() == old(self).cached().len() + 1,
            same_expr(final(self).cached().last(), *expr),
    {
        let (reads, universe_read) = expr.dependencies();
        let copy = expr.duplicate();
        let mut store = self.take_store();
        let ghost facts = facts_of(store.storages@, store.universe@);
        proof {
            lemma_same_expr(copy, *expr, facts);
        }
        let entry = CacheEntry { expr: copy, result: result.duplicate(), reads, reads_universe: universe_read };
        let ghost before = store.cache@;
        store.cache.push(entry);
        proof {
            assert forall|i: int| 0 <= i < store.cache@.len() implies {
                &&& (#[trigger] store.cache@[i]).result@ == eval(store.cache@[i].expr, facts)
                &&& store.cache@[i].reads@ == deps(store.cache@[i].expr)
                &&& store.cache@[i].reads_universe == reads_universe(store.cache@[i].expr)
            } by {
                if i < before.len() {
                    assert(store.cache@[i] == before[i]);
                }
            }
            assert(store.cache@.map_values(|entry: CacheEntry<E, P, V>| entry.expr)
                =~= before.map_values(|entry: CacheEntry<E, P, V>| entry.expr).push(copy));
        }
        self.put_store(store);
    }

    /// The elements matching `expr`. Results, and those of every
    /// sub-expression evaluated on the way, are cached until a property or
    /// universe they read changes.
    pub fn query(&mut self, expr: &Expr<P, V>) -> (found: UnorderedSet<E>)
        ensures
            found@ == eval(*expr, old(self)@.1),
            final(self)@ == old(self)@,
            exists|k: int| 0 <= k < final(self).cached().len() && same_expr(#[trigger] final(self).cached()[k], *expr),
        decreases expr,
    {
        if let Some(hit) = self.cached_result(expr) {
            return hit;
        }
        let result = match expr {
            Expr::Has(_) => self.query_uncached(expr),
            Expr::Is(_, _) => self.query_uncached(expr),
            Expr::And(children) => {
                if children.len() == 0 {
                    self.store.universe.duplicate()
                } else {
                    self.query_list(children, true)
                }
            },
            Expr::Or(children) => self.query_list(children, false),
            Expr::Not(child) => {
                let excluded = self.query(&**child);
                self.store.universe.difference(&excluded)
            },
        };
        self.remember(expr, &result);
        proof {
            assert(same_expr(self.cached()[self.cached().len() - 1], *expr));
        }
        result
    }

    /// The elements matching every child (`all`) or some child, through
    /// the cache.
    fn query_list(&mut self, children: &Vec<Expr<P, V>>, all: bool) -> (found: UnorderedSet<E>)
        requires
            all ==> children@.len() > 0,
        ensures
            all ==> found@ == eval_all(children@, old(self)@.1),
            !all ==> found@ == eval_any(children@, old(self)@.1),
            final(self)@ == old(self)@,
        decreases children,
    {
        let n = children.len();
        let mut i: usize = n;
        let mut acc: UnorderedSet<E> = UnorderedSet::new();
        if all {
            i = n - 1;
            proof {
                assert(decreases_to!(children => children@[i as int]));
            }
            acc = self.query(&children[i]);
            proof {
                let t = children@.subrange(i as int, n as int);
                assert(t.len() == 1 && t[0] == children@[i as int]);
            }
        } else {
            proof {
                assert(children@.subrange(n as int, n as int).len() == 0);
            }
        }
        while i > 0
            invariant
                i <= n,
                n == children@.len(),
                self@ == old(self)@,
                all ==> i < n,
                all ==> acc@ == eval_all(children@.subrange(i as int, n as int), old(self)@.1),
                !all ==> acc@ == eval_any(children@.subrange(i as int, n as int), old(self)@.1),
            decreases i,
        {
            i -= 1;
            proof {
                assert(decreases_to!(children => children@[i as int]));
            }
            let here = self.query(&children[i]);
            if all {
                acc = here.intersection(&acc);
            } else {
                acc = here.union(&acc);
            }
            proof {
                let t = children@.subrange(i as int, n as int);
                assert(t.drop_first() =~= children@.subrange(i + 1, n as int));
                assert(t[0] == children@[i as int]);
            }
        }
        proof {
            assert(children@.subrange(0, n as int) =~= children@);
        }
        acc
    }

    /// The elements holding every `(property, value)` pair; with no pairs,
    /// every element of the universe.
    pub fn query_all(&mut self, pairs: &Vec<(P, V)>) -> (found: UnorderedSet<E>)
        ensures
            found@ == (if pairs@.len() == 0 { old(self)@.1.universe } else { eval_all(is_seq(pairs@), old(self)@.1) }),
            final(self)@ == old(self)@,
    {
        let expr = Expr::And(is_exprs(pairs));
        let found = self.query(&expr);
        found
    }

    /// The elements holding any of the `(property, value)` pairs.
    pub fn query_any(&mut self, pairs: &Vec<(P, V)>) -> (found: UnorderedSet<E>)
        ensures
            found@ == eval_any(is_seq(pairs@), old(self)@.1),
            final(self)@ == old(self)@,
    {
        let expr = Expr::Or(is_exprs(pairs));
        self.query(&expr)
    }

    /// Discards every cached result.
    pub fn clear_cache(&mut self)
        ensures
            final(self)@ == old(self)@,
            final(self).cached() == Seq::<Expr<P, V>>::empty(),
    {
        let mut store = self.take_store();
        store.cache = Vec::new();
        proof {
            assert(store.cache@.map_values(|entry: CacheEntry<E, P, V>| entry.expr) =~= Seq::<Expr<P, V>>::empty());
        }
        self.put_store(store);
    }

    /// Number of cached results.
    pub fn cache_len(&self) -> (n: usize)
        ensures
            n == self.cached().len(),
    {
        self.store.cache.len()
    }
}

/// An `Is` expression for each pair.
pub open spec fn is_seq<P, V>(pairs: Seq<(P, V)>) -> Seq<Expr<P, V>> {
    Seq::new(pairs.len(), |i: int| Expr::Is(pairs[i].0, pairs[i].1))
}

/// `Is` expressions for each pair, as a vector.
fn is_exprs<P: Key, V: Key>(pairs: &Vec<(P, V)>) -> (children: Vec<Expr<P, V>>)
    ensures
        children@ == is_seq(pairs@),
{
    let mut out: Vec<Expr<P, V>> = Vec::new();
    let mut i: usize = 0;
    while i < pairs.len()
        invariant
            i <= pairs@.len(),
            out@.len() == i,
            forall|j: int| 0 <= j < i ==> #[trigger] out@[j] == Expr::<P, V>::Is(pairs@[j].0, pairs@[j].1),
        decreases pairs@.len() - i,
    {
        out.push(Expr::Is(pairs[i].0, pairs[i].1));
        i += 1;
    }
    proof {
        assert(out@ =~= is_seq(pairs@));
    }
    out
}

impl<E: Key, P: Key, V: Key> PropertyQuery<E, P, V> {
    /// Registers `property` with `kind`. Returns false, changing nothing,
    /// when it is already registered, whatever its kind.
    pub fn register_property(&mut self, property: P, kind: PropertyKind) -> (added: bool)
        ensures
            added == !old(self)@.0.contains_key(property),
            added ==> final(self).cached() == surviving(old(self).cached(), Some(property), false),
            !added ==> final(self).cached() == old(self).cached(),
            !added ==> final(self)@ == old(self)@,
            added ==> final(self)@.0 == old(self)@.0.insert(property, kind),
            added ==> final(self)@.1 == (Facts {
                members: old(self)@.1.members.insert(property, Set::empty()),
                pairs: old(self)@.1.pairs.insert(property, Set::empty()),
                universe: old(self)@.1.universe,
            }),
    {
        if self.store.storages.contains_key(&property) {
            return false;
        }
        let mut store = self.take_store();
        let ghost before = facts_of(store.storages@, store.universe@);
        let storage = Storage::new(kind);
        proof {
            let after = facts_of(placed(store.storages@, property, Some(storage)), store.universe@);
            assert(agree_except(before, after, Some(property)));
        }
        settle(&mut store, property, Some(storage), false, Ghost(before));
        proof {
            assert(kinds_of(store.storages@) =~= old(self)@.0.insert(property, kind));
            let after = facts_of(store.storages@, store.universe@);
            assert(after.members =~= old(self)@.1.members.insert(property, Set::empty()));
            assert(after.pairs =~= old(self)@.1.pairs.insert(property, Set::empty()));
        }
        self.put_store(store);
        true
    }

    /// Registers `property` with `kind` unless it is registered.
    fn ensure_property(&mut self, property: &P, kind: PropertyKind)
        ensures
            old(self)@.0.contains_key(*property) ==> final(self).cached() == old(self).cached(),
            !old(self)@.0.contains_key(*property) ==> final(self).cached() == surviving(old(self).cached(), Some(*property), false),
            final(self)@.0 == old(self)@.0.insert(*property, kind_after(old(self)@.0, *property, kind)),
            final(self)@.1 == (Facts {
                members: old(self)@.1.members.insert(*property, members_at(old(self)@.1, *property)),
                pairs: old(self)@.1.pairs.insert(*property, pairs_at(old(self)@.1, *property)),
                universe: old(self)@.1.universe,
            }),
    {
        self.check_invariants();
        if !self.store.storages.contains_key(property) {
            self.register_property(*property, kind);
        } else {
            proof {
                assert(old(self)@.0 =~= old(self)@.0.insert(*property, kind_after(old(self)@.0, *property, kind)));
                assert(old(self)@.1.members =~= old(self)@.1.members.insert(*property, members_at(old(self)@.1, *property)));
                assert(old(self)@.1.pairs =~= old(self)@.1.pairs.insert(*property, pairs_at(old(self)@.1, *property)));
            }
        }
    }

    /// Adds `element` to the universe without giving it properties.
    /// Returns whether it was new.
    pub fn insert_element(&mut self, element: E) -> (added: bool)
        ensures
            added == !old(self)@.1.universe.contains(element),
            final(self).cached() == surviving(old(self).cached(), None, added),
            final(self)@.0 == old(self)@.0,
            final(self)@.1 == (Facts { universe: old(self)@.1.universe.insert(element), ..old(self)@.1 }),
    {
        if self.store.universe.contains(&element) {
            proof {
                lemma_surviving_nothing(self.cached());
                assert(old(self)@.1 =~= (Facts { universe: old(self)@.1.universe.insert(element), ..old(self)@.1 }));
            }
            return false;
        }
        let mut store = self.take_store();
        let ghost before = facts_of(store.storages@, store.universe@);
        store.universe.insert(element);
        let mut cache: Vec<CacheEntry<E, P, V>> = Vec::new();
        std::mem::swap(&mut cache, &mut store.cache);
        let ghost after = facts_of(store.storages@, store.universe@);
        store.cache = drop_stale(cache, None, true, Ghost(before), Ghost(after));
        proof {
            assert(after =~= (Facts { universe: old(self)@.1.universe.insert(element), ..old(self)@.1 }));
        }
        self.put_store(store);
        true
    }

    /// Writes to `property` of `element`: sets the flag of a flag property,
    /// and otherwise stores `value` when there is one, as the only value
    /// when `single`. An unregistered property is first registered with
    /// `default`, and the element enters the universe.
    fn write(&mut self, element: E, property: P, default: PropertyKind, value: Option<V>, single: bool)
        ensures
            final(self).cached() == surviving(old(self).cached(), Some(property), !old(self)@.1.universe.contains(element)),
            final(self)@.0 == old(self)@.0.insert(property, kind_after(old(self)@.0, property, default)),
            final(self)@.1 == (match value {
                Some(v) => facts_written(old(self)@.1, kind_after(old(self)@.0, property, default), element, property, v, single),
                None => facts_flagged(old(self)@.1, kind_after(old(self)@.0, property, default), element, property),
            }),
    {
        let ghost start = old(self)@;
        let ghost cached0 = self.cached();
        self.ensure_property(&property, default);
        let ghost cached1 = self.cached();
        let added = self.insert_element(element);
        let ghost cached2 = self.cached();
        proof {
            lemma_surviving_twice(cached0, Some(property), false, None, added);
            lemma_surviving_twice(cached0, None, added, Some(property), false);
            lemma_surviving_twice(surviving(cached0, Some(property), false), None, added, Some(property), false);
            lemma_surviving_twice(cached0, Some(property), added, Some(property), false);
            lemma_surviving_twice(cached0, Some(property), false, Some(property), added);
        }
        let ghost mid = self@;
        let ghost k = kind_after(start.0, property, default);
        let mut store = self.take_store();
        let ghost before = facts_of(store.storages@, store.universe@);
        let ghost storages = store.storages@;
        proof {
            assert(storages.contains_key(property)) by {
                assert(kinds_of(storages).contains_key(property));
            }
        }
        let storage = store.storages.remove(&property).unwrap();
        proof {
            assert(kind_of(storage) == k) by {
                assert(kinds_of(storages)[property] == kind_of(storages[property]));
            }
            assert(mid.1.pairs[property] == pairs_at(start.1, property));
            assert(mid.1.members[property] == members_at(start.1, property));
            assert(before.pairs[property] == pairs_of(storages[property]));
            assert(before.members[property] == members_of(storages[property]));
            assert(pairs_of(storage) == pairs_at(start.1, property));
            assert(members_of(storage) == members_at(start.1, property));
        }
        let kind = storage.kind();
        let updated = if kind == PropertyKind::Flag {
            storage.set_flag(element)
        } else {
            match value {
                Some(v) => if single { storage.put_single(element, v) } else { storage.put_value(element, v) },
                None => storage,
            }
        };
        proof {
            let placed_map = placed(store.storages@, property, Some(updated));
            assert(placed_map =~= storages.insert(property, updated));
            assert(agree_except(before, facts_of(placed_map, store.universe@), Some(property)));
            if kind != PropertyKind::Flag {
                if let Some(v) = value {
                    lemma_written_domain(pairs_of(storage), kind, element, v, single);
                }
                assert(members_of(storage) == domain(pairs_of(storage)));
            }
            assert(members_of(updated).subset_of(store.universe@));
            assert forall|q: P| #[trigger] store.storages@.contains_key(q) && q != property implies members_of(store.storages@[q]).subset_of(store.universe@) by {
                assert(storages.contains_key(q));
            }
        }
        settle(&mut store, property, Some(updated), false, Ghost(before));
        proof {
            lemma_surviving_twice(cached2, Some(property), false, Some(property), false);
            lemma_surviving_twice(cached0, None, added, Some(property), false);
            lemma_surviving_twice(surviving(cached0, Some(property), false), None, added, Some(property), false);
            let after = facts_of(store.storages@, store.universe@);
            assert(kinds_of(store.storages@) =~= start.0.insert(property, k));
            let expected = match value {
                Some(v) => facts_written(start.1, k, element, property, v, single),
                None => facts_flagged(start.1, k, element, property),
            };
            assert(after.members =~= expected.members);
            assert(after.pairs =~= expected.pairs);
            assert(after =~= expected);
        }
        self.put_store(store);
    }

    /// Sets `property` of `element` to exactly `value`; a flag property is
    /// set instead. An unregistered property becomes `Single`. On a unique
    /// property, `value` is taken from its old holder.
    pub fn set(&mut self, element: E, property: P, value: V)
        ensures
            final(self).cached() == surviving(old(self).cached(), Some(property), !old(self)@.1.universe.contains(element)),
            final(self)@.0 == old(self)@.0.insert(property, kind_after(old(self)@.0, property, PropertyKind::Single)),
            final(self)@.1 == facts_written(old(self)@.1, kind_after(old(self)@.0, property, PropertyKind::Single), element, property, value, true),
    {
        self.write(element, property, PropertyKind::Single, Some(value), true)
    }

    /// Adds `value` to a multi property, or sets a single one; a flag
    /// property is set instead. An unregistered property becomes `Multi`.
    pub fn add_value(&mut self, element: E, property: P, value: V)
        ensures
            final(self).cached() == surviving(old(self).cached(), Some(property), !old(self)@.1.universe.contains(element)),
            final(self)@.0 == old(self)@.0.insert(property, kind_after(old(self)@.0, property, PropertyKind::Multi)),
            final(self)@.1 == facts_written(old(self)@.1, kind_after(old(self)@.0, property, PropertyKind::Multi), element, property, value, false),
    {
        self.write(element, property, PropertyKind::Multi, Some(value), false)
    }

    /// Sets a flag. An unregistered property becomes `Flag`; a valued
    /// property is left as it is.
    pub fn set_flag(&mut self, element: E, property: P)
        ensures
            final(self).cached() == surviving(old(self).cached(), Some(property), !old(self)@.1.universe.contains(element)),
            final(self)@.0 == old(self)@.0.insert(property, kind_after(old(self)@.0, property, PropertyKind::Flag)),
            final(self)@.1 == facts_flagged(old(self)@.1, kind_after(old(self)@.0, property, PropertyKind::Flag), element, property),
    {
        self.write(element, property, PropertyKind::Flag, None, false)
    }
}

impl<E: Key, P: Key, V: Key> PropertyQuery<E, P, V> {
    /// Every pair of a property names one of its members.
    pub fn check_pairs(&self)
        ensures
            forall|p: P| #[trigger] self@.1.pairs.contains_key(p) ==> domain(self@.1.pairs[p]).subset_of(self@.1.members[p]),
            forall|p: P| #[trigger] self@.0.contains_key(p) ==> (self@.0[p] == PropertyKind::Flag ==> self@.1.pairs[p] == Set::<(E, V)>::empty())
                && (self@.0[p] != PropertyKind::Flag ==> self@.1.members[p] == domain(self@.1.pairs[p])),
    {
        proof {
            assert forall|p: P| #[trigger] self@.1.pairs.contains_key(p) implies domain(self@.1.pairs[p]).subset_of(self@.1.members[p]) by {
                lemma_pairs_in_members(self.store.storages@[p]);
            }
        }
    }

    /// Takes the storage of a registered property out of `store`.
    fn detach(store: &mut Store<E, P, V>, property: &P) -> (storage: Storage<E, V>)
        requires
            old(store).storages@.contains_key(*property),
        ensures
            storage == old(store).storages@[*property],
            final(store).storages@ == old(store).storages@.remove(*property),
            final(store).universe@ == old(store).universe@,
            final(store).cache@ == old(store).cache@,
    {
        store.storages.remove(property).unwrap()
    }

    /// Removes the value `value` from `property` of `element`. Returns
    /// false, changing nothing, for flags, unregistered properties and
    /// missing pairs.
    pub fn remove_value(&mut self, element: &E, property: &P, value: &V) -> (removed: bool)
        ensures
            removed ==> final(self).cached() == surviving(old(self).cached(), Some(*property), false),
            !removed ==> final(self).cached() == old(self).cached(),
            removed == pairs_at(old(self)@.1, *property).contains((*element, *value)),
            final(self)@.0 == old(self)@.0,
            !removed ==> final(self)@.1 == old(self)@.1,
            removed ==> final(self)@.1 == facts_without_pair(old(self)@.1, *element, *property, *value),
    {
        if !self.has_value(element, property, value) {
            return false;
        }
        let mut store = self.take_store();
        let ghost before = facts_of(store.storages@, store.universe@);
        let ghost storages = store.storages@;
        let storage = Self::detach(&mut store, property);
        let (updated, _) = storage.remove_value(element, value);
        proof {
            let placed_map = placed(store.storages@, *property, Some(updated));
            assert(placed_map =~= storages.insert(*property, updated));
            assert(agree_except(before, facts_of(placed_map, store.universe@), Some(*property)));
            assert(kind_of(storage) != PropertyKind::Flag);
            assert(members_of(storage) == domain(pairs_of(storage)));
            assert(members_of(updated).subset_of(members_of(storage)));
            assert forall|q: P| #[trigger] store.storages@.contains_key(q) && q != *property implies members_of(store.storages@[q]).subset_of(store.universe@) by {
                assert(storages.contains_key(q));
            }
        }
        settle(&mut store, *property, Some(updated), false, Ghost(before));
        proof {
            let after = facts_of(store.storages@, store.universe@);
            assert(kinds_of(store.storages@) =~= old(self)@.0);
            let expected = facts_without_pair(old(self)@.1, *element, *property, *value);
            assert(after.members =~= expected.members);
            assert(after.pairs =~= expected.pairs);
            assert(after =~= expected);
        }
        self.put_store(store);
        true
    }

    /// Removes `property` from `element`. Returns whether it had it.
    pub fn clear_property(&mut self, element: &E, property: &P) -> (removed: bool)
        ensures
            removed ==> final(self).cached() == surviving(old(self).cached(), Some(*property), false),
            !removed ==> final(self).cached() == old(self).cached(),
            removed == members_at(old(self)@.1, *property).contains(*element),
            final(self)@.0 == old(self)@.0,
            !removed ==> final(self)@.1 == old(self)@.1,
            removed ==> final(self)@.1 == facts_without_member(old(self)@.1, *element, *property),
    {
        if !self.has(element, property) {
            return false;
        }
        let mut store = self.take_store();
        let ghost before = facts_of(store.storages@, store.universe@);
        let ghost storages = store.storages@;
        let storage = Self::detach(&mut store, property);
        let (updated, _) = storage.remove_member(element);
        proof {
            let placed_map = placed(store.storages@, *property, Some(updated));
            assert(placed_map =~= storages.insert(*property, updated));
            assert(agree_except(before, facts_of(placed_map, store.universe@), Some(*property)));
            assert forall|q: P| #[trigger] store.storages@.contains_key(q) && q != *property implies members_of(store.storages@[q]).subset_of(store.universe@) by {
                assert(storages.contains_key(q));
            }
        }
        settle(&mut store, *property, Some(updated), false, Ghost(before));
        proof {
            let after = facts_of(store.storages@, store.universe@);
            assert(kinds_of(store.storages@) =~= old(self)@.0);
            let expected = facts_without_member(old(self)@.1, *element, *property);
            assert(after.members =~= expected.members);
            assert(after.pairs =~= expected.pairs);
            assert(after =~= expected);
        }
        self.put_store(store);
        true
    }

    /// Removes `property` from every element and from the schema. Returns
    /// whether it was registered.
    pub fn unregister_property(&mut self, property: &P) -> (removed: bool)
        ensures
            removed ==> final(self).cached() == surviving(old(self).cached(), Some(*property), false),
            !removed ==> final(self).cached() == old(self).cached(),
            removed == old(self)@.0.contains_key(*property),
            final(self)@.0 == old(self)@.0.remove(*property),
            final(self)@.1 == (Facts {
                members: old(self)@.1.members.remove(*property),
                pairs: old(self)@.1.pairs.remove(*property),
                universe: old(self)@.1.universe,
            }),
    {
        if !self.store.storages.contains_key(property) {
            proof {
                assert(old(self)@.0 =~= old(self)@.0.remove(*property));
                assert(old(self)@.1.members =~= old(self)@.1.members.remove(*property));
                assert(old(self)@.1.pairs =~= old(self)@.1.pairs.remove(*property));
            }
            return false;
        }
        let mut store = self.take_store();
        let ghost before = facts_of(store.storages@, store.universe@);
        let ghost storages = store.storages@;
        proof {
            let placed_map = placed(store.storages@, *property, None);
            assert(agree_except(before, facts_of(placed_map, store.universe@), Some(*property)));
        }
        settle(&mut store, *property, None, false, Ghost(before));
        proof {
            let after = facts_of(store.storages@, store.universe@);
            assert(kinds_of(store.storages@) =~= old(self)@.0.remove(*property));
            assert(after.members =~= old(self)@.1.members.remove(*property));
            assert(after.pairs =~= old(self)@.1.pairs.remove(*property));
        }
        self.put_store(store);
        true
    }

    /// Removes `element` from the universe; it holds no property.
    fn leave_universe(&mut self, element: &E)
        requires
            forall|p: P| #[trigger] old(self)@.1.members.contains_key(p) ==> !old(self)@.1.members[p].contains(*element),
        ensures
            final(self)@.0 == old(self)@.0,
            final(self)@.1 == (Facts { universe: old(self)@.1.universe.remove(*element), ..old(self)@.1 }),
            final(self).cached() == surviving(old(self).cached(), None, true),
    {
        let mut store = self.take_store();
        let ghost before = facts_of(store.storages@, store.universe@);
        store.universe.remove(element);
        let mut cache: Vec<CacheEntry<E, P, V>> = Vec::new();
        std::mem::swap(&mut cache, &mut store.cache);
        let ghost after = facts_of(store.storages@, store.universe@);
        store.cache = drop_stale(cache, None, true, Ghost(before), Ghost(after));
        proof {
            assert forall|p: P| #[trigger] store.storages@.contains_key(p) implies members_of(store.storages@[p]).subset_of(store.universe@) by {
                assert(before.members.contains_key(p));
            }
            assert(after =~= (Facts { universe: old(self)@.1.universe.remove(*element), ..old(self)@.1 }));
        }
        self.put_store(store);
    }

    /// Removes `element` with all its properties. Returns whether it was
    /// in the universe. Cached results that read neither the universe nor
    /// a property the element held stay cached.
    pub fn remove_element(&mut self, element: &E) -> (removed: bool)
        ensures
            removed == old(self)@.1.universe.contains(*element),
            final(self)@.0 == old(self)@.0,
            final(self)@.1 == facts_without_element(old(self)@.1, *element),
            final(self).cached() == surviving_all(old(self).cached(), held_by(old(self)@.1, *element), true),
    {
        self.check_invariants();
        self.check_pairs();
        let was = self.store.universe.contains(element);
        let properties = self.properties();
        let ghost start = self@;
        let ghost cached0 = self.cached();
        proof {
            lemma_surviving_all_nothing(cached0);
            assert(Set::new(|q: P| properties@.take(0).contains(q) && members_at(start.1, q).contains(*element)) =~= Set::<P>::empty());
        }
        let mut i: usize = 0;
        while i < properties.len()
            invariant
                cached0 == old(self).cached(),
                start == old(self)@,
                self.cached() == surviving_all(cached0, Set::new(|q: P| properties@.take(i as int).contains(q) && members_at(start.1, q).contains(*element)), false),
                i <= properties@.len(),
                properties@.to_set() == start.0.dom(),
                properties@.no_duplicates(),
                self@.0 == start.0,
                self@.1.universe == start.1.universe,
                self@.1.members.dom() == start.1.members.dom(),
                self@.1.pairs.dom() == start.1.pairs.dom(),
                start.0.dom() == start.1.members.dom(),
                start.1.members.dom() == start.1.pairs.dom(),
                forall|p: P| #[trigger] start.1.pairs.contains_key(p) ==> domain(start.1.pairs[p]).subset_of(start.1.members[p]),
                forall|p: P| #[trigger] self@.1.members.contains_key(p) ==> self@.1.members[p] == (if properties@.take(i as int).contains(p) {
                    start.1.members[p].remove(*element)
                } else {
                    start.1.members[p]
                }),
                forall|p: P| #[trigger] self@.1.pairs.contains_key(p) ==> self@.1.pairs[p] == (if properties@.take(i as int).contains(p) {
                    start.1.pairs[p].filter(|q: (E, V)| q.0 != *element)
                } else {
                    start.1.pairs[p]
                }),
            decreases properties@.len() - i,
        {
            let property = properties[i];
            let ghost mid = self@;
            proof {
                assert(properties@.take(i + 1) =~= properties@.take(i as int).push(property));
                assert(!properties@.take(i as int).contains(property)) by {
                    if properties@.take(i as int).contains(property) {
                        let j = choose|j: int| 0 <= j < i && #[trigger] properties@.take(i as int)[j] == property;
                        assert(properties@[j] == properties@[i as int]);
                    }
                }
                assert(start.1.members.contains_key(property));
            }
            let ghost before_cache = self.cached();
            let removed = self.clear_property(element, &property);
            proof {
                let done = Set::new(|q: P| properties@.take(i as int).contains(q) && members_at(start.1, q).contains(*element));
                let next = Set::new(|q: P| properties@.take(i + 1).contains(q) && members_at(start.1, q).contains(*element));
                if removed {
                    lemma_surviving_more(cached0, done, false, Some(property), false);
                    assert(next =~= done.insert(property));
                } else {
                    assert(next =~= done);
                }
                if !removed {
                    assert(!start.1.members[property].contains(*element));
                    assert(start.1.members[property].remove(*element) =~= start.1.members[property]);
                    assert(start.1.pairs[property].filter(|q: (E, V)| q.0 != *element) =~= start.1.pairs[property]) by {
                        assert forall|q: (E, V)| start.1.pairs[property].contains(q) implies q.0 != *element by {
                            assert(start.1.pairs[property].contains((q.0, q.1)));
                            assert(domain(start.1.pairs[property]).contains(q.0));
                        }
                    }
                }
            }
            i += 1;
        }
        proof {
            assert(properties@.take(i as int) =~= properties@);
            assert forall|p: P| #[trigger] self@.1.members.contains_key(p) implies !self@.1.members[p].contains(*element) by {}
            assert(Set::new(|q: P| properties@.take(i as int).contains(q) && members_at(start.1, q).contains(*element)) =~= held_by(start.1, *element)) by {
                assert forall|q: P| #[trigger] held_by(start.1, *element).contains(q) implies properties@.contains(q) by {
                    assert(start.1.members.contains_key(q));
                    assert(properties@.to_set().contains(q));
                }
            }
            lemma_surviving_more(cached0, held_by(start.1, *element), false, None, true);
        }
        self.leave_universe(element);
        proof {
            let expected = facts_without_element(start.1, *element);
            assert(self@.1.members =~= expected.members);
            assert(self@.1.pairs =~= expected.pairs);
            assert(self@.1 =~= expected);
        }
        was
    }

    /// Removes every element of `elements`, with all their properties.
    /// Cached results that read no property one of them held, and not the
    /// universe when `elements` is not empty, stay cached.
    pub fn remove_elements(&mut self, elements: &Vec<E>)
        ensures
            final(self)@.0 == old(self)@.0,
            forall|e: E| #[trigger] elements@.contains(e) ==> !final(self)@.1.universe.contains(e),
            final(self).cached() == surviving_all(old(self).cached(), held_by_any(old(self)@.1, elements@.to_set()), elements@.len() > 0),
    {
        let ghost cached0 = self.cached();
        let ghost start = self@;
        proof {
            lemma_surviving_all_nothing(cached0);
            assert(held_by_any(start.1, elements@.take(0).to_set()) =~= Set::<P>::empty());
        }
        let mut i: usize = 0;
        while i < elements.len()
            invariant
                i <= elements@.len(),
                self@.0 == old(self)@.0,
                start == old(self)@,
                cached0 == old(self).cached(),
                forall|j: int| 0 <= j < i ==> !self@.1.universe.contains(#[trigger] elements@[j]),
                self@.1.members.dom() == start.1.members.dom(),
                forall|p: P| #[trigger] self@.1.members.contains_key(p)
                    ==> self@.1.members[p] == start.1.members[p].difference(elements@.take(i as int).to_set()),
                self.cached() == surviving_all(cached0, held_by_any(start.1, elements@.take(i as int).to_set()), i > 0),
            decreases elements@.len() - i,
        {
            let e = elements[i];
            let ghost mid = self@;
            self.remove_element(&e);
            proof {
                let done = elements@.take(i as int).to_set();
                let next = elements@.take(i + 1).to_set();
                assert(elements@.take(i + 1) =~= elements@.take(i as int).push(e));
                assert(next =~= done.insert(e));
                lemma_surviving_all_twice(cached0, held_by_any(start.1, done), i > 0, held_by(mid.1, e), true);
                assert(held_by_any(start.1, done).union(held_by(mid.1, e)) =~= held_by_any(start.1, next)) by {
                    assert forall|p: P| #[trigger] held_by_any(start.1, next).contains(p) implies held_by_any(start.1, done).union(held_by(mid.1, e)).contains(p) by {
                        let x = choose|x: E| next.contains(x) && #[trigger] members_at(start.1, p).contains(x);
                        if !done.contains(x) {
                            assert(x == e);
                            assert(mid.1.members.contains_key(p));
                        }
                    }
                    assert forall|p: P| #[trigger] held_by(mid.1, e).contains(p) implies held_by_any(start.1, next).contains(p) by {
                        assert(mid.1.members.contains_key(p));
                        assert(members_at(start.1, p).contains(e));
                    }
                }
                assert forall|p: P| #[trigger] self@.1.members.contains_key(p)
                    implies self@.1.members[p] == start.1.members[p].difference(next) by {
                    assert(self@.1.members[p] =~= start.1.members[p].difference(next));
                }
            }
            i += 1;
        }
        proof {
            assert(elements@.take(i as int) =~= elements@);
        }
    }

    /// Removes every element, property and cached result.
    pub fn clear(&mut self)
        ensures
            final(self)@.0 == Map::<P, PropertyKind>::empty(),
            final(self)@.1.members == Map::<P, Set<E>>::empty(),
            final(self)@.1.pairs == Map::<P, Set<(E, V)>>::empty(),
            final(self)@.1.universe == Set::<E>::empty(),
            final(self).cached() == Seq::<Expr<P, V>>::empty(),
    {
        *self = PropertyQuery::new();
    }
}

impl<E: Key, P: Key, V: Key> PropertyQuery<E, P, V> {
    /// Replaces every value of `property` of `element` by `values`, added
    /// in turn (for a single property the last one wins). An unregistered
    /// property becomes `Multi`.
    pub fn set_values(&mut self, element: E, property: P, values: &Vec<V>)
        ensures
            final(self)@.0 == old(self)@.0.insert(property, kind_after(old(self)@.0, property, PropertyKind::Multi)),
            final(self)@.1 == facts_adding(
                facts_without_member(facts_touched(old(self)@.1, element, property), element, property),
                kind_after(old(self)@.0, property, PropertyKind::Multi), element, property, values@),
            final(self).cached() == surviving(old(self).cached(),
                if values@.len() > 0 || !old(self)@.0.contains_key(property) || members_at(old(self)@.1, property).contains(element) {
                    Some(property)
                } else {
                    None
                }, !old(self)@.1.universe.contains(element)),
    {
        let ghost k = kind_after(old(self)@.0, property, PropertyKind::Multi);
        let ghost cached0 = self.cached();
        let ghost fresh = !old(self)@.0.contains_key(property);
        self.ensure_property(&property, PropertyKind::Multi);
        let ghost cached1 = self.cached();
        let added = self.insert_element(element);
        proof {
            if fresh {
                lemma_surviving_twice(cached0, Some(property), false, None, added);
            }
        }
        self.check_pairs();
        let ghost touched = self@.1;
        proof {
            assert(touched =~= facts_touched(old(self)@.1, element, property));
        }
        let ghost cached2 = self.cached();
        let removed = self.clear_property(&element, &property);
        let ghost hit = fresh || removed;
        proof {
            assert(removed == members_at(old(self)@.1, property).contains(element));
            if removed {
                if fresh {
                    lemma_surviving_twice(cached0, Some(property), added, Some(property), false);
                } else {
                    lemma_surviving_twice(cached0, None, added, Some(property), false);
                }
            }
        }
        proof {
            let cleared = facts_without_member(touched, element, property);
            if !removed {
                assert(touched.members[property].remove(element) =~= touched.members[property]);
                assert(touched.pairs[property].filter(|q: (E, V)| q.0 != element) =~= touched.pairs[property]) by {
                    assert forall|q: (E, V)| touched.pairs[property].contains(q) implies q.0 != element by {
                        assert(touched.pairs[property].contains((q.0, q.1)));
                        assert(domain(touched.pairs[property]).contains(q.0));
                    }
                }
                assert(cleared.members =~= touched.members);
                assert(cleared.pairs =~= touched.pairs);
                assert(cleared =~= touched);
            }
        }
        let ghost cleared = self@.1;
        let mut i: usize = 0;
        while i < values.len()
            invariant
                cached0 == old(self).cached(),
                added == !old(self)@.1.universe.contains(element),
                self.cached() == surviving(cached0, if hit || i > 0 { Some(property) } else { None }, added),
                self@.1.universe.contains(element),
                i <= values@.len(),
                self@.0 == old(self)@.0.insert(property, k),
                self@.0.contains_key(property),
                self@.0[property] == k,
                self@.1 == facts_adding(cleared, k, element, property, values@.take(i as int)),
            decreases values@.len() - i,
        {
            let ghost before_cache = self.cached();
            self.add_value(element, property, values[i]);
            proof {
                if hit || i > 0 {
                    lemma_surviving_twice(cached0, Some(property), added, Some(property), false);
                } else {
                    lemma_surviving_twice(cached0, None, added, Some(property), false);
                }
                let t = values@.take(i + 1);
                assert(t.drop_last() =~= values@.take(i as int));
                assert(self@.0 =~= old(self)@.0.insert(property, k));
            }
            i += 1;
        }
        proof {
            assert(values@.take(i as int) =~= values@);
        }
    }

    /// Adds `element` to the universe and gives it each `(property, value)`
    /// in turn; unregistered properties become `Single`. Multi properties
    /// collect every value given; single properties keep the last one.
    pub fn add(&mut self, element: E, pairs: &Vec<(P, V)>)
        ensures
            final(self)@ == state_adding(old(self)@.0, Facts { universe: old(self)@.1.universe.insert(element), ..old(self)@.1 }, element, pairs@),
            final(self).cached() == surviving_all(old(self).cached(), pairs@.map_values(|q: (P, V)| q.0).to_set(), !old(self)@.1.universe.contains(element)),
    {
        let ghost cached0 = self.cached();
        let added = self.insert_element(element);
        let ghost start = self@;
        proof {
            lemma_surviving_all_nothing(cached0);
            lemma_surviving_more(cached0, Set::empty(), false, None, added);
            assert(pairs@.take(0).map_values(|q: (P, V)| q.0).to_set() =~= Set::<P>::empty());
        }
        let mut i: usize = 0;
        while i < pairs.len()
            invariant
                cached0 == old(self).cached(),
                added == !old(self)@.1.universe.contains(element),
                self.cached() == surviving_all(cached0, pairs@.take(i as int).map_values(|q: (P, V)| q.0).to_set(), added),
                i <= pairs@.len(),
                start.1.universe.contains(element),
                self@ == state_adding(start.0, start.1, element, pairs@.take(i as int)),
                self@.1.universe.contains(element),
            decreases pairs@.len() - i,
        {
            let (property, value) = pairs[i];
            let ghost before = self@;
            let ghost before_cache = self.cached();
            self.ensure_property(&property, PropertyKind::Single);
            let ghost mid_cache = self.cached();
            self.add_value(element, property, value);
            proof {
                let done = pairs@.take(i as int).map_values(|q: (P, V)| q.0).to_set();
                if mid_cache != before_cache {
                    lemma_surviving_twice(before_cache, Some(property), false, Some(property), false);
                }
                lemma_surviving_more(cached0, done, added, Some(property), false);
                assert(pairs@.take(i + 1).map_values(|q: (P, V)| q.0) =~= pairs@.take(i as int).map_values(|q: (P, V)| q.0).push(property));
                assert(pairs@.take(i + 1).map_values(|q: (P, V)| q.0).to_set() =~= done.insert(property));
                let t = pairs@.take(i + 1);
                assert(t.drop_last() =~= pairs@.take(i as int));
                assert(t.last() == (property, value));
                let k = kind_after(before.0, property, PropertyKind::Single);
                assert(self@.0 =~= before.0.insert(property, k));
                let touched = Facts {
                    members: before.1.members.insert(property, members_at(before.1, property)),
                    pairs: before.1.pairs.insert(property, pairs_at(before.1, property)),
                    universe: before.1.universe,
                };
                let expected = facts_written(before.1, k, element, property, value, false);
                assert(self@.1 == facts_written(touched, k, element, property, value, false));
                assert(self@.1.members =~= expected.members);
                assert(self@.1.pairs =~= expected.pairs);
                assert(self@.1.universe =~= expected.universe);
                assert(self@.1 =~= expected);
            }
            i += 1;
        }
        proof {
            assert(pairs@.take(i as int) =~= pairs@);
        }
    }

    /// A query with these properties registered, the first registration of
    /// a property winning.
    pub fn with_properties(properties: &Vec<(P, PropertyKind)>) -> (query: Self)
        ensures
            query@.0 == kinds_registering(properties@),
            query@.1.members == kinds_registering(properties@).map_values(|k: PropertyKind| Set::<E>::empty()),
            query@.1.pairs == kinds_registering(properties@).map_values(|k: PropertyKind| Set::<(E, V)>::empty()),
            query@.1.universe == Set::<E>::empty(),
    {
        let mut query = PropertyQuery::new();
        let mut i: usize = 0;
        proof {
            assert(properties@.take(0) =~= Seq::<(P, PropertyKind)>::empty());
            assert(query@.1.members =~= Map::<P, PropertyKind>::empty().map_values(|k: PropertyKind| Set::<E>::empty()));
            assert(query@.1.pairs =~= Map::<P, PropertyKind>::empty().map_values(|k: PropertyKind| Set::<(E, V)>::empty()));
        }
        while i < properties.len()
            invariant
                i <= properties@.len(),
                query@.0 == kinds_registering(properties@.take(i as int)),
                query@.1.members == kinds_registering(properties@.take(i as int)).map_values(|k: PropertyKind| Set::<E>::empty()),
                query@.1.pairs == kinds_registering(properties@.take(i as int)).map_values(|k: PropertyKind| Set::<(E, V)>::empty()),
                query@.1.universe == Set::<E>::empty(),
            decreases properties@.len() - i,
        {
            let (property, kind) = properties[i];
            query.register_property(property, kind);
            proof {
                let t = properties@.take(i + 1);
                assert(t.drop_last() =~= properties@.take(i as int));
                assert(t.last() == (property, kind));
                let m = kinds_registering(t);
                assert(query@.1.members =~= m.map_values(|k: PropertyKind| Set::<E>::empty()));
                assert(query@.1.pairs =~= m.map_values(|k: PropertyKind| Set::<(E, V)>::empty()));
            }
            i += 1;
        }
        proof {
            assert(properties@.take(i as int) =~= properties@);
        }
        query
    }
}

impl<E: Key, P: Key, V: Key> PropertyQuery<E, P, V> {
    /// Whether everything held here is also held in `other`, under
    /// properties registered there with the same kinds.
    pub fn is_subset(&self, other: &Self) -> (within: bool)
        ensures
            within == facts_within(self@.0, self@.1, other@.0, other@.1),
    {
        self.check_invariants();
        other.check_invariants();
        self.check_pairs();
        let properties = self.properties();
        let mut i: usize = 0;
        while i < properties.len()
            invariant
                i <= properties@.len(),
                properties@.to_set() == self@.0.dom(),
                forall|p: P| #[trigger] self@.1.pairs.contains_key(p) ==> domain(self@.1.pairs[p]).subset_of(self@.1.members[p]),
                self@.0.dom() == self@.1.members.dom(),
                self@.1.members.dom() == self@.1.pairs.dom(),
                other@.0.dom() == other@.1.members.dom(),
                other@.1.members.dom() == other@.1.pairs.dom(),
                forall|j: int| 0 <= j < i ==> {
                    let p = #[trigger] properties@[j];
                    &&& other@.0.contains_key(p)
                    &&& other@.0[p] == self@.0[p]
                    &&& (self@.0[p] == PropertyKind::Flag ==> self@.1.members[p].subset_of(other@.1.members[p]))
                    &&& (self@.0[p] != PropertyKind::Flag ==> self@.1.pairs[p].subset_of(other@.1.pairs[p]))
                },
            decreases properties@.len() - i,
        {
            let p = properties[i];
            proof {
                assert(properties@.to_set().contains(p));
            }
            let kind = self.property_kind(&p).unwrap();
            let theirs = other.property_kind(&p);
            match theirs {
                None => {
                    return false;
                },
                Some(k) => {
                    if k != kind {
                        return false;
                    }
                },
            }
            let members = self.members_of(&p);
            let mut j: usize = 0;
            while j < members.len()
                invariant
                    j <= members@.len(),
                    members@.to_set() == self@.1.members[p],
                    self@.1.members.contains_key(p),
                    self@.1.pairs.contains_key(p),
                    other@.1.members.contains_key(p),
                    other@.1.pairs.contains_key(p),
                    self@.0.contains_key(p),
                    kind == self@.0[p],
                    forall|l: int| 0 <= l < j ==> {
                        let e = #[trigger] members@[l];
                        &&& (kind == PropertyKind::Flag ==> other@.1.members[p].contains(e))
                        &&& (kind != PropertyKind::Flag ==> forall|v: V| self@.1.pairs[p].contains((e, v)) ==> other@.1.pairs[p].contains((e, v)))
                    },
                decreases members@.len() - j,
            {
                let e = members[j];
                if kind == PropertyKind::Flag {
                    if !other.has(&e, &p) {
                        proof {
                            assert(self@.1.members[p].contains(e));
                        }
                        return false;
                    }
                } else {
                    let values = self.values(&e, &p).iter();
                    let mut l: usize = 0;
                    while l < values.len()
                        invariant
                            l <= values@.len(),
                            values@.to_set() == image(self@.1.pairs[p], e),
                            self@.1.pairs.contains_key(p),
                            other@.1.pairs.contains_key(p),
                            self@.0.contains_key(p),
                            kind == self@.0[p],
                            kind != PropertyKind::Flag,
                            forall|m: int| 0 <= m < l ==> other@.1.pairs[p].contains((e, #[trigger] values@[m])),
                        decreases values@.len() - l,
                    {
                        if !other.has_value(&e, &p, &values[l]) {
                            proof {
                                assert(values@.to_set().contains(values@[l as int]));
                                assert(self@.1.pairs[p].contains((e, values@[l as int])));
                                assert(!self@.1.pairs[p].subset_of(other@.1.pairs[p]));
                            }
                            return false;
                        }
                        l += 1;
                    }
                    proof {
                        assert forall|v: V| self@.1.pairs[p].contains((e, v)) implies other@.1.pairs[p].contains((e, v)) by {
                            assert(image(self@.1.pairs[p], e).contains(v));
                            assert(values@.to_set().contains(v));
                            let m = choose|m: int| 0 <= m < values@.len() && values@[m] == v;
                        }
                    }
                }
                j += 1;
            }
            proof {
                if kind == PropertyKind::Flag {
                    assert forall|e: E| self@.1.members[p].contains(e) implies other@.1.members[p].contains(e) by {
                        assert(members@.to_set().contains(e));
                        let l = choose|l: int| 0 <= l < members@.len() && members@[l] == e;
                    }
                } else {
                    assert forall|q: (E, V)| self@.1.pairs[p].contains(q) implies other@.1.pairs[p].contains(q) by {
                        assert(self@.1.pairs[p].contains((q.0, q.1)));
                        assert(domain(self@.1.pairs[p]).contains(q.0));
                        assert(members@.to_set().contains(q.0));
                        let l = choose|l: int| 0 <= l < members@.len() && members@[l] == q.0;
                    }
                }
            }
            i += 1;
        }
        proof {
            assert forall|p: P| #[trigger] self@.0.contains_key(p) implies {
                &&& other@.0.contains_key(p)
                &&& other@.0[p] == self@.0[p]
                &&& (self@.0[p] == PropertyKind::Flag ==> self@.1.members[p].subset_of(other@.1.members[p]))
                &&& (self@.0[p] != PropertyKind::Flag ==> self@.1.pairs[p].subset_of(other@.1.pairs[p]))
            } by {
                assert(properties@.to_set().contains(p));
                let j = choose|j: int| 0 <= j < properties@.len() && properties@[j] == p;
            }
        }
        true
    }
}

/// The pairs of `pairs` whose element is in `done`.
pub open spec fn pairs_for<E, V>(pairs: Set<(E, V)>, done: Set<E>) -> Set<(E, V)> {
    pairs.filter(|q: (E, V)| done.contains(q.0))
}

/// What a valued property of kind `kind` holds once `fuse` in `mode` has
/// copied `theirs` into `mine`.
/// - Overwrite: every element of `theirs` ends with exactly its values
///   there; a unique kind also takes those values from any other element.
/// - Merge, multi-valued: the values are added to what each element has;
///   a unique kind takes them from any other element.
/// - Merge, single-valued: an element that already has a value keeps it,
///   the others take the incoming one.
pub open spec fn fused_pairs<E, V>(kind: PropertyKind, mode: FuseMode, mine: Set<(E, V)>, theirs: Set<(E, V)>) -> Set<(E, V)> {
    let unique = uniqueness_of(kind) == Uniqueness::Unique;
    if mode == FuseMode::Overwrite {
        mine.filter(|q: (E, V)| !domain(theirs).contains(q.0) && (unique ==> !range(theirs).contains(q.1))).union(theirs)
    } else if cardinality_of(kind) == Cardinality::Multi {
        mine.filter(|q: (E, V)| unique ==> !range(theirs).contains(q.1)).union(theirs)
    } else {
        mine.union(theirs.filter(|q: (E, V)| !domain(mine).contains(q.0)))
    }
}

/// What holds of a unique single-valued property after a merging `fuse`,
/// whatever order its elements are copied in: every pair comes from one
/// side; an incoming pair whose element had no value here arrives; a pair
/// here whose value the other side does not use stays.
pub open spec fn fused_within<E, V>(mine: Set<(E, V)>, theirs: Set<(E, V)>, out: Set<(E, V)>) -> bool {
    &&& out.subset_of(mine.union(theirs))
    &&& forall|q: (E, V)| #[trigger] theirs.contains(q) && !domain(mine).contains(q.0) ==> out.contains(q)
    &&& forall|q: (E, V)| #[trigger] mine.contains(q) && !range(theirs).contains(q.1) ==> out.contains(q)
}

/// Every element the other side holds a value for still holds one after
/// a fuse, unless a unique single-valued property is merged.
proof fn lemma_fused_keeps_incoming<E, V>(kind: PropertyKind, mode: FuseMode, mine: Set<(E, V)>, theirs: Set<(E, V)>)
    requires
        !(kind == PropertyKind::UniqueSingle && mode == FuseMode::Merge),
    ensures
        domain(theirs).subset_of(domain(fused_pairs(kind, mode, mine, theirs))),
{
    let out = fused_pairs(kind, mode, mine, theirs);
    assert forall|e: E| #[trigger] domain(theirs).contains(e) implies domain(out).contains(e) by {
        let v = choose|v: V| #[trigger] theirs.contains((e, v));
        if mode == FuseMode::Overwrite || cardinality_of(kind) == Cardinality::Multi {
            assert(out.contains((e, v)));
        } else if domain(mine).contains(e) {
            let w = choose|w: V| #[trigger] mine.contains((e, w));
            assert(out.contains((e, w)));
        } else {
            assert(out.contains((e, v)));
        }
    }
}

/// One element to a value at most.
pub open spec fn functional<E, V>(pairs: Set<(E, V)>) -> bool {
    forall|x: E, a: V, b: V| #[trigger] pairs.contains((x, a)) && #[trigger] pairs.contains((x, b)) ==> a == b
}

/// One value to an element at most.
pub open spec fn one_owner<E, V>(pairs: Set<(E, V)>) -> bool {
    forall|a: E, b: E, w: V| #[trigger] pairs.contains((a, w)) && #[trigger] pairs.contains((b, w)) ==> a == b
}

/// Copying one more element's single value with overwriting.
proof fn lemma_fuse_overwrite_single<E, V>(k: PropertyKind, mine: Set<(E, V)>, theirs: Set<(E, V)>, done: Set<E>, e: E, v: V)
    requires
        cardinality_of(k) == Cardinality::Single,
        theirs.contains((e, v)),
        functional(theirs),
        uniqueness_of(k) == Uniqueness::Unique ==> one_owner(theirs),
    ensures
        after_put_single(fused_pairs(k, FuseMode::Overwrite, mine, pairs_for(theirs, done)), k, e, v)
            == fused_pairs(k, FuseMode::Overwrite, mine, pairs_for(theirs, done.insert(e))),
{
    let a = pairs_for(theirs, done);
    let b = pairs_for(theirs, done.insert(e));
    assert(b =~= a.insert((e, v))) by {
        assert forall|q: (E, V)| #[trigger] b.contains(q) implies a.insert((e, v)).contains(q) by {
            if q.0 == e {
                assert(theirs.contains((e, q.1)));
            }
        }
    }
    let lhs = after_put_single(fused_pairs(k, FuseMode::Overwrite, mine, a), k, e, v);
    let rhs = fused_pairs(k, FuseMode::Overwrite, mine, b);
    assert forall|q: (E, V)| #[trigger] lhs.contains(q) implies rhs.contains(q) by {
        if q != (e, v) && !a.contains(q) {
            if domain(b).contains(q.0) {
                let w = choose|w: V| #[trigger] b.contains((q.0, w));
            }
            if uniqueness_of(k) == Uniqueness::Unique && range(b).contains(q.1) {
                let x = choose|x: E| #[trigger] b.contains((x, q.1));
            }
        }
    }
    assert forall|q: (E, V)| #[trigger] rhs.contains(q) implies lhs.contains(q) by {
        if q != (e, v) {
            if a.contains(q) {
                if q.0 == e {
                    assert(theirs.contains((e, q.1)));
                }
                if uniqueness_of(k) == Uniqueness::Unique && q.1 == v {
                    assert(theirs.contains((q.0, v)));
                }
            } else {
                assert(!domain(b).contains(q.0));
                if domain(a).contains(q.0) {
                    let w = choose|w: V| #[trigger] a.contains((q.0, w));
                    assert(b.contains((q.0, w)));
                }
                if uniqueness_of(k) == Uniqueness::Unique && range(a).contains(q.1) {
                    let x = choose|x: E| #[trigger] a.contains((x, q.1));
                    assert(b.contains((x, q.1)));
                }
                assert(q.0 != e) by {
                    assert(b.contains((e, v)));
                }
                if uniqueness_of(k) == Uniqueness::Unique {
                    assert(q.1 != v) by {
                        assert(b.contains((e, v)));
                    }
                }
            }
        }
    }
    assert(lhs =~= rhs);
}

/// Merging one more element's single value of a shared property: it is
/// taken only when the element has no value yet.
proof fn lemma_fuse_merge_single<E, V>(k: PropertyKind, mine: Set<(E, V)>, theirs: Set<(E, V)>, done: Set<E>, e: E, v: V)
    requires
        k == PropertyKind::Single,
        theirs.contains((e, v)),
        functional(theirs),
        !done.contains(e),
    ensures
        domain(fused_pairs(k, FuseMode::Merge, mine, pairs_for(theirs, done))).contains(e) == domain(mine).contains(e),
        domain(mine).contains(e) ==> fused_pairs(k, FuseMode::Merge, mine, pairs_for(theirs, done))
            == fused_pairs(k, FuseMode::Merge, mine, pairs_for(theirs, done.insert(e))),
        !domain(mine).contains(e) ==> after_put_single(fused_pairs(k, FuseMode::Merge, mine, pairs_for(theirs, done)), k, e, v)
            == fused_pairs(k, FuseMode::Merge, mine, pairs_for(theirs, done.insert(e))),
{
    let a = pairs_for(theirs, done);
    let b = pairs_for(theirs, done.insert(e));
    let cur = fused_pairs(k, FuseMode::Merge, mine, a);
    assert(b =~= a.insert((e, v))) by {
        assert forall|q: (E, V)| #[trigger] b.contains(q) implies a.insert((e, v)).contains(q) by {
            if q.0 == e {
                assert(theirs.contains((e, q.1)));
            }
        }
    }
    if domain(cur).contains(e) {
        let w = choose|w: V| #[trigger] cur.contains((e, w));
        assert(!a.contains((e, w)));
        assert(domain(mine).contains(e));
    }
    if domain(mine).contains(e) {
        let w = choose|w: V| #[trigger] mine.contains((e, w));
        assert(cur.contains((e, w)));
        assert(cur =~= fused_pairs(k, FuseMode::Merge, mine, b));
    } else {
        let lhs = after_put_single(cur, k, e, v);
        let rhs = fused_pairs(k, FuseMode::Merge, mine, b);
        assert forall|q: (E, V)| #[trigger] lhs.contains(q) implies rhs.contains(q) by {
        }
        assert forall|q: (E, V)| #[trigger] rhs.contains(q) implies lhs.contains(q) by {
            if q != (e, v) && q.0 == e {
                if mine.contains(q) {
                    assert(domain(mine).contains(e));
                }
                assert(theirs.contains((e, q.1)));
            }
        }
        assert(lhs =~= rhs);
    }
}

/// Merging one more element's single value of a unique property keeps what
/// `fused_within` says, whether the element already has a value and is
/// skipped or has none and takes the incoming one.
proof fn lemma_fuse_merge_unique_single<E, V>(mine: Set<(E, V)>, theirs: Set<(E, V)>, done: Set<E>, e: E, v: V, cur: Set<(E, V)>)
    requires
        theirs.contains((e, v)),
        functional(theirs),
        one_owner(theirs),
        !done.contains(e),
        fused_within(mine, pairs_for(theirs, done), cur),
    ensures
        domain(cur).contains(e) ==> fused_within(mine, pairs_for(theirs, done.insert(e)), cur),
        !domain(cur).contains(e) ==> fused_within(mine, pairs_for(theirs, done.insert(e)),
            after_put_single(cur, PropertyKind::UniqueSingle, e, v)),
{
    let a = pairs_for(theirs, done);
    let b = pairs_for(theirs, done.insert(e));
    assert(b =~= a.insert((e, v))) by {
        assert forall|q: (E, V)| #[trigger] b.contains(q) implies a.insert((e, v)).contains(q) by {
            if q.0 == e {
                assert(theirs.contains((e, q.1)));
            }
        }
    }
    if domain(cur).contains(e) {
        let w = choose|w: V| #[trigger] cur.contains((e, w));
        assert(mine.union(a).contains((e, w)));
        assert(!a.contains((e, w)));
        assert(domain(mine).contains(e));
        assert forall|q: (E, V)| #[trigger] mine.contains(q) && !range(b).contains(q.1) implies cur.contains(q) by {
            if range(a).contains(q.1) {
                let x = choose|x: E| #[trigger] a.contains((x, q.1));
                assert(b.contains((x, q.1)));
            }
        }
    } else {
        let out = after_put_single(cur, PropertyKind::UniqueSingle, e, v);
        assert forall|q: (E, V)| #[trigger] b.contains(q) && !domain(mine).contains(q.0) implies out.contains(q) by {
            if q != (e, v) {
                assert(a.contains(q));
                assert(cur.contains(q));
                assert(q.0 != e);
                assert(q.1 != v) by {
                    if q.1 == v {
                        assert(theirs.contains((q.0, v)));
                    }
                }
            }
        }
        assert forall|q: (E, V)| #[trigger] mine.contains(q) && !range(b).contains(q.1) implies out.contains(q) by {
            assert(b.contains((e, v)));
            if range(a).contains(q.1) {
                let x = choose|x: E| #[trigger] a.contains((x, q.1));
                assert(b.contains((x, q.1)));
            }
            assert(cur.contains(q));
            assert(q.0 != e);
            assert(q.1 != v);
        }
    }
}

/// `pairs` after each of `values` is added in turn to `e`.
pub open spec fn pairs_adding<E, V>(pairs: Set<(E, V)>, k: PropertyKind, e: E, values: Seq<V>) -> Set<(E, V)>
    decreases values.len(),
{
    if values.len() == 0 {
        pairs
    } else {
        after_put_value(pairs_adding(pairs, k, e, values.drop_last()), k, e, values.last())
    }
}

/// `pairs` with `e` given every value of `vs`: a unique kind first takes
/// them from their other owners.
pub open spec fn pairs_with_values<E, V>(pairs: Set<(E, V)>, k: PropertyKind, e: E, vs: Set<V>) -> Set<(E, V)> {
    pairs.filter(|q: (E, V)| uniqueness_of(k) == Uniqueness::Unique ==> !vs.contains(q.1))
        .union(Set::new(|q: (E, V)| q.0 == e && vs.contains(q.1)))
}

/// Adding values one at a time to a multi-valued property gives `e` all of
/// them at once.
proof fn lemma_pairs_adding<E, V>(pairs: Set<(E, V)>, k: PropertyKind, e: E, values: Seq<V>)
    requires
        cardinality_of(k) == Cardinality::Multi,
    ensures
        pairs_adding(pairs, k, e, values) == pairs_with_values(pairs, k, e, values.to_set()),
    decreases values.len(),
{
    if values.len() == 0 {
        assert(pairs_with_values(pairs, k, e, values.to_set()) =~= pairs);
    } else {
        let init = values.drop_last();
        lemma_pairs_adding(pairs, k, e, init);
        assert(values =~= init.push(values.last()));
        assert(values.to_set() =~= init.to_set().insert(values.last())) by {
            init.lemma_push_to_set_commute(values.last());
        }
        assert(pairs_adding(pairs, k, e, values) =~= pairs_with_values(pairs, k, e, values.to_set()));
    }
}

/// The values `facts_adding` leaves on the property it adds to.
proof fn lemma_facts_adding_pairs<E, P, V>(f: Facts<E, P, V>, k: PropertyKind, e: E, p: P, values: Seq<V>)
    requires
        k != PropertyKind::Flag,
        f.pairs.contains_key(p),
    ensures
        facts_adding(f, k, e, p, values).pairs.contains_key(p),
        facts_adding(f, k, e, p, values).pairs[p] == pairs_adding(f.pairs[p], k, e, values),
        facts_adding(f, k, e, p, values).members[p] == (if values.len() == 0 { f.members[p] } else { domain(pairs_adding(f.pairs[p], k, e, values)) }),
    decreases values.len(),
{
    if values.len() > 0 {
        lemma_facts_adding_pairs(f, k, e, p, values.drop_last());
    }
}

/// Overwriting one more element's values of a multi-valued property.
proof fn lemma_fuse_overwrite_multi<E, V>(k: PropertyKind, mine: Set<(E, V)>, theirs: Set<(E, V)>, done: Set<E>, e: E)
    requires
        cardinality_of(k) == Cardinality::Multi,
        uniqueness_of(k) == Uniqueness::Unique ==> one_owner(theirs),
        domain(theirs).contains(e),
    ensures
        pairs_with_values(fused_pairs(k, FuseMode::Overwrite, mine, pairs_for(theirs, done)).filter(|q: (E, V)| q.0 != e), k, e, image(theirs, e))
            == fused_pairs(k, FuseMode::Overwrite, mine, pairs_for(theirs, done.insert(e))),
{
    let a = pairs_for(theirs, done);
    let b = pairs_for(theirs, done.insert(e));
    let vs = image(theirs, e);
    let lhs = pairs_with_values(fused_pairs(k, FuseMode::Overwrite, mine, a).filter(|q: (E, V)| q.0 != e), k, e, vs);
    let rhs = fused_pairs(k, FuseMode::Overwrite, mine, b);
    let unique = uniqueness_of(k) == Uniqueness::Unique;
    assert forall|q: (E, V)| #[trigger] lhs.contains(q) implies rhs.contains(q) by {
        if q.0 != e && !a.contains(q) {
            if domain(b).contains(q.0) {
                let w = choose|w: V| #[trigger] b.contains((q.0, w));
                assert(a.contains((q.0, w)));
            }
            if unique && range(b).contains(q.1) {
                let x = choose|x: E| #[trigger] b.contains((x, q.1));
                if x != e {
                    assert(a.contains((x, q.1)));
                }
            }
        }
    }
    assert forall|q: (E, V)| #[trigger] rhs.contains(q) implies lhs.contains(q) by {
        if b.contains(q) {
            if q.0 != e {
                assert(a.contains(q));
                if unique && vs.contains(q.1) {
                    assert(theirs.contains((e, q.1)));
                }
            }
        } else {
            let w = choose|w: V| #[trigger] theirs.contains((e, w));
            assert(b.contains((e, w)));
            assert(q.0 != e);
            if domain(a).contains(q.0) {
                let x = choose|x: V| #[trigger] a.contains((q.0, x));
                assert(b.contains((q.0, x)));
            }
            if unique && range(a).contains(q.1) {
                let x = choose|x: E| #[trigger] a.contains((x, q.1));
                assert(b.contains((x, q.1)));
            }
            if unique && vs.contains(q.1) {
                assert(b.contains((e, q.1)));
            }
        }
    }
    assert(lhs =~= rhs);
}

/// Merging one more element's values of a multi-valued property.
proof fn lemma_fuse_merge_multi<E, V>(k: PropertyKind, mine: Set<(E, V)>, theirs: Set<(E, V)>, done: Set<E>, e: E)
    requires
        cardinality_of(k) == Cardinality::Multi,
        uniqueness_of(k) == Uniqueness::Unique ==> one_owner(theirs),
        !done.contains(e),
    ensures
        pairs_with_values(fused_pairs(k, FuseMode::Merge, mine, pairs_for(theirs, done)), k, e, image(theirs, e))
            == fused_pairs(k, FuseMode::Merge, mine, pairs_for(theirs, done.insert(e))),
{
    let a = pairs_for(theirs, done);
    let b = pairs_for(theirs, done.insert(e));
    let vs = image(theirs, e);
    let lhs = pairs_with_values(fused_pairs(k, FuseMode::Merge, mine, a), k, e, vs);
    let rhs = fused_pairs(k, FuseMode::Merge, mine, b);
    let unique = uniqueness_of(k) == Uniqueness::Unique;
    assert forall|q: (E, V)| #[trigger] lhs.contains(q) implies rhs.contains(q) by {
        if !a.contains(q) && !(q.0 == e && vs.contains(q.1)) {
            if unique && range(b).contains(q.1) {
                let x = choose|x: E| #[trigger] b.contains((x, q.1));
                if x != e {
                    assert(a.contains((x, q.1)));
                }
            }
        }
    }
    assert forall|q: (E, V)| #[trigger] rhs.contains(q) implies lhs.contains(q) by {
        if b.contains(q) {
            if q.0 != e {
                assert(a.contains(q));
                if unique && vs.contains(q.1) {
                    assert(theirs.contains((e, q.1)));
                    assert(done.contains(q.0));
                }
            }
        } else {
            if unique && range(a).contains(q.1) {
                let x = choose|x: E| #[trigger] a.contains((x, q.1));
                assert(b.contains((x, q.1)));
            }
            if unique && vs.contains(q.1) {
                assert(b.contains((e, q.1)));
            }
        }
    }
    assert(lhs =~= rhs);
}

/// Whether an element holds at least one property.
pub open spec fn holding<E, P, V>(facts: Facts<E, P, V>) -> spec_fn(E) -> bool {
    |e: E| holders(facts).contains(e)
}

impl<E: Key, P: Key, V: Key> PropertyQuery<E, P, V> {
    /// A holder is in the universe, so it is listed exactly when it holds
    /// a property.
    proof fn lemma_listed(&self, e: E)
        requires
            store_wf(self.store),
        ensures
            self.store.universe.listing().filter(holding(self@.1)).contains(e) == holders(self@.1).contains(e),
    {
        let s = self.store.universe.listing();
        let pred = holding(self@.1);
        self.store.universe.lemma_listing();
        if s.filter(pred).contains(e) {
            let k = choose|k: int| 0 <= k < s.filter(pred).len() && s.filter(pred)[k] == e;
            s.lemma_filter_pred(pred, k);
        }
        if holders(self@.1).contains(e) {
            let p = choose|p: P| #[trigger] self@.1.members.contains_key(p) && self@.1.members[p].contains(e);
            assert(self.store.storages@.contains_key(p));
            assert(members_of(self.store.storages@[p]).contains(e));
            assert(self.store.universe@.contains(e));
            assert(s.contains(e));
            let k = choose|k: int| 0 <= k < s.len() && s[k] == e;
            s.lemma_filter_contains(pred, k);
        }
    }
}

/// The elements holding at least one property, in universe order.
impl<E: Key, P: Key, V: Key> Collection for PropertyQuery<E, P, V> {
    type Item = E;

    closed spec fn listed(&self) -> Seq<E> {
        self.store.universe.listing().filter(holding(self@.1))
    }

    fn len(&self) -> (n: usize)
        ensures
            n == holders(self@.1).len(),
    {
        PropertyQuery::len(self)
    }

    fn contains(&self, element: &E) -> (found: bool)
        ensures
            found == holders(self@.1).contains(*element),
    {
        proof {
            use_type_invariant(self);
            self.lemma_listed(*element);
        }
        PropertyQuery::contains(self, element)
    }

    fn elements(&self) -> Vec<E> {
        let held = PropertyQuery::elements(self);
        let all = self.store.universe.iter();
        let ghost pred = holding(self@.1);
        let mut out: Vec<E> = Vec::new();
        let mut i: usize = 0;
        while i < all.len()
            invariant
                i <= all@.len(),
                all@ == self.store.universe.listing(),
                held@ == holders(self@.1),
                pred == holding(self@.1),
                out@ == all@.take(i as int).filter(pred),
            decreases all@.len() - i,
        {
            let ghost before = out@;
            if held.contains(&all[i]) {
                out.push(all[i]);
            }
            proof {
                let x = all@[i as int];
                assert(all@.take(i + 1) =~= all@.take(i as int) + seq![x]);
                Seq::filter_distributes_over_add(all@.take(i as int), seq![x], pred);
                reveal_with_fuel(Seq::filter, 2);
                if pred(x) {
                    assert(seq![x].filter(pred) =~= seq![x]);
                    assert(out@ =~= before + seq![x]);
                } else {
                    assert(seq![x].filter(pred) =~= Seq::<E>::empty());
                    assert(out@ =~= before + Seq::<E>::empty());
                }
            }
            i += 1;
        }
        proof {
            assert(all@.take(i as int) =~= all@);
        }
        out
    }
}

impl<E: Key, P: Key, V: Key> PropertyQuery<E, P, V> {
    /// Whether both hold the same elements with the same property values
    /// under the same kinds. Caches are ignored.
    pub fn same_contents(&self, other: &Self) -> (same: bool)
        ensures
            same == (self@ == other@),
    {
        self.check_invariants();
        other.check_invariants();
        self.check_pairs();
        other.check_pairs();
        let forward = self.is_subset(other);
        let backward = other.is_subset(self);
        let universes = self.store.universe.same_members(&other.store.universe);
        proof {
            if forward && backward && universes {
                assert(self@.0 =~= other@.0);
                assert forall|p: P| self@.1.members.contains_key(p) implies self@.1.members[p] == other@.1.members[p] by {
                    assert(self@.0.contains_key(p));
                    if self@.0[p] != PropertyKind::Flag {
                        assert(self@.1.pairs[p] =~= other@.1.pairs[p]);
                    } else {
                        assert(self@.1.members[p] =~= other@.1.members[p]);
                    }
                }
                assert forall|p: P| self@.1.pairs.contains_key(p) implies self@.1.pairs[p] == other@.1.pairs[p] by {
                    assert(self@.0.contains_key(p));
                    assert(self@.1.pairs[p] =~= other@.1.pairs[p]);
                }
                assert(self@.1.members =~= other@.1.members);
                assert(self@.1.pairs =~= other@.1.pairs);
                assert(self@.1 =~= other@.1);
            }
            if self@ == other@ {
                assert(facts_within(self@.0, self@.1, other@.0, other@.1));
            }
        }
        forward && backward && universes
    }

    /// Copies every element, property and value of `other` into this
    /// query: flags are set; a single property takes `other`'s value unless
    /// merging and the element already has one; a multi property gets
    /// `other`'s values, replacing its own when overwriting (`fused_pairs`).
    /// A unique single property merged takes values from their old owners
    /// element by element, so which old values survive depends on the
    /// order the elements are copied in; `fused_within` says what holds in
    /// any order. Cached results that read none of `other`'s properties,
    /// and not the universe when it grew, stay cached. Returns the first
    /// property registered here and in `other` with different kinds,
    /// changing nothing, when there is one.
    pub fn fuse(&mut self, other: &Self, mode: FuseMode) -> (result: Result<(), FuseError<P>>)
        ensures
            (result is Err) == kinds_conflict(old(self)@.0, other@.0),
            match result {
                Err(e) => final(self)@ == old(self)@ && final(self).cached() == old(self).cached()
                    && old(self)@.0.contains_key(e.property) && other@.0.contains_key(e.property)
                    && e.current == old(self)@.0[e.property] && e.incoming == other@.0[e.property]
                    && e.current != e.incoming,
                Ok(()) => {
                    &&& final(self)@.0 == old(self)@.0.union_prefer_right(other@.0)
                    &&& final(self)@.1.universe == old(self)@.1.universe.union(other@.1.universe)
                    &&& forall|p: P| #[trigger] other@.0.contains_key(p) && other@.0[p] == PropertyKind::Flag
                        ==> final(self)@.1.members[p] == members_at(old(self)@.1, p).union(other@.1.members[p])
                            && final(self)@.1.pairs[p] == pairs_at(old(self)@.1, p)
                    &&& forall|p: P| #[trigger] other@.0.contains_key(p) && other@.0[p] != PropertyKind::Flag
                        ==> final(self)@.1.members[p] == domain(final(self)@.1.pairs[p])
                    &&& forall|p: P| #[trigger] other@.0.contains_key(p) && other@.0[p] != PropertyKind::Flag
                        && !(other@.0[p] == PropertyKind::UniqueSingle && mode == FuseMode::Merge)
                        ==> final(self)@.1.pairs[p] == fused_pairs(other@.0[p], mode, pairs_at(old(self)@.1, p), other@.1.pairs[p])
                    &&& forall|p: P| #[trigger] other@.0.contains_key(p) && other@.0[p] == PropertyKind::UniqueSingle && mode == FuseMode::Merge
                        ==> fused_within(pairs_at(old(self)@.1, p), other@.1.pairs[p], final(self)@.1.pairs[p])
                    &&& forall|p: P| #[trigger] other@.0.contains_key(p) && !(other@.0[p] == PropertyKind::UniqueSingle && mode == FuseMode::Merge)
                        ==> other@.1.members[p].subset_of(final(self)@.1.members[p])
                    &&& exists|touched: Set<P>, grew: bool| #![trigger surviving_all(old(self).cached(), touched, grew)]
                        touched.subset_of(other@.0.dom())
                        && (grew ==> !other@.1.universe.subset_of(old(self)@.1.universe))
                        && final(self).cached() == surviving_all(old(self).cached(), touched, grew)
                    &&& forall|p: P| #[trigger] old(self)@.0.contains_key(p) && !other@.0.contains_key(p)
                        ==> final(self)@.1.members[p] == old(self)@.1.members[p] && final(self)@.1.pairs[p] == old(self)@.1.pairs[p]
                },
            },
    {
        self.check_invariants();
        other.check_invariants();
        other.check_pairs();
        let theirs = other.properties();
        let mut i: usize = 0;
        while i < theirs.len()
            invariant
                i <= theirs@.len(),
                theirs@.to_set() == other@.0.dom(),
                self@ == old(self)@,
                forall|j: int| 0 <= j < i ==> !(old(self)@.0.contains_key(#[trigger] theirs@[j]) && old(self)@.0[theirs@[j]] != other@.0[theirs@[j]]),
            decreases theirs@.len() - i,
        {
            let p = theirs[i];
            proof {
                assert(theirs@.to_set().contains(p));
            }
            let incoming = other.property_kind(&p).unwrap();
            if let Some(current) = self.property_kind(&p) {
                if current != incoming {
                    return Err(FuseError { property: p, current, incoming });
                }
            }
            i += 1;
        }
        proof {
            assert(!kinds_conflict(old(self)@.0, other@.0)) by {
                if kinds_conflict(old(self)@.0, other@.0) {
                    let p = choose|p: P| #[trigger] old(self)@.0.contains_key(p) && other@.0.contains_key(p) && old(self)@.0[p] != other@.0[p];
                    assert(theirs@.to_set().contains(p));
                    let j = choose|j: int| 0 <= j < theirs@.len() && theirs@[j] == p;
                }
            }
        }
        // Register the properties only `other` has.
        let ghost c0 = self.cached();
        let ghost mut touched: Set<P> = Set::empty();
        let ghost mut grew: bool = false;
        proof {
            lemma_surviving_all_nothing(c0);
        }
        let mut i: usize = 0;
        while i < theirs.len()
            invariant
                c0 == old(self).cached(),
                touched.subset_of(other@.0.dom()),
                !grew,
                self.cached() == surviving_all(c0, touched, grew),
                i <= theirs@.len(),
                theirs@.to_set() == other@.0.dom(),
                theirs@.no_duplicates(),
                !kinds_conflict(old(self)@.0, other@.0),
                self@.0 == old(self)@.0.union_prefer_right(Map::new(|p: P| theirs@.take(i as int).contains(p), |p: P| other@.0[p])),
                self@.1.universe == old(self)@.1.universe,
                forall|p: P| #[trigger] old(self)@.0.contains_key(p) ==> self@.1.members[p] == old(self)@.1.members[p] && self@.1.pairs[p] == old(self)@.1.pairs[p],
                forall|p: P| #[trigger] self@.0.contains_key(p) && !old(self)@.0.contains_key(p) ==> self@.1.members[p] == Set::<E>::empty()
                    && self@.1.pairs[p] == Set::<(E, V)>::empty(),
                self@.0.dom() == self@.1.members.dom(),
                self@.1.members.dom() == self@.1.pairs.dom(),
            decreases theirs@.len() - i,
        {
            let p = theirs[i];
            proof {
                assert(theirs@.to_set().contains(p));
                assert(theirs@.take(i + 1) =~= theirs@.take(i as int).push(p));
            }
            let incoming = other.property_kind(&p).unwrap();
            let ghost before = self@;
            let registered = self.register_property(p, incoming);
            proof {
                if registered {
                    lemma_surviving_more(c0, touched, grew, Some(p), false);
                    touched = touched.insert(p);
                }
            }
            self.check_invariants();
            proof {
                assert(self@.0 =~= old(self)@.0.union_prefer_right(Map::new(|q: P| theirs@.take(i + 1).contains(q), |q: P| other@.0[q])));
            }
            i += 1;
        }
        proof {
            assert(theirs@.take(i as int) =~= theirs@);
            assert(self@.0 =~= old(self)@.0.union_prefer_right(other@.0));
        }
        let ghost registered = self@;
        // Bring in the universe.
        let elements = other.store.universe.iter();
        let mut i: usize = 0;
        while i < elements.len()
            invariant
                c0 == old(self).cached(),
                touched.subset_of(other@.0.dom()),
                grew ==> !other@.1.universe.subset_of(old(self)@.1.universe),
                self.cached() == surviving_all(c0, touched, grew),
                registered.1.universe == old(self)@.1.universe,
                i <= elements@.len(),
                elements@.to_set() == other@.1.universe,
                self@.0 == registered.0,
                self@.1.members == registered.1.members,
                self@.1.pairs == registered.1.pairs,
                self@.1.universe == registered.1.universe.union(elements@.take(i as int).to_set()),
            decreases elements@.len() - i,
        {
            let added = self.insert_element(elements[i]);
            proof {
                lemma_surviving_more(c0, touched, grew, None, added);
                if added {
                    assert(other@.1.universe.contains(elements@[i as int]));
                    assert(!old(self)@.1.universe.contains(elements@[i as int]));
                }
                grew = grew || added;
                assert(elements@.take(i + 1) =~= elements@.take(i as int).push(elements@[i as int]));
                assert(self@.1.universe =~= registered.1.universe.union(elements@.take(i + 1).to_set()));
            }
            i += 1;
        }
        proof {
            assert(elements@.take(i as int) =~= elements@);
        }
        let ghost widened = self@;
        // Copy every property's holdings, one property at a time.
        let mut i: usize = 0;
        while i < theirs.len()
            invariant
                c0 == old(self).cached(),
                touched.subset_of(other@.0.dom()),
                grew ==> !other@.1.universe.subset_of(old(self)@.1.universe),
                self.cached() == surviving_all(c0, touched, grew),
                i <= theirs@.len(),
                theirs@.to_set() == other@.0.dom(),
                theirs@.no_duplicates(),
                self@.0 == widened.0,
                widened.0 == old(self)@.0.union_prefer_right(other@.0),
                self@.1.universe == widened.1.universe,
                widened.1.universe == old(self)@.1.universe.union(other@.1.universe),
                forall|p: P| #[trigger] widened.0.contains_key(p) && !theirs@.take(i as int).contains(p)
                    ==> self@.1.members[p] == widened.1.members[p] && self@.1.pairs[p] == widened.1.pairs[p],
                forall|p: P| #[trigger] old(self)@.0.contains_key(p) && !other@.0.contains_key(p)
                    ==> widened.1.members[p] == old(self)@.1.members[p] && widened.1.pairs[p] == old(self)@.1.pairs[p],
                forall|p: P| #[trigger] widened.0.contains_key(p) ==> widened.1.members[p] == members_at(old(self)@.1, p)
                    && widened.1.pairs[p] == pairs_at(old(self)@.1, p),
                forall|p: P| #[trigger] theirs@.take(i as int).contains(p) && other@.0[p] == PropertyKind::Flag
                    ==> self@.1.members[p] == members_at(old(self)@.1, p).union(other@.1.members[p])
                        && self@.1.pairs[p] == pairs_at(old(self)@.1, p),
                forall|p: P| #[trigger] theirs@.take(i as int).contains(p) && other@.0[p] != PropertyKind::Flag
                    ==> self@.1.members[p] == domain(self@.1.pairs[p]),
                forall|p: P| #[trigger] theirs@.take(i as int).contains(p) && other@.0[p] != PropertyKind::Flag
                    && !(other@.0[p] == PropertyKind::UniqueSingle && mode == FuseMode::Merge)
                    ==> self@.1.pairs[p] == fused_pairs(other@.0[p], mode, pairs_at(old(self)@.1, p), other@.1.pairs[p]),
                forall|p: P| #[trigger] theirs@.take(i as int).contains(p) && other@.0[p] == PropertyKind::UniqueSingle && mode == FuseMode::Merge
                    ==> fused_within(pairs_at(old(self)@.1, p), other@.1.pairs[p], self@.1.pairs[p]),
                self@.0.dom() == self@.1.members.dom(),
                self@.1.members.dom() == self@.1.pairs.dom(),
            decreases theirs@.len() - i,
        {
            let p = theirs[i];
            proof {
                assert(theirs@.to_set().contains(p));
                assert(theirs@.take(i + 1) =~= theirs@.take(i as int).push(p));
                assert(!theirs@.take(i as int).contains(p)) by {
                    if theirs@.take(i as int).contains(p) {
                        let j = choose|j: int| 0 <= j < i && #[trigger] theirs@.take(i as int)[j] == p;
                        assert(theirs@[j] == theirs@[i as int]);
                    }
                }
            }
            let ghost mid = self@;
            let ghost mid_cache = self.cached();
            self.copy_property(other, &p, mode);
            proof {
                if self.cached() != mid_cache {
                    lemma_surviving_more(c0, touched, grew, Some(p), false);
                    touched = touched.insert(p);
                }
                assert(widened.0.contains_key(p));
                assert forall|q: P| #[trigger] theirs@.take(i + 1).contains(q) && q != p
                    implies theirs@.take(i as int).contains(q) && self@.1.members[q] == mid.1.members[q] && self@.1.pairs[q] == mid.1.pairs[q] by {
                    assert(theirs@.take(i as int).contains(q));
                    assert(theirs@.to_set().contains(q));
                    assert(mid.0.contains_key(q));
                    assert(mid.1.members.contains_key(q));
                }
                assert forall|q: P| #[trigger] widened.0.contains_key(q) && !theirs@.take(i + 1).contains(q)
                    implies self@.1.members[q] == widened.1.members[q] && self@.1.pairs[q] == widened.1.pairs[q] by {
                    assert(q != p);
                }
            }
            i += 1;
        }
        proof {
            assert(theirs@.take(i as int) =~= theirs@);
            assert forall|p: P| #[trigger] old(self)@.0.contains_key(p) && !other@.0.contains_key(p)
                implies self@.1.members[p] == old(self)@.1.members[p] && self@.1.pairs[p] == old(self)@.1.pairs[p] by {
                assert(widened.0.contains_key(p));
                assert(!theirs@.to_set().contains(p));
            }
            assert forall|p: P| #[trigger] other@.0.contains_key(p) implies theirs@.take(i as int).contains(p) by {
                assert(theirs@.to_set().contains(p));
            }
            assert(touched.subset_of(other@.0.dom()) && (grew ==> !other@.1.universe.subset_of(old(self)@.1.universe))
                && self.cached() == surviving_all(old(self).cached(), touched, grew));
            assert forall|p: P| #[trigger] other@.0.contains_key(p) && !(other@.0[p] == PropertyKind::UniqueSingle && mode == FuseMode::Merge)
                implies other@.1.members[p].subset_of(self@.1.members[p]) by {
                assert(theirs@.take(i as int).contains(p));
                if other@.0[p] != PropertyKind::Flag {
                    lemma_fused_keeps_incoming(other@.0[p], mode, pairs_at(old(self)@.1, p), other@.1.pairs[p]);
                }
            }
        }
        Ok(())
    }

    /// The shape a registered property's pairs have: single-valued kinds give
    /// an element one value, unique kinds give a value one element.
    fn check_shape(&self, property: &P)
        requires
            self@.0.contains_key(*property),
        ensures
            cardinality_of(self@.0[*property]) == Cardinality::Single ==> functional(self@.1.pairs[*property]),
            uniqueness_of(self@.0[*property]) == Uniqueness::Unique ==> one_owner(self@.1.pairs[*property]),
    {
        proof {
            use_type_invariant(self);
        }
        match self.store.storages.get(property) {
            Some(storage) => {
                storage.check_invariants();
            },
            None => {},
        }
    }

    /// Copies what `other` holds for `property`, registered on both sides
    /// with the same kind, into this query, as `fuse` describes. Other
    /// properties are left as they are.
    fn copy_property(&mut self, other: &Self, property: &P, mode: FuseMode)
        requires
            old(self)@.0.contains_key(*property),
            other@.0.contains_key(*property),
            old(self)@.0[*property] == other@.0[*property],
            other@.1.universe.subset_of(old(self)@.1.universe),
        ensures
            final(self).cached() == old(self).cached() || final(self).cached() == surviving(old(self).cached(), Some(*property), false),
            final(self)@.0 == old(self)@.0,
            final(self)@.1.universe == old(self)@.1.universe,
            forall|q: P| q != *property && #[trigger] old(self)@.1.members.contains_key(q)
                ==> final(self)@.1.members[q] == old(self)@.1.members[q] && final(self)@.1.pairs[q] == old(self)@.1.pairs[q],
            final(self)@.1.members.dom() == old(self)@.1.members.dom(),
            final(self)@.1.pairs.dom() == old(self)@.1.pairs.dom(),
            other@.0[*property] == PropertyKind::Flag ==> final(self)@.1.members[*property] == old(self)@.1.members[*property].union(other@.1.members[*property])
                && final(self)@.1.pairs[*property] == old(self)@.1.pairs[*property],
            other@.0[*property] != PropertyKind::Flag ==> final(self)@.1.members[*property] == domain(final(self)@.1.pairs[*property]),
            other@.0[*property] != PropertyKind::Flag && !(other@.0[*property] == PropertyKind::UniqueSingle && mode == FuseMode::Merge)
                ==> final(self)@.1.pairs[*property] == fused_pairs(other@.0[*property], mode, old(self)@.1.pairs[*property], other@.1.pairs[*property]),
            other@.0[*property] == PropertyKind::UniqueSingle && mode == FuseMode::Merge
                ==> fused_within(old(self)@.1.pairs[*property], other@.1.pairs[*property], final(self)@.1.pairs[*property]),
    {
        self.check_invariants();
        other.check_invariants();
        self.check_pairs();
        other.check_pairs();
        other.check_shape(property);
        let kind = other.property_kind(property).unwrap();
        let members = other.members_of(property);
        let ghost start = self@;
        let ghost c0 = self.cached();
        let ghost mine = start.1.pairs[*property];
        let ghost theirs = other@.1.pairs[*property];
        let ghost single_merge_unique = kind == PropertyKind::UniqueSingle && mode == FuseMode::Merge;
        proof {
            assert(pairs_for(theirs, members@.take(0).to_set()) =~= Set::<(E, V)>::empty());
            assert(fused_pairs(kind, mode, mine, Set::<(E, V)>::empty()) =~= mine);
            assert(start.1.members[*property].union(members@.take(0).to_set()) =~= start.1.members[*property]);
        }
        let mut j: usize = 0;
        while j < members.len()
            invariant
                c0 == old(self).cached(),
                self.cached() == c0 || self.cached() == surviving(c0, Some(*property), false),
                j <= members@.len(),
                members@.to_set() == other@.1.members[*property],
                members@.no_duplicates(),
                other@.1.members[*property].subset_of(other@.1.universe),
                other@.1.universe.subset_of(start.1.universe),
                kind == other@.0[*property],
                kind != PropertyKind::Flag ==> other@.1.members[*property] == domain(theirs),
                theirs == other@.1.pairs[*property],
                other@.1.pairs.contains_key(*property),
                cardinality_of(kind) == Cardinality::Single ==> functional(theirs),
                uniqueness_of(kind) == Uniqueness::Unique ==> one_owner(theirs),
                single_merge_unique == (kind == PropertyKind::UniqueSingle && mode == FuseMode::Merge),
                start.0.contains_key(*property),
                start.0[*property] == kind,
                start.0.dom() == start.1.members.dom(),
                start.1.members.dom() == start.1.pairs.dom(),
                mine == start.1.pairs[*property],
                self@.0 == start.0,
                self@.1.universe == start.1.universe,
                self@.1.members.dom() == start.1.members.dom(),
                self@.1.pairs.dom() == start.1.pairs.dom(),
                forall|q: P| q != *property && #[trigger] start.1.members.contains_key(q)
                    ==> self@.1.members[q] == start.1.members[q] && self@.1.pairs[q] == start.1.pairs[q],
                kind == PropertyKind::Flag ==> self@.1.members[*property] == start.1.members[*property].union(members@.take(j as int).to_set())
                    && self@.1.pairs[*property] == mine,
                kind != PropertyKind::Flag ==> self@.1.members[*property] == domain(self@.1.pairs[*property]),
                kind != PropertyKind::Flag && !single_merge_unique
                    ==> self@.1.pairs[*property] == fused_pairs(kind, mode, mine, pairs_for(theirs, members@.take(j as int).to_set())),
                single_merge_unique ==> fused_within(mine, pairs_for(theirs, members@.take(j as int).to_set()), self@.1.pairs[*property]),
            decreases members@.len() - j,
        {
            let element = members[j];
            let ghost done = members@.take(j as int).to_set();
            proof {
                assert(members@.to_set().contains(element));
                assert(start.1.universe.contains(element));
                assert(members@.take(j + 1) =~= members@.take(j as int).push(element));
                members@.take(j as int).lemma_push_to_set_commute(element);
                assert(members@.take(j + 1).to_set() == done.insert(element));
                assert(!done.contains(element)) by {
                    if done.contains(element) {
                        let l = choose|l: int| 0 <= l < j && members@.take(j as int)[l] == element;
                        assert(members@[l] == members@[j as int]);
                    }
                }
            }
            let ghost before = self@;
            let ghost cur = before.1.pairs[*property];
            proof {
                lemma_surviving_again(c0, *property, self.cached());
            }
            match kind.cardinality() {
                Cardinality::Flag => {
                    self.set_flag(element, *property);
                    proof {
                        assert(self@.1.members[*property] =~= start.1.members[*property].union(done.insert(element)));
                    }
                },
                Cardinality::Single => {
                    let skip = mode == FuseMode::Merge && self.has(&element, property);
                    if !skip {
                        match other.get(&element, property) {
                            Some(value) => {
                                proof {
                                    if mode == FuseMode::Overwrite {
                                        lemma_fuse_overwrite_single(kind, mine, theirs, done, element, value);
                                    } else if !single_merge_unique {
                                        lemma_fuse_merge_single(kind, mine, theirs, done, element, value);
                                    } else {
                                        lemma_fuse_merge_unique_single(mine, theirs, done, element, value, cur);
                                    }
                                }
                                self.set(element, *property, value);
                            },
                            None => {
                                proof {
                                    assert(other@.1.members[*property].contains(element));
                                }
                            },
                        }
                    } else {
                        proof {
                            let w = choose|w: V| #[trigger] cur.contains((element, w));
                            assert(domain(theirs).contains(element));
                            let v = choose|v: V| #[trigger] theirs.contains((element, v));
                            if !single_merge_unique {
                                lemma_fuse_merge_single(kind, mine, theirs, done, element, v);
                            } else {
                                lemma_fuse_merge_unique_single(mine, theirs, done, element, v, cur);
                            }
                        }
                    }
                },
                Cardinality::Multi => {
                    let held = other.values(&element, property);
                    let values = held.iter();
                    proof {
                        assert(other@.1.pairs.contains_key(*property));
                        assert(values@.to_set() == image(theirs, element));
                        assert(domain(theirs).contains(element));
                        let v = choose|v: V| #[trigger] theirs.contains((element, v));
                        assert(values@.to_set().contains(v));
                        assert(values@.len() > 0);
                    }
                    if mode == FuseMode::Overwrite {
                        self.set_values(element, *property, &values);
                        proof {
                            let touched = facts_touched(before.1, element, *property);
                            let cleared = facts_without_member(touched, element, *property);
                            lemma_facts_adding(cleared, kind, element, *property, values@);
                            lemma_facts_adding_pairs(cleared, kind, element, *property, values@);
                            lemma_pairs_adding(cur.filter(|q: (E, V)| q.0 != element), kind, element, values@);
                            assert(cleared.pairs[*property] == cur.filter(|q: (E, V)| q.0 != element));
                            lemma_fuse_overwrite_multi(kind, mine, theirs, done, element);
                            assert(before.1.universe.insert(element) =~= before.1.universe);
                            assert(touched.members.dom() =~= before.1.members.dom());
                            assert(cleared.members.dom() =~= before.1.members.dom());
                            assert(cleared.pairs.dom() =~= before.1.pairs.dom());
                        }
                    } else {
                        let mut l: usize = 0;
                        proof {
                            assert(values@.take(0) =~= Seq::<V>::empty());
                        }
                        while l < values.len()
                            invariant
                                c0 == old(self).cached(),
                                self.cached() == c0 || self.cached() == surviving(c0, Some(*property), false),
                                l <= values@.len(),
                                self@.0 == start.0,
                                start.0.contains_key(*property),
                                start.0[*property] == kind,
                                kind != PropertyKind::Flag,
                                cardinality_of(kind) == Cardinality::Multi,
                                start.1.universe.contains(element),
                                self@.1.universe == start.1.universe,
                                self@.1.members.dom() == start.1.members.dom(),
                                self@.1.pairs.dom() == start.1.pairs.dom(),
                                forall|q: P| q != *property && #[trigger] start.1.members.contains_key(q)
                                    ==> self@.1.members[q] == start.1.members[q] && self@.1.pairs[q] == start.1.pairs[q],
                                self@.1.pairs[*property] == pairs_adding(cur, kind, element, values@.take(l as int)),
                                self@.1.members[*property] == domain(self@.1.pairs[*property]),
                            decreases values@.len() - l,
                        {
                            proof {
                                lemma_surviving_again(c0, *property, self.cached());
                            }
                            self.add_value(element, *property, values[l]);
                            proof {
                                assert(values@.take(l + 1).drop_last() =~= values@.take(l as int));
                                assert(self@.0 =~= start.0);
                                assert(self@.1.universe =~= start.1.universe);
                                assert(self@.1.members.dom() =~= start.1.members.dom());
                                assert(self@.1.pairs.dom() =~= start.1.pairs.dom());
                            }
                            l += 1;
                        }
                        proof {
                            assert(values@.take(l as int) =~= values@);
                            lemma_pairs_adding(cur, kind, element, values@);
                            lemma_fuse_merge_multi(kind, mine, theirs, done, element);
                        }
                    }
                },
            }
            proof {
                assert(self@.0 =~= start.0);
                assert(self@.1.universe =~= start.1.universe);
                assert(self@.1.members.dom() =~= start.1.members.dom());
                assert(self@.1.pairs.dom() =~= start.1.pairs.dom());
            }
            j += 1;
        }
        proof {
            assert(members@.take(j as int) =~= members@);
            if kind != PropertyKind::Flag {
                assert(pairs_for(theirs, members@.to_set()) =~= theirs) by {
                    assert forall|q: (E, V)| theirs.contains(q) implies members@.to_set().contains(q.0) by {
                        assert(theirs.contains((q.0, q.1)));
                        assert(domain(theirs).contains(q.0));
                    }
                }
            }
        }
    }
}

} // verus!
