//! The storage behind one property of a `PropertyQuery`. Each kind of
//! property keeps its `(element, value)` pairs in the structure that
//! enforces its rules.
use vstd::prelude::*;
use crate::structures::traits::key::Key;
use crate::structures::relation::{domain, image, preimage, range, unique_values};
use crate::structures::map_spec::{has_value, without_value};
use crate::structures::collections::sets::unordered_set::UnorderedSet;
use crate::structures::mappings::grouped::grouped_single_map::GroupedSingleMap;
use crate::structures::mappings::grouped::grouped_multi_map::GroupedMultiMap;
use crate::structures::mappings::single::bi_map::BiMap;
use crate::structures::mappings::multi::unique_multi_map::UniqueMultiMap;

verus! {

broadcast use {vstd::set::group_set_axioms, vstd::map::group_map_axioms, vstd::seq_lib::group_seq_properties};

/// Number of values an element may hold for one property.
#[derive(Clone, Copy, Debug, PartialEq, Eq, Structural)]
pub enum Cardinality {
    /// Presence alone is meaningful; the property carries no value.
    Flag,
    /// At most one value per element.
    Single,
    /// Any number of distinct values per element.
    Multi,
}

/// Whether the same property value may be held by several elements.
#[derive(Clone, Copy, Debug, PartialEq, Eq, Structural)]
pub enum Uniqueness {
    /// A value may be shared by any number of elements.
    Shared,
    /// A value may belong to at most one element.
    Unique,
}

/// Storage and constraint policy for a registered property.
#[derive(Clone, Copy, Debug, PartialEq, Eq, Structural)]
pub enum PropertyKind {
    /// Presence with no associated value.
    Flag,
    /// One value per element; values may be shared.
    Single,
    /// One value per element and at most one element per value.
    UniqueSingle,
    /// Many values per element; values may be shared.
    Multi,
    /// Many values per element, but each value has at most one owner.
    UniqueMulti,
}

/// The cardinality of a kind.
pub open spec fn cardinality_of(kind: PropertyKind) -> Cardinality {
    match kind {
        PropertyKind::Flag => Cardinality::Flag,
        PropertyKind::Single | PropertyKind::UniqueSingle => Cardinality::Single,
        PropertyKind::Multi | PropertyKind::UniqueMulti => Cardinality::Multi,
    }
}

/// The uniqueness of a kind.
pub open spec fn uniqueness_of(kind: PropertyKind) -> Uniqueness {
    match kind {
        PropertyKind::UniqueSingle | PropertyKind::UniqueMulti => Uniqueness::Unique,
        _ => Uniqueness::Shared,
    }
}

impl PropertyKind {
    /// Uppercase alias for `PropertyKind::Flag`.
    pub const FLAG: PropertyKind = PropertyKind::Flag;
    /// Uppercase alias for `PropertyKind::Single`.
    pub const SINGLE: PropertyKind = PropertyKind::Single;
    /// Uppercase alias for `PropertyKind::UniqueSingle`.
    pub const UNIQUE_SINGLE: PropertyKind = PropertyKind::UniqueSingle;
    /// Uppercase alias for `PropertyKind::Multi`.
    pub const MULTI: PropertyKind = PropertyKind::Multi;
    /// Uppercase alias for `PropertyKind::UniqueMulti`.
    pub const UNIQUE_MULTI: PropertyKind = PropertyKind::UniqueMulti;

    /// Whether this kind stores no value, one value, or many values.
    pub fn cardinality(self) -> (c: Cardinality)
        ensures
            c == cardinality_of(self),
    {
        match self {
            PropertyKind::Flag => Cardinality::Flag,
            PropertyKind::Single | PropertyKind::UniqueSingle => Cardinality::Single,
            PropertyKind::Multi | PropertyKind::UniqueMulti => Cardinality::Multi,
        }
    }

    /// Whether values may be shared between elements.
    pub fn uniqueness(self) -> (u: Uniqueness)
        ensures
            u == uniqueness_of(self),
    {
        match self {
            PropertyKind::UniqueSingle | PropertyKind::UniqueMulti => Uniqueness::Unique,
            _ => Uniqueness::Shared,
        }
    }
}

/// One property's pairs, kept in the structure its kind calls for.
pub enum Storage<E, V> {
    Flag(UnorderedSet<E>),
    SingleShared(GroupedSingleMap<E, V>),
    SingleUnique(BiMap<E, V>),
    MultiShared(GroupedMultiMap<E, V>),
    MultiUnique(UniqueMultiMap<E, V>),
}

/// The kind a storage was created for.
pub open spec fn kind_of<E, V>(s: Storage<E, V>) -> PropertyKind {
    match s {
        Storage::Flag(_) => PropertyKind::Flag,
        Storage::SingleShared(_) => PropertyKind::Single,
        Storage::SingleUnique(_) => PropertyKind::UniqueSingle,
        Storage::MultiShared(_) => PropertyKind::Multi,
        Storage::MultiUnique(_) => PropertyKind::UniqueMulti,
    }
}

/// The `(element, value)` pairs a storage holds; a flag holds none.
pub open spec fn pairs_of<E: Key, V: Key>(s: Storage<E, V>) -> Set<(E, V)> {
    match s {
        Storage::Flag(_) => Set::empty(),
        Storage::SingleShared(m) => Set::new(|p: (E, V)| m@.contains((p.1, p.0))),
        Storage::SingleUnique(m) => Set::new(|p: (E, V)| m@.contains_key(p.0) && m@[p.0] == p.1),
        Storage::MultiShared(m) => m@,
        Storage::MultiUnique(m) => m@,
    }
}

/// The elements that hold the property.
pub open spec fn members_of<E: Key, V: Key>(s: Storage<E, V>) -> Set<E> {
    match s {
        Storage::Flag(set) => set@,
        _ => domain(pairs_of(s)),
    }
}

/// The pairs left after writing `(element, value)` as the element's only
/// value: a unique kind also takes the value from any other holder.
pub open spec fn after_put_single<E, V>(pairs: Set<(E, V)>, kind: PropertyKind, element: E, value: V) -> Set<(E, V)> {
    pairs.filter(|p: (E, V)| p.0 != element && (uniqueness_of(kind) == Uniqueness::Unique ==> p.1 != value)).insert((element, value))
}

/// The pairs left after adding `(element, value)`: a multi kind keeps the
/// element's other values; a single kind replaces them.
pub open spec fn after_put_value<E, V>(pairs: Set<(E, V)>, kind: PropertyKind, element: E, value: V) -> Set<(E, V)> {
    if cardinality_of(kind) == Cardinality::Multi {
        pairs.filter(|p: (E, V)| uniqueness_of(kind) == Uniqueness::Unique ==> p.1 != value).insert((element, value))
    } else {
        after_put_single(pairs, kind, element, value)
    }
}

impl<E: Key, V: Key> Storage<E, V> {
    /// An empty storage for `kind`.
    pub fn new(kind: PropertyKind) -> (s: Self)
        ensures
            kind_of(s) == kind,
            pairs_of(s) == Set::<(E, V)>::empty(),
            members_of(s) == Set::<E>::empty(),
    {
        let s = match kind {
            PropertyKind::Flag => Storage::Flag(UnorderedSet::new()),
            PropertyKind::Single => Storage::SingleShared(GroupedSingleMap::new()),
            PropertyKind::UniqueSingle => Storage::SingleUnique(BiMap::new()),
            PropertyKind::Multi => Storage::MultiShared(GroupedMultiMap::new()),
            PropertyKind::UniqueMulti => Storage::MultiUnique(UniqueMultiMap::new()),
        };
        proof {
            assert(pairs_of(s) =~= Set::<(E, V)>::empty());
            assert(members_of(s) =~= Set::<E>::empty());
        }
        s
    }

    /// The kind this storage was created for.
    pub fn kind(&self) -> (kind: PropertyKind)
        ensures
            kind == kind_of(*self),
    {
        match self {
            Storage::Flag(_) => PropertyKind::Flag,
            Storage::SingleShared(_) => PropertyKind::Single,
            Storage::SingleUnique(_) => PropertyKind::UniqueSingle,
            Storage::MultiShared(_) => PropertyKind::Multi,
            Storage::MultiUnique(_) => PropertyKind::UniqueMulti,
        }
    }

    /// Flags hold no pairs; a valued property's members are exactly the
    /// elements with a value; single kinds give each element one value and
    /// unique kinds each value one element.
    pub fn check_invariants(&self)
        ensures
            members_of(*self).finite(),
            pairs_of(*self).finite(),
            kind_of(*self) == PropertyKind::Flag ==> pairs_of(*self) == Set::<(E, V)>::empty(),
            cardinality_of(kind_of(*self)) == Cardinality::Single ==>
                forall|e: E, a: V, b: V| #[trigger] pairs_of(*self).contains((e, a)) && #[trigger] pairs_of(*self).contains((e, b)) ==> a == b,
            uniqueness_of(kind_of(*self)) == Uniqueness::Unique ==>
                forall|a: E, b: E, v: V| #[trigger] pairs_of(*self).contains((a, v)) && #[trigger] pairs_of(*self).contains((b, v)) ==> a == b,
    {
        match self {
            Storage::Flag(set) => {
                proof {
                    UnorderedSet::lemma_view_finite(set);
                }
            },
            Storage::SingleShared(m) => {
                m.check_invariants();
                proof {
                    let pairs = pairs_of(*self);
                    let f = |q: (V, E)| (q.1, q.0);
                    assert forall|p: (E, V)| pairs.contains(p) == m@.map(f).contains(p) by {
                        if pairs.contains(p) {
                            assert(f((p.1, p.0)) == p);
                        }
                    }
                    assert(pairs =~= m@.map(f));
                    m@.lemma_map_finite(f);
                    lemma_domain_finite(pairs);
                }
            },
            Storage::SingleUnique(m) => {
                m.check_invariants();
                m.len();
                proof {
                    let pairs = pairs_of(*self);
                    let f = |e: E| (e, m@[e]);
                    assert forall|p: (E, V)| pairs.contains(p) == m@.dom().map(f).contains(p) by {
                        if pairs.contains(p) {
                            assert(f(p.0) == p);
                        }
                    }
                    assert(pairs =~= m@.dom().map(f));
                    m@.dom().lemma_map_finite(f);
                    lemma_domain_finite(pairs);
                }
            },
            Storage::MultiShared(m) => {
                m.pair_count();
                proof {
                    lemma_domain_finite(m@);
                }
            },
            Storage::MultiUnique(m) => {
                m.check_invariants();
                proof {
                    lemma_domain_finite(m@);
                }
            },
        }
    }
}

impl<E: Key, V: Key> Storage<E, V> {
    /// Number of elements holding the property.
    pub fn member_count(&self) -> (n: usize)
        ensures
            n == members_of(*self).len(),
    {
        match self {
            Storage::Flag(set) => set.len(),
            Storage::SingleShared(m) => {
                proof {
                    assert(domain(pairs_of(*self)) =~= range(m@)) by {
                        assert forall|e: E| domain(pairs_of(*self)).contains(e) implies range(m@).contains(e) by {
                            let v = choose|v: V| pairs_of(*self).contains((e, v));
                            assert(m@.contains((v, e)));
                        }
                        assert forall|e: E| range(m@).contains(e) implies domain(pairs_of(*self)).contains(e) by {
                            let v = choose|v: V| m@.contains((v, e));
                            assert(pairs_of(*self).contains((e, v)));
                        }
                    }
                }
                m.len()
            },
            Storage::SingleUnique(m) => {
                proof {
                    assert(domain(pairs_of(*self)) =~= m@.dom()) by {
                        assert forall|e: E| m@.dom().contains(e) implies domain(pairs_of(*self)).contains(e) by {
                            assert(pairs_of(*self).contains((e, m@[e])));
                        }
                    }
                }
                m.len()
            },
            Storage::MultiShared(m) => m.len(),
            Storage::MultiUnique(m) => m.len(),
        }
    }

    /// Whether `element` holds the property.
    pub fn contains_member(&self, element: &E) -> (found: bool)
        ensures
            found == members_of(*self).contains(*element),
    {
        match self {
            Storage::Flag(set) => set.contains(element),
            Storage::SingleShared(m) => {
                let found = m.contains(element);
                proof {
                    if found {
                        let v = choose|v: V| m@.contains((v, *element));
                        assert(pairs_of(*self).contains((*element, v)));
                    }
                }
                found
            },
            Storage::SingleUnique(m) => {
                let found = m.contains_left(element);
                proof {
                    if found {
                        assert(pairs_of(*self).contains((*element, m@[*element])));
                    }
                }
                found
            },
            Storage::MultiShared(m) => m.contains(element),
            Storage::MultiUnique(m) => m.contains_key(element),
        }
    }

    /// Whether some element holds `value`.
    pub fn has_value(&self, value: &V) -> (found: bool)
        ensures
            found == range(pairs_of(*self)).contains(*value),
    {
        match self {
            Storage::Flag(_) => false,
            Storage::SingleShared(m) => {
                let group = m.group(value);
                let found = !group.is_empty();
                proof {
                    if found {
                        if !(exists|e: E| group@.contains(e)) {
                            assert(group@ =~= Set::<E>::empty());
                        }
                        let e = choose|e: E| group@.contains(e);
                        assert(pairs_of(*self).contains((e, *value)));
                    } else {
                        if range(pairs_of(*self)).contains(*value) {
                            let e = choose|e: E| pairs_of(*self).contains((e, *value));
                            assert(group@.contains(e));
                        }
                    }
                }
                found
            },
            Storage::SingleUnique(m) => {
                let found = m.contains_right(value);
                proof {
                    if found {
                        let e = choose|e: E| m@.contains_key(e) && m@[e] == *value;
                        assert(pairs_of(*self).contains((e, *value)));
                    }
                }
                found
            },
            Storage::MultiShared(m) => {
                let group = m.group(value);
                let found = !group.is_empty();
                proof {
                    if found {
                        if !(exists|e: E| group@.contains(e)) {
                            assert(group@ =~= Set::<E>::empty());
                        }
                        let e = choose|e: E| group@.contains(e);
                        assert(pairs_of(*self).contains((e, *value)));
                    } else {
                        if range(pairs_of(*self)).contains(*value) {
                            let e = choose|e: E| pairs_of(*self).contains((e, *value));
                            assert(group@.contains(e));
                        }
                    }
                }
                found
            },
            Storage::MultiUnique(m) => m.contains_value(value),
        }
    }

    /// Whether `element` holds `value`.
    pub fn has_pair(&self, element: &E, value: &V) -> (found: bool)
        ensures
            found == pairs_of(*self).contains((*element, *value)),
    {
        match self {
            Storage::Flag(_) => false,
            Storage::SingleShared(m) => m.contains_pair(element, value),
            Storage::SingleUnique(m) => m.contains_pair(element, value),
            Storage::MultiShared(m) => m.contains_pair(element, value),
            Storage::MultiUnique(m) => m.contains_pair(element, value),
        }
    }

    /// The value of a single-valued property.
    pub fn get(&self, element: &E) -> (value: Option<V>)
        ensures
            match value {
                Some(v) => cardinality_of(kind_of(*self)) == Cardinality::Single && pairs_of(*self).contains((*element, v)),
                None => cardinality_of(kind_of(*self)) != Cardinality::Single || !members_of(*self).contains(*element),
            },
    {
        match self {
            Storage::SingleShared(m) => {
                let value = m.get(element);
                proof {
                    if value is None {
                        if members_of(*self).contains(*element) {
                            let v = choose|v: V| pairs_of(*self).contains((*element, v));
                            assert(m@.contains((v, *element)));
                        }
                    }
                }
                value
            },
            Storage::SingleUnique(m) => m.get_by_left(element),
            _ => None,
        }
    }

    /// Every value `element` holds.
    pub fn values(&self, element: &E) -> (values: UnorderedSet<V>)
        ensures
            values@ == image(pairs_of(*self), *element),
    {
        self.check_invariants();
        match self {
            Storage::Flag(_) => {
                let out = UnorderedSet::new();
                proof {
                    assert(image(pairs_of(*self), *element) =~= Set::<V>::empty());
                }
                out
            },
            Storage::SingleShared(m) => {
                let mut out = UnorderedSet::new();
                match m.get(element) {
                    Some(v) => {
                        out.insert(v);
                        proof {
                            assert(pairs_of(*self).contains((*element, v)));
                            assert(out@ =~= image(pairs_of(*self), *element));
                        }
                    },
                    None => {
                        proof {
                            assert forall|v: V| !image(pairs_of(*self), *element).contains(v) by {
                                if m@.contains((v, *element)) {
                                    assert(range(m@).contains(*element));
                                }
                            }
                            assert(out@ =~= image(pairs_of(*self), *element));
                        }
                    },
                }
                out
            },
            Storage::SingleUnique(m) => {
                let mut out = UnorderedSet::new();
                if let Some(v) = m.get_by_left(element) {
                    out.insert(v);
                }
                proof {
                    assert(out@ =~= image(pairs_of(*self), *element));
                }
                out
            },
            Storage::MultiShared(m) => {
                match m.get(element) {
                    Some(set) => set,
                    None => {
                        proof {
                            assert forall|v: V| !image(pairs_of(*self), *element).contains(v) by {
                                if m@.contains((*element, v)) {
                                    assert(domain(m@).contains(*element));
                                }
                            }
                            assert(image(pairs_of(*self), *element) =~= Set::<V>::empty());
                        }
                        UnorderedSet::new()
                    },
                }
            },
            Storage::MultiUnique(m) => {
                match m.get(element) {
                    Some(set) => set,
                    None => {
                        proof {
                            assert forall|v: V| !image(pairs_of(*self), *element).contains(v) by {
                                if m@.contains((*element, v)) {
                                    assert(domain(m@).contains(*element));
                                }
                            }
                            assert(image(pairs_of(*self), *element) =~= Set::<V>::empty());
                        }
                        UnorderedSet::new()
                    },
                }
            },
        }
    }

    /// Every element holding `value`.
    pub fn members_with(&self, value: &V) -> (members: UnorderedSet<E>)
        ensures
            members@ == preimage(pairs_of(*self), *value),
    {
        self.check_invariants();
        match self {
            Storage::Flag(_) => {
                let out = UnorderedSet::new();
                proof {
                    assert(preimage(pairs_of(*self), *value) =~= Set::<E>::empty());
                }
                out
            },
            Storage::SingleShared(m) => {
                let out = m.group(value);
                proof {
                    assert(out@ =~= preimage(pairs_of(*self), *value));
                }
                out
            },
            Storage::SingleUnique(m) => {
                let mut out = UnorderedSet::new();
                let found = m.get_by_right(value);
                if let Some(e) = found {
                    out.insert(e);
                }
                proof {
                    assert forall|e: E| preimage(pairs_of(*self), *value).contains(e) == out@.contains(e) by {
                        if preimage(pairs_of(*self), *value).contains(e) {
                            assert(pairs_of(*self).contains((e, *value)));
                            match found {
                                Some(l) => {
                                    assert(pairs_of(*self).contains((l, *value)));
                                },
                                None => {
                                    assert(has_value(m@, *value));
                                },
                            }
                        }
                    }
                    assert(out@ =~= preimage(pairs_of(*self), *value));
                }
                out
            },
            Storage::MultiShared(m) => m.group(value),
            Storage::MultiUnique(m) => {
                let mut out = UnorderedSet::new();
                if let Some(e) = m.key_of(value) {
                    out.insert(e);
                }
                proof {
                    assert(out@ =~= preimage(pairs_of(*self), *value)) by {
                        assert forall|e: E| preimage(pairs_of(*self), *value).contains(e) implies out@.contains(e) by {
                            assert(range(m@).contains(*value));
                        }
                    }
                }
                out
            },
        }
    }

    /// Every element holding the property.
    pub fn members(&self) -> (members: Vec<E>)
        ensures
            members@.to_set() == members_of(*self),
            members@.no_duplicates(),
    {
        match self {
            Storage::Flag(set) => set.iter(),
            Storage::SingleShared(m) => {
                let out = m.elements();
                proof {
                    assert(out@.to_set() =~= members_of(*self)) by {
                        assert forall|e: E| members_of(*self).contains(e) implies range(m@).contains(e) by {
                            let v = choose|v: V| pairs_of(*self).contains((e, v));
                            assert(m@.contains((v, e)));
                        }
                        assert forall|e: E| range(m@).contains(e) implies members_of(*self).contains(e) by {
                            let v = choose|v: V| m@.contains((v, e));
                            assert(pairs_of(*self).contains((e, v)));
                        }
                    }
                }
                out
            },
            Storage::SingleUnique(m) => {
                let out = m.left_values();
                proof {
                    assert(out@.to_set() =~= members_of(*self)) by {
                        assert forall|e: E| m@.dom().contains(e) implies members_of(*self).contains(e) by {
                            assert(pairs_of(*self).contains((e, m@[e])));
                        }
                    }
                }
                out
            },
            Storage::MultiShared(m) => m.elements(),
            Storage::MultiUnique(m) => m.keys(),
        }
    }

    /// The element holding `value`, for unique properties.
    pub fn owner_of(&self, value: &V) -> (owner: Option<E>)
        ensures
            match owner {
                Some(e) => uniqueness_of(kind_of(*self)) == Uniqueness::Unique && pairs_of(*self).contains((e, *value)),
                None => uniqueness_of(kind_of(*self)) != Uniqueness::Unique || !range(pairs_of(*self)).contains(*value),
            },
    {
        match self {
            Storage::SingleUnique(m) => {
                let owner = m.get_by_right(value);
                proof {
                    if owner is None && range(pairs_of(*self)).contains(*value) {
                        let e = choose|e: E| pairs_of(*self).contains((e, *value));
                        assert(has_value(m@, *value));
                    }
                }
                owner
            },
            Storage::MultiUnique(m) => m.key_of(value),
            _ => None,
        }
    }
}

impl<E: Key, V: Key> Storage<E, V> {
    /// The storage without `element`. The flag says whether it was a member.
    pub fn remove_member(self, element: &E) -> (out: (Self, bool))
        ensures
            kind_of(out.0) == kind_of(self),
            out.1 == members_of(self).contains(*element),
            pairs_of(out.0) == pairs_of(self).filter(|p: (E, V)| p.0 != *element),
            members_of(out.0) == members_of(self).remove(*element),
    {
        let ghost before = pairs_of(self);
        let ghost held = members_of(self);
        let was = self.contains_member(element);
        let out = match self {
            Storage::Flag(mut set) => {
                set.remove(element);
                Storage::Flag(set)
            },
            Storage::SingleShared(mut m) => {
                m.remove(element);
                Storage::SingleShared(m)
            },
            Storage::SingleUnique(mut m) => {
                m.remove_by_left(element);
                Storage::SingleUnique(m)
            },
            Storage::MultiShared(mut m) => {
                m.remove(element);
                Storage::MultiShared(m)
            },
            Storage::MultiUnique(mut m) => {
                m.remove(element);
                Storage::MultiUnique(m)
            },
        };
        proof {
            assert(pairs_of(out) =~= before.filter(|p: (E, V)| p.0 != *element));
            if !(out is Flag) {
                assert forall|e: E| members_of(out).contains(e) == held.remove(*element).contains(e) by {
                    if held.contains(e) && e != *element {
                        let v = choose|v: V| before.contains((e, v));
                        assert(pairs_of(out).contains((e, v)));
                    }
                    if members_of(out).contains(e) {
                        let v = choose|v: V| pairs_of(out).contains((e, v));
                        assert(before.contains((e, v)));
                    }
                }
            }
            assert(members_of(out) =~= held.remove(*element));
        }
        (out, was)
    }

    /// The storage without the pair `(element, value)`. The flag says
    /// whether the pair was there.
    pub fn remove_value(self, element: &E, value: &V) -> (out: (Self, bool))
        ensures
            kind_of(out.0) == kind_of(self),
            out.1 == pairs_of(self).contains((*element, *value)),
            pairs_of(out.0) == pairs_of(self).remove((*element, *value)),
            kind_of(self) == PropertyKind::Flag ==> members_of(out.0) == members_of(self),
    {
        let ghost before = pairs_of(self);
        let was = self.has_pair(element, value);
        let out = match self {
            Storage::Flag(set) => Storage::Flag(set),
            Storage::SingleShared(mut m) => {
                m.remove_pair(element, value);
                Storage::SingleShared(m)
            },
            Storage::SingleUnique(mut m) => {
                m.remove_pair(element, value);
                Storage::SingleUnique(m)
            },
            Storage::MultiShared(mut m) => {
                m.remove_pair(element, value);
                Storage::MultiShared(m)
            },
            Storage::MultiUnique(mut m) => {
                m.remove_pair(element, value);
                Storage::MultiUnique(m)
            },
        };
        proof {
            assert(pairs_of(out) =~= before.remove((*element, *value)));
        }
        (out, was)
    }

    /// A flag storage with `element` added; any other storage unchanged.
    pub fn set_flag(self, element: E) -> (out: Self)
        ensures
            kind_of(out) == kind_of(self),
            kind_of(self) == PropertyKind::Flag ==> members_of(out) == members_of(self).insert(element)
                && pairs_of(out) == pairs_of(self),
            kind_of(self) != PropertyKind::Flag ==> out == self,
    {
        match self {
            Storage::Flag(mut set) => {
                set.insert(element);
                Storage::Flag(set)
            },
            other => other,
        }
    }

    /// The storage with `value` as the element's only value; a unique
    /// kind takes the value from any other holder. A flag storage just
    /// gains the element.
    pub fn put_single(self, element: E, value: V) -> (out: Self)
        ensures
            kind_of(out) == kind_of(self),
            kind_of(self) == PropertyKind::Flag ==> members_of(out) == members_of(self).insert(element)
                && pairs_of(out) == pairs_of(self),
            kind_of(self) != PropertyKind::Flag ==> pairs_of(out) == after_put_single(pairs_of(self), kind_of(self), element, value),
    {
        let ghost before = pairs_of(self);
        let ghost kind = kind_of(self);
        let out = match self {
            Storage::Flag(mut set) => {
                set.insert(element);
                Storage::Flag(set)
            },
            Storage::SingleShared(mut m) => {
                m.insert(element, value);
                Storage::SingleShared(m)
            },
            Storage::SingleUnique(mut m) => {
                m.insert(element, value);
                Storage::SingleUnique(m)
            },
            Storage::MultiShared(mut m) => {
                let mut only = UnorderedSet::new();
                only.insert(value);
                m.replace_labels(&element, &only);
                Storage::MultiShared(m)
            },
            Storage::MultiUnique(mut m) => {
                m.remove(&element);
                m.insert_or_move(element, value);
                Storage::MultiUnique(m)
            },
        };
        proof {
            if kind != PropertyKind::Flag {
                assert(pairs_of(out) =~= after_put_single(before, kind, element, value));
            }
        }
        out
    }

    /// The storage with `value` added: a multi kind keeps the element's
    /// other values, a single kind replaces them.
    pub fn put_value(self, element: E, value: V) -> (out: Self)
        ensures
            kind_of(out) == kind_of(self),
            kind_of(self) == PropertyKind::Flag ==> members_of(out) == members_of(self).insert(element)
                && pairs_of(out) == pairs_of(self),
            kind_of(self) != PropertyKind::Flag ==> pairs_of(out) == after_put_value(pairs_of(self), kind_of(self), element, value),
    {
        let ghost before = pairs_of(self);
        match self {
            Storage::MultiShared(mut m) => {
                m.insert(element, value);
                let out = Storage::MultiShared(m);
                proof {
                    assert(pairs_of(out) =~= after_put_value(before, PropertyKind::Multi, element, value));
                }
                out
            },
            Storage::MultiUnique(mut m) => {
                m.insert_or_move(element, value);
                let out = Storage::MultiUnique(m);
                proof {
                    assert(pairs_of(out) =~= after_put_value(before, PropertyKind::UniqueMulti, element, value));
                }
                out
            },
            other => other.put_single(element, value),
        }
    }
}

/// The first components of a finite relation form a finite set.
pub proof fn lemma_domain_finite<K, W>(r: Set<(K, W)>)
    requires
        r.finite(),
    ensures
        domain(r).finite(),
{
    let f = |p: (K, W)| p.0;
    assert forall|k: K| domain(r).contains(k) == r.map(f).contains(k) by {
        if domain(r).contains(k) {
            let w = choose|w: W| r.contains((k, w));
            assert(f((k, w)) == k);
        }
        if r.map(f).contains(k) {
            let p = choose|p: (K, W)| r.contains(p) && f(p) == k;
            assert(r.contains((p.0, p.1)));
        }
    }
    assert(domain(r) =~= r.map(f));
    r.lemma_map_finite(f);
}

/// The second components of a finite relation form a finite set.
pub proof fn lemma_range_finite<K, W>(r: Set<(K, W)>)
    requires
        r.finite(),
    ensures
        range(r).finite(),
{
    let f = |p: (K, W)| p.1;
    assert forall|w: W| range(r).contains(w) == r.map(f).contains(w) by {
        if range(r).contains(w) {
            let k = choose|k: K| r.contains((k, w));
            assert(f((k, w)) == w);
        }
        if r.map(f).contains(w) {
            let p = choose|p: (K, W)| r.contains(p) && f(p) == w;
            assert(r.contains((p.0, p.1)));
        }
    }
    assert(range(r) =~= r.map(f));
    r.lemma_map_finite(f);
}

} // verus!
