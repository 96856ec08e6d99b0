//! Facts about maps used by the map structures' contracts.
use vstd::prelude::*;

verus! {

/// No two keys share a value.
pub open spec fn injective<K, V>(m: Map<K, V>) -> bool {
    forall|a: K, b: K| #[trigger] m.contains_key(a) && #[trigger] m.contains_key(b) && a != b ==> m[a] != m[b]
}

/// Whether some key maps to `v`.
pub open spec fn has_value<K, V>(m: Map<K, V>, v: V) -> bool {
    exists|k: K| #[trigger] m.contains_key(k) && m[k] == v
}

/// The map without the keys whose value is `v`.
pub open spec fn without_value<K, V>(m: Map<K, V>, v: V) -> Map<K, V> {
    m.restrict(m.dom().filter(|k: K| m[k] != v))
}

/// The values a map takes, as a set.
pub open spec fn value_set<K, V>(m: Map<K, V>) -> Set<V> {
    Set::new(|v: V| has_value(m, v))
}

/// The key-value pairs of a map.
pub open spec fn graph<K, V>(m: Map<K, V>) -> Set<(K, V)> {
    Set::new(|p: (K, V)| m.contains_key(p.0) && m[p.0] == p.1)
}

/// A finite map has as many pairs as keys.
pub proof fn lemma_graph_len<K, V>(m: Map<K, V>)
    requires
        m.dom().finite(),
    ensures
        graph(m).finite(),
        graph(m).len() == m.dom().len(),
{
    let f = |k: K| (k, m[k]);
    assert(m.dom().map(f) =~= graph(m)) by {
        assert forall|p: (K, V)| #[trigger] graph(m).contains(p) implies m.dom().map(f).contains(p) by {
            assert(f(p.0) == p);
        }
    }
    vstd::set_lib::lemma_map_size(m.dom(), graph(m), f);
}

/// Pairs of a finite map with distinct keys, as many as the map has keys,
/// are all of its pairs.
pub proof fn lemma_pairs_cover<K, V>(m: Map<K, V>, s: Seq<(K, V)>)
    requires
        m.dom().finite(),
        s.len() == m.dom().len(),
        forall|i: int| 0 <= i < s.len() ==> m.contains_key(#[trigger] s[i].0) && m[s[i].0] == s[i].1,
        forall|i: int, j: int| 0 <= i < s.len() && 0 <= j < s.len() && i != j ==> s[i].0 != s[j].0,
    ensures
        s.to_set() == graph(m),
{
    assert(s.no_duplicates()) by {
        assert forall|i: int, j: int| 0 <= i < s.len() && 0 <= j < s.len() && i != j implies s[i] != s[j] by {
            assert(s[i].0 != s[j].0);
        }
    }
    crate::structures::vec_ops::lemma_unique_len(s);
    lemma_graph_len(m);
    assert(s.to_set().subset_of(graph(m))) by {
        assert forall|p: (K, V)| #[trigger] s.to_set().contains(p) implies graph(m).contains(p) by {
            let i = choose|i: int| 0 <= i < s.len() && s[i] == p;
            assert(m.contains_key(s[i].0));
        }
    }
    vstd::set_lib::lemma_subset_equality(s.to_set(), graph(m));
}

} // verus!
