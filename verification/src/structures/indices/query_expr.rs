//! Query expressions over properties, with their meaning as a set of
//! elements and the parts of the store each one reads.
use vstd::prelude::*;
use crate::structures::traits::key::Key;
use crate::structures::relation::preimage;
use crate::structures::collections::sets::unordered_set::UnorderedSet;

verus! {

broadcast use {vstd::set::group_set_axioms, vstd::seq_lib::group_seq_properties};

/// A composable expression over property identifiers `P` and values `V`.
pub enum Expr<P, V> {
    /// Elements that have the property at all.
    Has(P),
    /// Elements whose property holds the value.
    Is(P, V),
    /// Elements matching every child. With no children: every element.
    And(Vec<Expr<P, V>>),
    /// Elements matching any child. With no children: nothing.
    Or(Vec<Expr<P, V>>),
    /// Elements of the universe not matching the child.
    Not(Box<Expr<P, V>>),
}

/// The elements holding each property, the pairs of each valued property,
/// and the universe: what an expression is evaluated against.
#[verifier::ext_equal]
#[verifier::reject_recursive_types(E)]
#[verifier::reject_recursive_types(P)]
#[verifier::reject_recursive_types(V)]
pub struct Facts<E, P, V> {
    pub members: Map<P, Set<E>>,
    pub pairs: Map<P, Set<(E, V)>>,
    pub universe: Set<E>,
}

/// The elements of `facts` that match `e`.
pub open spec fn eval<E, P, V>(e: Expr<P, V>, facts: Facts<E, P, V>) -> Set<E>
    decreases e,
{
    match e {
        Expr::Has(p) => if facts.members.contains_key(p) { facts.members[p] } else { Set::empty() },
        Expr::Is(p, v) => if facts.pairs.contains_key(p) { preimage(facts.pairs[p], v) } else { Set::empty() },
        Expr::And(children) => if children@.len() == 0 {
            facts.universe
        } else {
            eval_all(children@, facts)
        },
        Expr::Or(children) => eval_any(children@, facts),
        Expr::Not(child) => facts.universe.difference(eval(*child, facts)),
    }
}

/// The elements matching every expression of a non-empty list.
pub open spec fn eval_all<E, P, V>(s: Seq<Expr<P, V>>, facts: Facts<E, P, V>) -> Set<E>
    decreases s,
{
    if s.len() <= 1 {
        if s.len() == 1 { eval(s[0], facts) } else { facts.universe }
    } else {
        eval(s[0], facts).intersect(eval_all(s.drop_first(), facts))
    }
}

/// The elements matching some expression of a list.
pub open spec fn eval_any<E, P, V>(s: Seq<Expr<P, V>>, facts: Facts<E, P, V>) -> Set<E>
    decreases s,
{
    if s.len() == 0 {
        Set::empty()
    } else {
        eval(s[0], facts).union(eval_any(s.drop_first(), facts))
    }
}

/// The properties an expression reads.
pub open spec fn deps<P, V>(e: Expr<P, V>) -> Set<P>
    decreases e,
{
    match e {
        Expr::Has(p) => Set::empty().insert(p),
        Expr::Is(p, _) => Set::empty().insert(p),
        Expr::And(children) => deps_all(children@),
        Expr::Or(children) => deps_all(children@),
        Expr::Not(child) => deps(*child),
    }
}

/// The properties a list of expressions reads.
pub open spec fn deps_all<P, V>(s: Seq<Expr<P, V>>) -> Set<P>
    decreases s,
{
    if s.len() == 0 {
        Set::empty()
    } else {
        deps(s[0]).union(deps_all(s.drop_first()))
    }
}

/// Whether an expression reads the universe.
pub open spec fn reads_universe<P, V>(e: Expr<P, V>) -> bool
    decreases e,
{
    match e {
        Expr::Has(_) => false,
        Expr::Is(_, _) => false,
        Expr::And(children) => children@.len() == 0 || any_reads_universe(children@),
        Expr::Or(children) => any_reads_universe(children@),
        Expr::Not(_) => true,
    }
}

/// Whether some expression of a list reads the universe.
pub open spec fn any_reads_universe<P, V>(s: Seq<Expr<P, V>>) -> bool
    decreases s,
{
    if s.len() == 0 {
        false
    } else {
        reads_universe(s[0]) || any_reads_universe(s.drop_first())
    }
}

/// Whether two sets of facts agree on the properties `ps`, and on the
/// universe when `universe` is set.
pub open spec fn agree_on<E, P, V>(a: Facts<E, P, V>, b: Facts<E, P, V>, ps: Set<P>, universe: bool) -> bool {
    &&& forall|p: P| #[trigger] ps.contains(p) ==> a.members.contains_key(p) == b.members.contains_key(p)
        && (a.members.contains_key(p) ==> a.members[p] == b.members[p])
        && a.pairs.contains_key(p) == b.pairs.contains_key(p)
        && (a.pairs.contains_key(p) ==> a.pairs[p] == b.pairs[p])
    &&& universe ==> a.universe == b.universe
}

/// Agreement on some properties implies agreement on fewer.
proof fn lemma_agree_fewer<E, P, V>(a: Facts<E, P, V>, b: Facts<E, P, V>, ps: Set<P>, qs: Set<P>, u: bool, w: bool)
    requires
        agree_on(a, b, ps, u),
        qs.subset_of(ps),
        w ==> u,
    ensures
        agree_on(a, b, qs, w),
{
    assert forall|p: P| #[trigger] qs.contains(p) implies a.members.contains_key(p) == b.members.contains_key(p)
        && (a.members.contains_key(p) ==> a.members[p] == b.members[p])
        && a.pairs.contains_key(p) == b.pairs.contains_key(p)
        && (a.pairs.contains_key(p) ==> a.pairs[p] == b.pairs[p]) by {
        assert(ps.contains(p));
    }
}

/// An expression means the same under facts that agree on what it reads.
pub proof fn lemma_eval_frame<E, P, V>(e: Expr<P, V>, a: Facts<E, P, V>, b: Facts<E, P, V>)
    requires
        agree_on(a, b, deps(e), reads_universe(e)),
    ensures
        eval(e, a) == eval(e, b),
    decreases e,
{
    match e {
        Expr::Has(p) => {
            assert(deps(e).contains(p));
        },
        Expr::Is(p, v) => {
            assert(deps(e).contains(p));
        },
        Expr::And(children) => {
            if children@.len() > 0 {
                assert(any_reads_universe(children@) ==> reads_universe(e));
                lemma_eval_all_frame(children@, a, b);
            }
        },
        Expr::Or(children) => {
            lemma_eval_any_frame(children@, a, b);
        },
        Expr::Not(child) => {
            lemma_eval_frame(*child, a, b);
        },
    }
}

proof fn lemma_eval_all_frame<E, P, V>(s: Seq<Expr<P, V>>, a: Facts<E, P, V>, b: Facts<E, P, V>)
    requires
        s.len() > 0,
        agree_on(a, b, deps_all(s), any_reads_universe(s)),
    ensures
        eval_all(s, a) == eval_all(s, b),
    decreases s,
{
    lemma_agree_fewer(a, b, deps_all(s), deps(s[0]), any_reads_universe(s), reads_universe(s[0]));
    lemma_eval_frame(s[0], a, b);
    if s.len() > 1 {
        lemma_agree_fewer(a, b, deps_all(s), deps_all(s.drop_first()), any_reads_universe(s), any_reads_universe(s.drop_first()));
        lemma_eval_all_frame(s.drop_first(), a, b);
    }
}

proof fn lemma_eval_any_frame<E, P, V>(s: Seq<Expr<P, V>>, a: Facts<E, P, V>, b: Facts<E, P, V>)
    requires
        agree_on(a, b, deps_all(s), any_reads_universe(s)),
    ensures
        eval_any(s, a) == eval_any(s, b),
    decreases s,
{
    if s.len() > 0 {
        lemma_agree_fewer(a, b, deps_all(s), deps(s[0]), any_reads_universe(s), reads_universe(s[0]));
        lemma_eval_frame(s[0], a, b);
        lemma_agree_fewer(a, b, deps_all(s), deps_all(s.drop_first()), any_reads_universe(s), any_reads_universe(s.drop_first()));
        lemma_eval_any_frame(s.drop_first(), a, b);
    }
}

/// Whether two expressions have the same shape and leaves.
pub open spec fn same_expr<P, V>(a: Expr<P, V>, b: Expr<P, V>) -> bool
    decreases a,
{
    match (a, b) {
        (Expr::Has(p), Expr::Has(q)) => p == q,
        (Expr::Is(p, x), Expr::Is(q, y)) => p == q && x == y,
        (Expr::And(xs), Expr::And(ys)) => same_list(xs@, ys@),
        (Expr::Or(xs), Expr::Or(ys)) => same_list(xs@, ys@),
        (Expr::Not(x), Expr::Not(y)) => same_expr(*x, *y),
        _ => false,
    }
}

/// Whether two lists hold expressions of the same shape, in order.
pub open spec fn same_list<P, V>(xs: Seq<Expr<P, V>>, ys: Seq<Expr<P, V>>) -> bool
    decreases xs,
{
    if xs.len() == 0 {
        ys.len() == 0
    } else {
        ys.len() > 0 && same_expr(xs[0], ys[0]) && same_list(xs.drop_first(), ys.drop_first())
    }
}

/// Expressions of the same shape mean the same and read the same.
pub proof fn lemma_same_expr<E, P, V>(a: Expr<P, V>, b: Expr<P, V>, facts: Facts<E, P, V>)
    requires
        same_expr(a, b),
    ensures
        eval(a, facts) == eval(b, facts),
        deps(a) == deps(b),
        reads_universe(a) == reads_universe(b),
    decreases a,
{
    match (a, b) {
        (Expr::And(xs), Expr::And(ys)) => {
            lemma_same_list(xs@, ys@, facts);
        },
        (Expr::Or(xs), Expr::Or(ys)) => {
            lemma_same_list(xs@, ys@, facts);
        },
        (Expr::Not(x), Expr::Not(y)) => {
            lemma_same_expr(*x, *y, facts);
        },
        _ => {},
    }
}

proof fn lemma_same_list<E, P, V>(xs: Seq<Expr<P, V>>, ys: Seq<Expr<P, V>>, facts: Facts<E, P, V>)
    requires
        same_list(xs, ys),
    ensures
        xs.len() == ys.len(),
        xs.len() > 0 ==> eval_all(xs, facts) == eval_all(ys, facts),
        eval_any(xs, facts) == eval_any(ys, facts),
        deps_all(xs) == deps_all(ys),
        any_reads_universe(xs) == any_reads_universe(ys),
    decreases xs,
{
    if xs.len() > 0 {
        lemma_same_expr(xs[0], ys[0], facts);
        lemma_same_list(xs.drop_first(), ys.drop_first(), facts);
    }
}

/// Lists have the same shape exactly when they match position by position.
pub proof fn lemma_same_list_pointwise<P, V>(xs: Seq<Expr<P, V>>, ys: Seq<Expr<P, V>>)
    ensures
        same_list(xs, ys) == (xs.len() == ys.len() && forall|i: int| 0 <= i < xs.len() ==> same_expr(#[trigger] xs[i], ys[i])),
    decreases xs,
{
    if xs.len() > 0 && ys.len() > 0 {
        lemma_same_list_pointwise(xs.drop_first(), ys.drop_first());
        if xs.len() == ys.len() && forall|i: int| 0 <= i < xs.len() ==> same_expr(#[trigger] xs[i], ys[i]) {
            assert forall|i: int| 0 <= i < xs.drop_first().len() implies same_expr(#[trigger] xs.drop_first()[i], ys.drop_first()[i]) by {
                assert(same_expr(xs[i + 1], ys[i + 1]));
            }
        }
        if same_list(xs, ys) {
            assert forall|i: int| 0 <= i < xs.len() implies same_expr(#[trigger] xs[i], ys[i]) by {
                if i > 0 {
                    assert(xs[i] == xs.drop_first()[i - 1]);
                }
            }
        }
    }
}

impl<P: Key, V: Key> Expr<P, V> {
    /// An expression matching elements that hold `property`.
    pub fn has(property: P) -> (e: Self)
        ensures
            e == Expr::<P, V>::Has(property),
    {
        Expr::Has(property)
    }

    /// An expression matching elements whose `property` holds `value`.
    pub fn is(property: P, value: V) -> (e: Self)
        ensures
            e == Expr::<P, V>::Is(property, value),
    {
        Expr::Is(property, value)
    }

    /// The conjunction of `children`; with no children, every element.
    pub fn and(children: Vec<Self>) -> (e: Self)
        ensures
            e == Expr::And(children),
    {
        Expr::And(children)
    }

    /// The disjunction of `children`; with no children, no element.
    pub fn or(children: Vec<Self>) -> (e: Self)
        ensures
            e == Expr::Or(children),
    {
        Expr::Or(children)
    }

    /// The universe-relative negation of `child`.
    pub fn negate(child: Self) -> (e: Self)
        ensures
            e == Expr::Not(Box::new(child)),
    {
        Expr::Not(Box::new(child))
    }

    /// The properties this expression reads, and whether it reads the
    /// universe.
    pub fn dependencies(&self) -> (found: (UnorderedSet<P>, bool))
        ensures
            found.0@ == deps(*self),
            found.1 == reads_universe(*self),
        decreases self,
    {
        match self {
            Expr::Has(p) => {
                let mut out = UnorderedSet::new();
                out.insert(*p);
                (out, false)
            },
            Expr::Is(p, _) => {
                let mut out = UnorderedSet::new();
                out.insert(*p);
                (out, false)
            },
            Expr::And(children) => {
                let (out, reads) = Self::dependencies_of_list(children);
                (out, children.len() == 0 || reads)
            },
            Expr::Or(children) => Self::dependencies_of_list(children),
            Expr::Not(child) => {
                let (out, _) = child.dependencies();
                (out, true)
            },
        }
    }

    fn dependencies_of_list(children: &Vec<Self>) -> (found: (UnorderedSet<P>, bool))
        ensures
            found.0@ == deps_all(children@),
            found.1 == any_reads_universe(children@),
        decreases children,
    {
        let n = children.len();
        let mut out = UnorderedSet::new();
        let mut reads = false;
        let mut i: usize = n;
        proof {
            assert(children@.subrange(n as int, n as int) =~= Seq::<Self>::empty());
        }
        while i > 0
            invariant
                i <= n,
                n == children@.len(),
                out@ == deps_all(children@.subrange(i as int, n as int)),
                reads == any_reads_universe(children@.subrange(i as int, n as int)),
            decreases i,
        {
            i -= 1;
            proof {
                assert(decreases_to!(children => children@[i as int]));
            }
            let (d, r) = children[i].dependencies();
            out = d.union(&out);
            reads = r || reads;
            proof {
                let t = children@.subrange(i as int, n as int);
                assert(t.drop_first() =~= children@.subrange(i + 1, n as int));
                assert(t[0] == children@[i as int]);
            }
        }
        proof {
            assert(children@.subrange(0, n as int) =~= children@);
        }
        (out, reads)
    }

    /// Whether `other` has the same shape and leaves.
    pub fn same_as(&self, other: &Self) -> (same: bool)
        ensures
            same == same_expr(*self, *other),
        decreases self,
    {
        match (self, other) {
            (Expr::Has(p), Expr::Has(q)) => p.key_eq(q),
            (Expr::Is(p, x), Expr::Is(q, y)) => p.key_eq(q) && x.key_eq(y),
            (Expr::And(xs), Expr::And(ys)) => Self::same_lists(xs, ys),
            (Expr::Or(xs), Expr::Or(ys)) => Self::same_lists(xs, ys),
            (Expr::Not(x), Expr::Not(y)) => (**x).same_as(&**y),
            _ => false,
        }
    }

    fn same_lists(xs: &Vec<Self>, ys: &Vec<Self>) -> (same: bool)
        ensures
            same == same_list(xs@, ys@),
        decreases xs,
    {
        proof {
            lemma_same_list_pointwise(xs@, ys@);
        }
        if xs.len() != ys.len() {
            return false;
        }
        let mut i: usize = 0;
        while i < xs.len()
            invariant
                i <= xs@.len(),
                xs@.len() == ys@.len(),
                forall|j: int| 0 <= j < i ==> same_expr(#[trigger] xs@[j], ys@[j]),
            decreases xs@.len() - i,
        {
            proof {
                assert(decreases_to!(xs => xs@[i as int]));
            }
            if !xs[i].same_as(&ys[i]) {
                proof {
                    lemma_same_list_pointwise(xs@, ys@);
                }
                return false;
            }
            i += 1;
        }
        proof {
            lemma_same_list_pointwise(xs@, ys@);
        }
        true
    }
}

impl<P: Key, V: Key> Expr<P, V> {
    /// A copy of the same shape.
    pub fn duplicate(&self) -> (copy: Self)
        ensures
            same_expr(copy, *self),
        decreases self,
    {
        match self {
            Expr::Has(p) => Expr::Has(*p),
            Expr::Is(p, v) => Expr::Is(*p, *v),
            Expr::And(children) => Expr::And(Self::duplicate_list(children)),
            Expr::Or(children) => Expr::Or(Self::duplicate_list(children)),
            Expr::Not(child) => Expr::Not(Box::new((**child).duplicate())),
        }
    }

    fn duplicate_list(children: &Vec<Self>) -> (copy: Vec<Self>)
        ensures
            same_list(copy@, children@),
        decreases children,
    {
        let mut out: Vec<Self> = Vec::new();
        let mut i: usize = 0;
        while i < children.len()
            invariant
                i <= children@.len(),
                out@.len() == i,
                forall|j: int| 0 <= j < i ==> same_expr(#[trigger] out@[j], children@[j]),
            decreases children@.len() - i,
        {
            proof {
                assert(decreases_to!(children => children@[i as int]));
            }
            out.push(children[i].duplicate());
            i += 1;
        }
        proof {
            lemma_same_list_pointwise(out@, children@);
        }
        out
    }
}

} // verus!
