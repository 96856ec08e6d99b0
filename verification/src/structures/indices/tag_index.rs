//! A hierarchical index of typed tag paths.
//!
//! A path is a `/`-separated list of segments. Each segment is either
//! `type:tag` or a bare `tag`, as in `phont:euphont/express:clothes/dress`.
//! Every segment becomes a node, so the path above also makes
//! `phont:euphont` and `phont:euphont/express:clothes` present. Removing a
//! path removes its whole subtree, and prefix nodes that only existed to
//! hold it are pruned.
//!
//! The index is viewed as the set of paths that were added, each path a
//! sequence of `(type, tag)` segments, a bare tag having the empty type.
use vstd::prelude::*;
use crate::text::{chars_of, push_char, push_range, push_text};

verus! {

broadcast use {vstd::set::group_set_axioms, vstd::seq_lib::group_seq_properties};

/// A path segment: its type (empty for a bare tag) and its tag.
pub type Segment = (Seq<char>, Seq<char>);

/// Where the first `c` of `s` stands, or `s.len()` when there is none.
pub open spec fn first_of(s: Seq<char>, c: char) -> nat
    decreases s.len(),
{
    if s.len() == 0 {
        0
    } else if s[0] == c {
        0
    } else {
        1 + first_of(s.drop_first(), c)
    }
}

/// The text of one segment read as `type:tag`, split at its first `:`, or
/// as a bare tag when it has none.
pub open spec fn read_segment(text: Seq<char>) -> Segment {
    let k = first_of(text, ':');
    if k < text.len() {
        (text.subrange(0, k as int), text.subrange(k + 1int, text.len() as int))
    } else {
        (Seq::empty(), text)
    }
}

/// The segments of a path, or `None` when some segment has an empty tag.
/// One trailing `/` is allowed.
pub open spec fn parse_path(s: Seq<char>) -> Option<Seq<Segment>>
    decreases s.len(),
{
    let j = first_of(s, '/');
    let segment = read_segment(s.subrange(0, if j <= s.len() { j as int } else { s.len() as int }));
    if segment.1.len() == 0 {
        None
    } else if j + 1 >= s.len() {
        Some(seq![segment])
    } else {
        match parse_path(s.subrange(j + 1int, s.len() as int)) {
            Some(rest) => Some(seq![segment] + rest),
            None => None,
        }
    }
}

/// The paths of `paths` that continue `p`, without `p`.
pub open spec fn below(paths: Set<Seq<Segment>>, p: Seq<Segment>) -> Set<Seq<Segment>> {
    Set::new(|t: Seq<Segment>| paths.contains(p + t))
}

/// Whether a node stands at `p`: some path continues it.
pub open spec fn has_node(paths: Set<Seq<Segment>>, p: Seq<Segment>) -> bool {
    exists|t: Seq<Segment>| #[trigger] paths.contains(p + t)
}

/// Hierarchical index of slash-separated tag paths.
pub struct TagIndex {
    entries: Vec<TagEntry>,
    terminal: bool,
}

/// One child of a node, under its type and tag.
struct TagEntry {
    kind: String,
    tag: String,
    child: TagIndex,
}

spec fn key(e: TagEntry) -> Segment {
    (e.kind@, e.tag@)
}

/// No two children share a type and tag.
spec fn distinct_keys(es: Seq<TagEntry>) -> bool {
    forall|i: int, j: int| 0 <= i < es.len() && 0 <= j < es.len() && i != j ==> key(es[i]) != key(es[j])
}

/// A node that ends a path or holds one further down.
spec fn live(n: TagIndex) -> bool {
    n.terminal || n.entries@.len() > 0
}

spec fn wf(n: TagIndex) -> bool
    decreases n,
{
    distinct_keys(n.entries@) && wf_in(n.entries@)
}

spec fn wf_in(es: Seq<TagEntry>) -> bool
    decreases es,
{
    if es.len() == 0 {
        true
    } else {
        entry_ok(es[0]) && wf_in(es.drop_first())
    }
}

/// A child with a tag, well formed, that holds some path.
spec fn entry_ok(e: TagEntry) -> bool
    decreases e,
{
    e.tag@.len() > 0 && live(e.child) && wf(e.child)
}

/// Whether the path `p` ends at or below `n`.
spec fn holds(n: TagIndex, p: Seq<Segment>) -> bool
    decreases n,
{
    if p.len() == 0 {
        n.terminal
    } else {
        holds_in(n.entries@, p)
    }
}

spec fn holds_in(es: Seq<TagEntry>, p: Seq<Segment>) -> bool
    decreases es,
{
    if es.len() == 0 {
        false
    } else {
        (key(es[0]) == p[0] && holds(es[0].child, p.drop_first())) || holds_in(es.drop_first(), p)
    }
}

/// Child `i` holds the rest of `p`.
spec fn holds_at(es: Seq<TagEntry>, i: int, p: Seq<Segment>) -> bool {
    key(es[i]) == p[0] && holds(es[i].child, p.drop_first())
}

spec fn segment_views(v: Seq<(String, String)>) -> Seq<Segment> {
    v.map_values(|e: (String, String)| (e.0@, e.1@))
}

impl View for TagIndex {
    type V = Set<Seq<Segment>>;

    closed spec fn view(&self) -> Set<Seq<Segment>> {
        Set::new(|p: Seq<Segment>| holds(*self, p))
    }
}

impl TagIndex {
    #[verifier::type_invariant]
    spec fn inv(self) -> bool {
        wf(self)
    }
}

proof fn lemma_holds_in(es: Seq<TagEntry>, p: Seq<Segment>)
    requires
        p.len() > 0,
    ensures
        holds_in(es, p) <==> exists|i: int| 0 <= i < es.len() && #[trigger] holds_at(es, i, p),
    decreases es,
{
    if es.len() > 0 {
        lemma_holds_in(es.drop_first(), p);
        if key(es[0]) == p[0] && holds(es[0].child, p.drop_first()) {
            assert(holds_at(es, 0, p));
        }
        if holds_in(es.drop_first(), p) {
            let i = choose|i: int| 0 <= i < es.drop_first().len() && #[trigger] holds_at(es.drop_first(), i, p);
            assert(holds_at(es, i + 1, p));
        }
        if exists|i: int| 0 <= i < es.len() && #[trigger] holds_at(es, i, p) {
            let i = choose|i: int| 0 <= i < es.len() && #[trigger] holds_at(es, i, p);
            if i > 0 {
                assert(holds_at(es.drop_first(), i - 1, p));
            }
        }
    }
}

proof fn lemma_wf_in(es: Seq<TagEntry>)
    ensures
        wf_in(es) <==> forall|i: int| 0 <= i < es.len() ==> #[trigger] entry_ok(es[i]),
    decreases es,
{
    if es.len() > 0 {
        lemma_wf_in(es.drop_first());
        if forall|i: int| 0 <= i < es.len() ==> #[trigger] entry_ok(es[i]) {
            assert(entry_ok(es[0]));
            assert forall|i: int| 0 <= i < es.drop_first().len() implies #[trigger] entry_ok(es.drop_first()[i]) by {
                assert(es.drop_first()[i] == es[i + 1]);
            }
        }
        if wf_in(es) {
            assert forall|i: int| 0 <= i < es.len() implies #[trigger] entry_ok(es[i]) by {
                if i > 0 {
                    assert(es[i] == es.drop_first()[i - 1]);
                }
            }
        }
    }
}

/// The paths of `n` that go through its child `i` are that child's paths
/// under its key.
proof fn lemma_child_paths(n: TagIndex, i: int, t: Seq<Segment>)
    requires
        wf(n),
        0 <= i < n.entries@.len(),
    ensures
        holds(n, seq![key(n.entries@[i])] + t) == holds(n.entries@[i].child, t),
{
    let p = seq![key(n.entries@[i])] + t;
    let es = n.entries@;
    assert(p[0] == key(es[i]));
    assert(p.drop_first() =~= t);
    lemma_holds_in(es, p);
    if holds(n, p) {
        let j = choose|j: int| 0 <= j < es.len() && #[trigger] holds_at(es, j, p);
        assert(j == i);
    } else {
        if holds(es[i].child, t) {
            assert(holds_at(es, i, p));
        }
    }
}

/// A path with a first segment no child has is not in `n`.
proof fn lemma_no_child(n: TagIndex, p: Seq<Segment>)
    requires
        p.len() > 0,
        forall|i: int| 0 <= i < n.entries@.len() ==> key(#[trigger] n.entries@[i]) != p[0],
    ensures
        !holds(n, p),
{
    lemma_holds_in(n.entries@, p);
}

/// A live node holds some path.
proof fn lemma_live_holds(n: TagIndex)
    requires
        wf(n),
        live(n),
    ensures
        exists|q: Seq<Segment>| holds(n, q),
    decreases n,
{
    if n.terminal {
        assert(holds(n, Seq::empty()));
    } else {
        let es = n.entries@;
        lemma_wf_in(es);
        assert(entry_ok(es[0]));
        let c = es[0].child;
        assert(decreases_to!(n => n.entries));
        lemma_live_holds(c);
        let q = choose|q: Seq<Segment>| holds(c, q);
        lemma_child_paths(n, 0, q);
        assert(holds(n, seq![key(es[0])] + q));
    }
}

/// Where the first `c` of `s` stands, read off a scan.
proof fn lemma_first_of(s: Seq<char>, c: char, i: int)
    requires
        0 <= i <= s.len(),
        forall|k: int| 0 <= k < i ==> s[k] != c,
        i == s.len() || s[i] == c,
    ensures
        first_of(s, c) == i,
    decreases s.len(),
{
    if s.len() > 0 && i > 0 {
        lemma_first_of(s.drop_first(), c, i - 1);
    }
}

/// Reads a path into its segments, as `parse_path` does.
fn parse(text: &str) -> (segments: Option<Vec<(String, String)>>)
    ensures
        match segments {
            Some(v) => parse_path(text@) == Some(segment_views(v@)),
            None => parse_path(text@) is None,
        },
{
    let cs = chars_of(text);
    let n = cs.len();
    let ghost s = text@;
    let mut out: Vec<(String, String)> = Vec::new();
    let mut a: usize = 0;
    proof {
        assert(s.subrange(0, n as int) =~= s);
        match parse_path(s) {
            Some(rest) => {
                assert(segment_views(out@) + rest =~= rest);
            },
            None => {},
        }
    }
    loop
        invariant
            cs@ == s,
            s == text@,
            n == s.len(),
            a <= n,
            parse_path(s) == (match parse_path(s.subrange(a as int, n as int)) {
                Some(rest) => Some(segment_views(out@) + rest),
                None => None::<Seq<Segment>>,
            }),
        decreases n - a,
    {
        let ghost u = s.subrange(a as int, n as int);
        let mut j: usize = a;
        while j < n && cs[j] != '/'
            invariant
                a <= j <= n,
                n == s.len(),
                cs@ == s,
                forall|k: int| a <= k < j ==> s[k] != '/',
            decreases n - j,
        {
            j += 1;
        }
        proof {
            lemma_first_of(u, '/', j - a);
        }
        let mut k: usize = a;
        while k < j && cs[k] != ':'
            invariant
                a <= k <= j <= n,
                n == s.len(),
                cs@ == s,
                forall|m: int| a <= m < k ==> s[m] != ':',
            decreases j - k,
        {
            k += 1;
        }
        let ghost text_seg = u.subrange(0, j - a);
        proof {
            assert(text_seg =~= s.subrange(a as int, j as int));
            lemma_first_of(text_seg, ':', k - a);
        }
        let mut kind = String::new();
        let mut tag = String::new();
        if k < j {
            push_range(&mut kind, &cs, a, k);
            push_range(&mut tag, &cs, k + 1, j);
        } else {
            push_range(&mut tag, &cs, a, j);
        }
        proof {
            let seg = read_segment(text_seg);
            if k < j {
                assert(seg.0 =~= kind@);
                assert(seg.1 =~= tag@);
            } else {
                assert(kind@ =~= Seq::<char>::empty());
                assert(seg.1 =~= tag@);
            }
        }
        let empty_tag = if k < j { k + 1 == j } else { j == a };
        if empty_tag {
            proof {
                assert(read_segment(text_seg).1.len() == 0);
                assert(parse_path(u) is None);
            }
            return None;
        }
        let ghost before = out@;
        out.push((kind, tag));
        proof {
            assert(segment_views(out@) =~= segment_views(before).push(read_segment(text_seg)));
        }
        if n - j <= 1 {
            proof {
                assert(parse_path(u) == Some(seq![read_segment(text_seg)]));
                assert(segment_views(before) + seq![read_segment(text_seg)] =~= segment_views(out@));
            }
            return Some(out);
        }
        proof {
            let rest = s.subrange(j + 1, n as int);
            assert(u.subrange(j - a + 1, u.len() as int) =~= rest);
            match parse_path(rest) {
                Some(r) => {
                    assert(segment_views(before) + (seq![read_segment(text_seg)] + r) =~= segment_views(out@) + r);
                },
                None => {},
            }
        }
        a = j + 1;
    }
}

/// The child of `entries` stored under `kind` and `tag`, if any.
fn find_in(entries: &Vec<TagEntry>, kind: &String, tag: &String) -> (found: Option<usize>)
    ensures
        match found {
            Some(i) => i < entries@.len() && key(entries@[i as int]) == (kind@, tag@),
            None => forall|i: int| 0 <= i < entries@.len() ==> key(#[trigger] entries@[i]) != (kind@, tag@),
        },
{
    let mut i: usize = 0;
    while i < entries.len()
        invariant
            i <= entries@.len(),
            forall|j: int| 0 <= j < i ==> key(#[trigger] entries@[j]) != (kind@, tag@),
        decreases entries@.len() - i,
    {
        if entries[i].kind == *kind && entries[i].tag == *tag {
            return Some(i);
        }
        i += 1;
    }
    None
}

/// Every segment of `p` from `start` on has a tag.
spec fn tags_present(p: Seq<Segment>, start: int) -> bool {
    forall|k: int| start <= k < p.len() ==> #[trigger] p[k].1.len() > 0
}

/// A parsed path has a tag in every segment, and at least one segment.
proof fn lemma_parsed_tags(s: Seq<char>)
    requires
        parse_path(s) is Some,
    ensures
        tags_present(parse_path(s)->0, 0),
        parse_path(s)->0.len() > 0,
    decreases s.len(),
{
    let j = first_of(s, '/');
    if j + 1 < s.len() {
        lemma_parsed_tags(s.subrange(j + 1int, s.len() as int));
        let rest = parse_path(s.subrange(j + 1int, s.len() as int))->0;
        let p = parse_path(s)->0;
        assert forall|k: int| 0 <= k < p.len() implies #[trigger] p[k].1.len() > 0 by {
            if k > 0 {
                assert(p[k] == rest[k - 1]);
            }
        }
    }
}

/// A non-empty path is in `n` exactly when the rest of it is in the child
/// under its first segment, and not at all when no child has that key.
proof fn lemma_first_step(n: TagIndex, q: Seq<Segment>)
    requires
        wf(n),
        q.len() > 0,
    ensures
        forall|j: int| 0 <= j < n.entries@.len() && #[trigger] key(n.entries@[j]) == q[0]
            ==> holds(n, q) == holds(n.entries@[j].child, q.drop_first()),
        (forall|j: int| 0 <= j < n.entries@.len() ==> #[trigger] key(n.entries@[j]) != q[0]) ==> !holds(n, q),
{
    assert(q =~= seq![q[0]] + q.drop_first());
    assert forall|j: int| 0 <= j < n.entries@.len() && #[trigger] key(n.entries@[j]) == q[0]
        implies holds(n, q) == holds(n.entries@[j].child, q.drop_first()) by {
        lemma_child_paths(n, j, q.drop_first());
    }
    if forall|j: int| 0 <= j < n.entries@.len() ==> #[trigger] key(n.entries@[j]) != q[0] {
        lemma_no_child(n, q);
    }
}

/// Whether `t` starts with `p`.
pub open spec fn extends(t: Seq<Segment>, p: Seq<Segment>) -> bool {
    p.len() <= t.len() && t.subrange(0, p.len() as int) == p
}

/// The paths that do not start with `p`.
pub open spec fn without_subtree(paths: Set<Seq<Segment>>, p: Seq<Segment>) -> Set<Seq<Segment>> {
    Set::new(|t: Seq<Segment>| paths.contains(t) && !extends(t, p))
}

proof fn lemma_extends_step(q: Seq<Segment>, p: Seq<Segment>)
    requires
        q.len() > 0,
        p.len() > 0,
    ensures
        extends(q, p) == (q[0] == p[0] && extends(q.drop_first(), p.drop_first())),
{
    if extends(q, p) {
        assert(q.subrange(0, p.len() as int)[0] == q[0]);
        assert(q.drop_first().subrange(0, p.len() - 1) =~= p.drop_first()) by {
            assert forall|k: int| 0 <= k < p.len() - 1 implies q.drop_first().subrange(0, p.len() - 1)[k] == p.drop_first()[k] by {
                assert(q.subrange(0, p.len() as int)[k + 1] == p[k + 1]);
            }
        }
    }
    if q[0] == p[0] && extends(q.drop_first(), p.drop_first()) {
        assert(q.subrange(0, p.len() as int) =~= p) by {
            assert forall|k: int| 0 <= k < p.len() implies q.subrange(0, p.len() as int)[k] == p[k] by {
                if k > 0 {
                    assert(q.drop_first().subrange(0, p.len() - 1)[k - 1] == p.drop_first()[k - 1]);
                }
            }
        }
    }
}

/// A well-formed node is live exactly when it holds some path.
proof fn lemma_live_iff(n: TagIndex)
    requires
        wf(n),
    ensures
        live(n) <==> exists|q: Seq<Segment>| holds(n, q),
{
    if live(n) {
        lemma_live_holds(n);
    } else {
        assert forall|q: Seq<Segment>| !holds(n, q) by {
            if q.len() > 0 {
                lemma_no_child(n, q);
            }
        }
    }
}

/// Taking out child `i` leaves the paths under other first segments.
proof fn lemma_removed_entry(before: TagIndex, now: TagIndex, i: int, q: Seq<Segment>)
    requires
        wf(before),
        wf(now),
        0 <= i < before.entries@.len(),
        now.entries@ == before.entries@.remove(i),
        q.len() > 0,
        q[0] != key(before.entries@[i]),
    ensures
        holds(now, q) == holds(before, q),
{
    let b = before.entries@;
    let c = now.entries@;
    lemma_holds_in(b, q);
    lemma_holds_in(c, q);
    if holds(now, q) {
        let j = choose|j: int| 0 <= j < c.len() && #[trigger] holds_at(c, j, q);
        if j < i {
            assert(holds_at(b, j, q));
        } else {
            assert(c[j] == b[j + 1]);
            assert(holds_at(b, j + 1, q));
        }
    }
    if holds(before, q) {
        let j = choose|j: int| 0 <= j < b.len() && #[trigger] holds_at(b, j, q);
        assert(j != i);
        if j < i {
            assert(holds_at(c, j, q));
        } else {
            assert(c[j - 1] == b[j]);
            assert(holds_at(c, j - 1, q));
        }
    }
}

/// Replacing child `i` by one under the same key leaves the paths under
/// other first segments.
proof fn lemma_replaced_entry(before: TagIndex, now: TagIndex, i: int, q: Seq<Segment>)
    requires
        wf(before),
        wf(now),
        0 <= i < before.entries@.len(),
        now.entries@.len() == before.entries@.len(),
        forall|j: int| 0 <= j < before.entries@.len() && j != i ==> now.entries@[j] == before.entries@[j],
        key(now.entries@[i]) == key(before.entries@[i]),
        q.len() > 0,
        q[0] != key(before.entries@[i]),
    ensures
        holds(now, q) == holds(before, q),
{
    let b = before.entries@;
    let c = now.entries@;
    lemma_holds_in(b, q);
    lemma_holds_in(c, q);
    if holds(now, q) {
        let j = choose|j: int| 0 <= j < c.len() && #[trigger] holds_at(c, j, q);
        assert(holds_at(b, j, q));
    }
    if holds(before, q) {
        let j = choose|j: int| 0 <= j < b.len() && #[trigger] holds_at(b, j, q);
        assert(holds_at(c, j, q));
    }
}

/// The first segments of the paths.
pub open spec fn heads(paths: Set<Seq<Segment>>) -> Set<Segment> {
    Set::new(|s: Segment| exists|t: Seq<Segment>| #[trigger] paths.contains(t) && t.len() > 0 && t[0] == s)
}

/// The tags of the first segments.
pub open spec fn head_tags(paths: Set<Seq<Segment>>) -> Set<Seq<char>> {
    Set::new(|tag: Seq<char>| exists|kind: Seq<char>| #[trigger] heads(paths).contains((kind, tag)))
}

/// The types of the first segments, leaving out the empty type of bare tags.
pub open spec fn head_types(paths: Set<Seq<Segment>>) -> Set<Seq<char>> {
    Set::new(|kind: Seq<char>| kind.len() > 0 && exists|tag: Seq<char>| #[trigger] heads(paths).contains((kind, tag)))
}

/// Whether a segment has `name` as its tag, or as its type.
pub open spec fn names(s: Segment, by_tag: bool, name: Seq<char>) -> bool {
    if by_tag { s.1 == name } else { s.0 == name }
}

/// The texts of a sequence of strings.
pub open spec fn text_views(v: Seq<String>) -> Seq<Seq<char>> {
    v.map_values(|s: String| s@)
}

/// The first segments of a node's paths are the keys of its children.
proof fn lemma_heads(n: TagIndex)
    requires
        wf(n),
    ensures
        forall|s: Segment| #[trigger] heads(n@).contains(s)
            <==> exists|j: int| 0 <= j < n.entries@.len() && #[trigger] key(n.entries@[j]) == s,
{
    lemma_wf_in(n.entries@);
    assert forall|s: Segment| #[trigger] heads(n@).contains(s)
        <==> exists|j: int| 0 <= j < n.entries@.len() && #[trigger] key(n.entries@[j]) == s by {
        if heads(n@).contains(s) {
            let t = choose|t: Seq<Segment>| #[trigger] n@.contains(t) && t.len() > 0 && t[0] == s;
            lemma_first_step(n, t);
        }
        if exists|j: int| 0 <= j < n.entries@.len() && #[trigger] key(n.entries@[j]) == s {
            let j = choose|j: int| 0 <= j < n.entries@.len() && #[trigger] key(n.entries@[j]) == s;
            assert(entry_ok(n.entries@[j]));
            lemma_live_holds(n.entries@[j].child);
            let q = choose|q: Seq<Segment>| holds(n.entries@[j].child, q);
            lemma_child_paths(n, j, q);
            let t = seq![s] + q;
            assert(n@.contains(t));
        }
    }
}

/// Whether `s` is one of the texts of `v`.
fn contains_text(v: &Vec<String>, s: &String) -> (found: bool)
    ensures
        found == text_views(v@).contains(s@),
{
    let mut i: usize = 0;
    while i < v.len()
        invariant
            i <= v@.len(),
            forall|j: int| 0 <= j < i ==> v@[j]@ != s@,
        decreases v@.len() - i,
    {
        if v[i] == *s {
            proof {
                assert(text_views(v@)[i as int] == s@);
            }
            return true;
        }
        i += 1;
    }
    proof {
        if text_views(v@).contains(s@) {
            let j = choose|j: int| 0 <= j < text_views(v@).len() && text_views(v@)[j] == s@;
            assert(v@[j]@ == s@);
        }
    }
    false
}

/// The tags (or the non-empty types) of the first segments, keeping only
/// those whose type (or tag) is `filter` when there is one.
pub open spec fn gathered(paths: Set<Seq<Segment>>, by_tag: bool, filter: Option<Seq<char>>) -> Set<Seq<char>> {
    Set::new(|x: Seq<char>| exists|s: Segment| #[trigger] heads(paths).contains(s) && names(s, by_tag, x)
        && (by_tag || x.len() > 0)
        && match filter {
            Some(f) => names(s, !by_tag, f),
            None => true,
        })
}

spec fn selected(e: TagEntry, by_tag: bool, filter: Option<String>) -> bool {
    &&& (by_tag || e.kind@.len() > 0)
    &&& match filter {
        Some(f) => names(key(e), !by_tag, f@),
        None => true,
    }
}

spec fn field(e: TagEntry, by_tag: bool) -> Seq<char> {
    if by_tag { e.tag@ } else { e.kind@ }
}

/// Whether some segment of some path has `name` as its tag (or type).
pub open spec fn deep_names(paths: Set<Seq<Segment>>, by_tag: bool, name: Seq<char>) -> bool {
    exists|t: Seq<Segment>, i: int| #![trigger paths.contains(t), t[i]]
        paths.contains(t) && 0 <= i < t.len() && names(t[i], by_tag, name)
}

/// Every path of a node once: its own end first, then the paths under
/// each child in turn.
spec fn listing(n: TagIndex) -> Seq<Seq<Segment>>
    decreases n,
{
    (if n.terminal { seq![Seq::<Segment>::empty()] } else { Seq::empty() }) + listing_in(n.entries@)
}

spec fn listing_in(es: Seq<TagEntry>) -> Seq<Seq<Segment>>
    decreases es,
{
    if es.len() == 0 {
        Seq::empty()
    } else {
        listing_in(es.drop_last()) + prefixed(key(es.last()), listing(es.last().child))
    }
}

/// Each path of `qs` behind the segment `k`.
spec fn prefixed(k: Segment, qs: Seq<Seq<Segment>>) -> Seq<Seq<Segment>> {
    qs.map_values(|q: Seq<Segment>| seq![k] + q)
}

/// Two sequences without repeats and without a common element make one.
proof fn lemma_concat_no_duplicates<A>(a: Seq<A>, b: Seq<A>)
    requires
        a.no_duplicates(),
        b.no_duplicates(),
        forall|x: A| a.contains(x) ==> !b.contains(x),
    ensures
        (a + b).no_duplicates(),
{
    let c = a + b;
    assert forall|i: int, j: int| 0 <= i < c.len() && 0 <= j < c.len() && i != j implies c[i] != c[j] by {
        if i < a.len() && j >= a.len() {
            assert(a.contains(c[i]));
            assert(b.contains(c[j]));
        } else if j < a.len() && i >= a.len() {
            assert(a.contains(c[j]));
            assert(b.contains(c[i]));
        } else if i >= a.len() && j >= a.len() {
            assert(c[i] == b[i - a.len()] && c[j] == b[j - a.len()]);
        }
    }
}

proof fn lemma_listing(n: TagIndex)
    requires
        wf(n),
    ensures
        forall|q: Seq<Segment>| #[trigger] listing(n).contains(q) <==> holds(n, q),
        listing(n).no_duplicates(),
    decreases n,
{
    let head = if n.terminal { seq![Seq::<Segment>::empty()] } else { Seq::<Seq<Segment>>::empty() };
    let rest = listing_in(n.entries@);
    lemma_listing_in(n.entries@);
    assert(listing(n) == head + rest);
    assert forall|q: Seq<Segment>| #[trigger] listing(n).contains(q) <==> holds(n, q) by {
        if q.len() > 0 {
            lemma_holds_in(n.entries@, q);
            if listing(n).contains(q) {
                let k = choose|k: int| 0 <= k < listing(n).len() && listing(n)[k] == q;
                if k >= head.len() {
                    assert(rest.contains(q)) by {
                        assert(rest[k - head.len()] == q);
                    }
                }
            }
            if holds(n, q) {
                assert(rest.contains(q));
                let k = choose|k: int| 0 <= k < rest.len() && rest[k] == q;
                assert(listing(n)[k + head.len()] == q);
            }
        } else {
            if n.terminal {
                assert(listing(n)[0] == q);
            } else {
                assert(listing(n) == rest);
                assert(!rest.contains(q));
            }
        }
    }
    assert forall|x: Seq<Segment>| head.contains(x) implies !rest.contains(x) by {}
    lemma_concat_no_duplicates(head, rest);
}

proof fn lemma_listing_in(es: Seq<TagEntry>)
    requires
        wf_in(es),
        distinct_keys(es),
    ensures
        forall|q: Seq<Segment>| #[trigger] listing_in(es).contains(q)
            <==> (q.len() > 0 && exists|j: int| 0 <= j < es.len() && #[trigger] holds_at(es, j, q)),
        listing_in(es).no_duplicates(),
    decreases es,
{
    if es.len() > 0 {
        let r = es.drop_last();
        let e = es.last();
        lemma_wf_in(es);
        assert forall|k: int| 0 <= k < r.len() implies #[trigger] entry_ok(r[k]) by {
            assert(r[k] == es[k]);
        }
        lemma_wf_in(r);
        assert(entry_ok(es[es.len() - 1]));
        lemma_listing_in(r);
        lemma_listing(e.child);
        let a = listing_in(r);
        let lc = listing(e.child);
        let b = prefixed(key(e), lc);
        assert(listing_in(es) == a + b);
        // Membership in the part under the last child.
        assert forall|q: Seq<Segment>| #[trigger] b.contains(q) <==> (q.len() > 0 && holds_at(es, es.len() - 1, q)) by {
            if b.contains(q) {
                let k = choose|k: int| 0 <= k < b.len() && b[k] == q;
                assert(q == seq![key(e)] + lc[k]);
                assert(q.drop_first() =~= lc[k]);
                assert(lc.contains(lc[k]));
            }
            if q.len() > 0 && holds_at(es, es.len() - 1, q) {
                assert(lc.contains(q.drop_first()));
                let k = choose|k: int| 0 <= k < lc.len() && lc[k] == q.drop_first();
                assert(b[k] =~= q);
            }
        }
        assert forall|q: Seq<Segment>| #[trigger] listing_in(es).contains(q)
            <==> (q.len() > 0 && exists|j: int| 0 <= j < es.len() && #[trigger] holds_at(es, j, q)) by {
            if listing_in(es).contains(q) {
                let k = choose|k: int| 0 <= k < (a + b).len() && (a + b)[k] == q;
                if k < a.len() {
                    assert(a.contains(q));
                    let j = choose|j: int| 0 <= j < r.len() && #[trigger] holds_at(r, j, q);
                    assert(holds_at(es, j, q));
                } else {
                    assert(b.contains(q)) by {
                        assert(b[k - a.len()] == q);
                    }
                    assert(holds_at(es, es.len() - 1, q));
                }
            }
            if q.len() > 0 && exists|j: int| 0 <= j < es.len() && #[trigger] holds_at(es, j, q) {
                let j = choose|j: int| 0 <= j < es.len() && #[trigger] holds_at(es, j, q);
                if j < es.len() - 1 {
                    assert(holds_at(r, j, q));
                    assert(a.contains(q));
                    let k = choose|k: int| 0 <= k < a.len() && a[k] == q;
                    assert((a + b)[k] == q);
                } else {
                    assert(b.contains(q));
                    let k = choose|k: int| 0 <= k < b.len() && b[k] == q;
                    assert((a + b)[k + a.len()] == q);
                }
            }
        }
        // No repeats.
        assert(b.no_duplicates()) by {
            assert forall|i: int, j: int| 0 <= i < b.len() && 0 <= j < b.len() && i != j implies b[i] != b[j] by {
                assert(b[i].drop_first() =~= lc[i]);
                assert(b[j].drop_first() =~= lc[j]);
            }
        }
        assert forall|x: Seq<Segment>| a.contains(x) implies !b.contains(x) by {
            let j = choose|j: int| 0 <= j < r.len() && #[trigger] holds_at(r, j, x);
            assert(key(es[j]) != key(es[es.len() - 1]));
        }
        lemma_concat_no_duplicates(a, b);
    }
}

/// A segment as text: `type:tag`, or the bare tag.
pub open spec fn render_segment(s: Segment) -> Seq<char> {
    if s.0.len() == 0 { s.1 } else { s.0 + seq![':'] + s.1 }
}

/// `prefix/segment`, or the segment alone under an empty prefix.
pub open spec fn join(prefix: Seq<char>, segment: Seq<char>) -> Seq<char> {
    if prefix.len() == 0 { segment } else { prefix + seq!['/'] + segment }
}

/// The text of the path `q` written below `prefix`.
pub open spec fn render_under(prefix: Seq<char>, q: Seq<Segment>) -> Seq<char>
    decreases q.len(),
{
    if q.len() == 0 {
        prefix
    } else {
        render_under(join(prefix, render_segment(q[0])), q.drop_first())
    }
}

/// The texts of the paths `qs` written below `prefix`.
pub open spec fn rendered(prefix: Seq<char>, qs: Seq<Seq<Segment>>) -> Seq<Seq<char>> {
    qs.map_values(|q: Seq<Segment>| render_under(prefix, q))
}

/// `s` without its trailing `/` characters.
pub open spec fn trim_slashes(s: Seq<char>) -> Seq<char>
    decreases s.len(),
{
    if s.len() > 0 && s.last() == '/' { trim_slashes(s.drop_last()) } else { s }
}

/// The count of a set, or `usize::MAX` when it does not fit.
pub open spec fn saturated(n: nat) -> usize {
    if n <= usize::MAX { n as usize } else { usize::MAX }
}

/// `path` without its trailing `/` characters.
fn trimmed(path: &str) -> (text: String)
    ensures
        text@ == trim_slashes(path@),
{
    let cs = chars_of(path);
    let mut end = cs.len();
    proof {
        assert(cs@.subrange(0, cs@.len() as int) =~= cs@);
    }
    while end > 0 && cs[end - 1] == '/'
        invariant
            end <= cs@.len(),
            trim_slashes(cs@) == trim_slashes(cs@.subrange(0, end as int)),
        decreases end,
    {
        proof {
            let u = cs@.subrange(0, end as int);
            assert(u.drop_last() =~= cs@.subrange(0, end - 1));
        }
        end -= 1;
    }
    let mut text = String::new();
    push_range(&mut text, &cs, 0, end);
    proof {
        assert(text@ =~= cs@.subrange(0, end as int));
    }
    text
}

/// Every segment of an added path is a node: each prefix of a path in the
/// index has a node.
pub proof fn lemma_prefix_nodes(paths: Set<Seq<Segment>>, p: Seq<Segment>, k: int)
    requires
        paths.contains(p),
        0 <= k <= p.len(),
    ensures
        has_node(paths, p.subrange(0, k)),
{
    assert(p.subrange(0, k) + p.subrange(k, p.len() as int) =~= p);
}

/// Removing a path removes its whole subtree: after it, no node stands at
/// the path or below it.
pub proof fn lemma_subtree_gone(paths: Set<Seq<Segment>>, p: Seq<Segment>, q: Seq<Segment>)
    requires
        extends(q, p),
    ensures
        !has_node(without_subtree(paths, p), q),
{
    assert forall|t: Seq<Segment>| !#[trigger] without_subtree(paths, p).contains(q + t) by {
        let x = q + t;
        assert(x.subrange(0, p.len() as int) =~= q.subrange(0, p.len() as int));
    }
}

impl TagIndex {
    /// Creates an empty tag-path index.
    pub fn new() -> (index: Self)
        ensures
            index@ == Set::<Seq<Segment>>::empty(),
    {
        let index = TagIndex { entries: Vec::new(), terminal: false };
        proof {
            assert(index@ =~= Set::<Seq<Segment>>::empty());
        }
        index
    }

    /// Whether exactly the path `segments[start..]` ends here.
    fn exact(&self, segments: &Vec<(String, String)>, start: usize) -> (found: bool)
        requires
            start <= segments@.len(),
        ensures
            found == holds(*self, segment_views(segments@).subrange(start as int, segments@.len() as int)),
        decreases segments@.len() - start,
    {
        proof {
            use_type_invariant(self);
        }
        let ghost views = segment_views(segments@);
        let ghost p = views.subrange(start as int, segments@.len() as int);
        if start == segments.len() {
            proof {
                assert(p.len() == 0);
            }
            return self.terminal;
        }
        let ghost rest = views.subrange(start + 1, segments@.len() as int);
        proof {
            assert(p =~= seq![p[0]] + rest);
        }
        match find_in(&self.entries, &segments[start].0, &segments[start].1) {
            None => {
                proof {
                    lemma_no_child(*self, p);
                }
                false
            },
            Some(i) => {
                let found = self.entries[i].child.exact(segments, start + 1);
                proof {
                    lemma_child_paths(*self, i as int, rest);
                }
                found
            },
        }
    }

    /// The node at the path `segments[start..]`, if there is one.
    fn reach(&self, segments: &Vec<(String, String)>, start: usize) -> (node: Option<&TagIndex>)
        requires
            start <= segments@.len(),
        ensures
            ({
                let p = segment_views(segments@).subrange(start as int, segments@.len() as int);
                match node {
                    Some(n) => (forall|t: Seq<Segment>| holds(*n, t) == #[trigger] holds(*self, p + t))
                        && (start < segments@.len() ==> live(*n)),
                    None => forall|t: Seq<Segment>| !#[trigger] holds(*self, p + t),
                }
            }),
            start == segments@.len() ==> node == Some(self),
        decreases segments@.len() - start,
    {
        proof {
            use_type_invariant(self);
        }
        let ghost views = segment_views(segments@);
        let ghost p = views.subrange(start as int, segments@.len() as int);
        if start == segments.len() {
            proof {
                assert forall|t: Seq<Segment>| holds(*self, t) == #[trigger] holds(*self, p + t) by {
                    assert(p + t =~= t);
                }
            }
            return Some(self);
        }
        let ghost rest = views.subrange(start + 1, segments@.len() as int);
        proof {
            assert(p =~= seq![p[0]] + rest);
        }
        match find_in(&self.entries, &segments[start].0, &segments[start].1) {
            None => {
                proof {
                    assert forall|t: Seq<Segment>| !#[trigger] holds(*self, p + t) by {
                        assert((p + t)[0] == p[0]);
                        lemma_no_child(*self, p + t);
                    }
                }
                None
            },
            Some(i) => {
                let child = &self.entries[i].child;
                proof {
                    lemma_wf_in(self.entries@);
                    assert(entry_ok(self.entries@[i as int]));
                    assert forall|t: Seq<Segment>| #[trigger] holds(*self, p + t) == holds(*child, rest + t) by {
                        assert(p + t =~= seq![p[0]] + (rest + t));
                        lemma_child_paths(*self, i as int, rest + t);
                    }
                }
                let found = child.reach(segments, start + 1);
                proof {
                    if start + 1 == segments.len() {
                        assert(rest.len() == 0);
                    }
                }
                found
            },
        }
    }

    /// True when exactly this path was added.
    pub fn has_exact(&self, path: &str) -> (found: bool)
        ensures
            found == (parse_path(path@) matches Some(p) && self@.contains(p)),
    {
        match parse(path) {
            None => false,
            Some(segments) => {
                let found = self.exact(&segments, 0);
                proof {
                    assert(segment_views(segments@).subrange(0, segments@.len() as int) =~= segment_views(segments@));
                }
                found
            },
        }
    }

    /// The node at `path`, as an index of its own: the paths that continue
    /// `path`, without it.
    pub fn sub_index(&self, path: &str) -> (node: Option<&TagIndex>)
        ensures
            match node {
                Some(n) => parse_path(path@) matches Some(p) && has_node(self@, p) && n@ == below(self@, p),
                None => !(parse_path(path@) matches Some(p) && has_node(self@, p)),
            },
    {
        match parse(path) {
            None => None,
            Some(segments) => {
                let ghost p = segment_views(segments@);
                proof {
                    assert(p.subrange(0, segments@.len() as int) =~= p);
                }
                let node = self.reach(&segments, 0);
                proof {
                    match node {
                        Some(n) => {
                            use_type_invariant(n);
                            assert(p.len() > 0);
                            lemma_live_holds(*n);
                            let q = choose|q: Seq<Segment>| holds(*n, q);
                            assert(self@.contains(p + q));
                            assert(n@ =~= below(self@, p));
                        },
                        None => {
                            assert forall|t: Seq<Segment>| !#[trigger] self@.contains(p + t) by {
                                assert(!holds(*self, p + t));
                            }
                        },
                    }
                }
                node
            },
        }
    }

    /// True when a node exists at `path`, whether or not a path ended
    /// there.
    pub fn has(&self, path: &str) -> (found: bool)
        ensures
            found == (parse_path(path@) matches Some(p) && has_node(self@, p)),
    {
        self.sub_index(path).is_some()
    }

    /// Whether the index holds no path below its own node.
    pub fn is_empty(&self) -> (empty: bool)
        ensures
            empty == (forall|p: Seq<Segment>| #[trigger] self@.contains(p) ==> p.len() == 0),
    {
        proof {
            use_type_invariant(self);
            if self.entries@.len() > 0 {
                lemma_wf_in(self.entries@);
                assert(entry_ok(self.entries@[0]));
                lemma_live_holds(self.entries@[0].child);
                let q = choose|q: Seq<Segment>| holds(self.entries@[0].child, q);
                lemma_child_paths(*self, 0, q);
                assert(self@.contains(seq![key(self.entries@[0])] + q));
            } else {
                assert forall|p: Seq<Segment>| #[trigger] self@.contains(p) implies p.len() == 0 by {
                    if p.len() > 0 {
                        lemma_no_child(*self, p);
                    }
                }
            }
        }
        self.entries.len() == 0
    }

    /// Removes every path.
    pub fn clear(&mut self)
        ensures
            final(self)@ == Set::<Seq<Segment>>::empty(),
    {
        *self = TagIndex::new();
    }
}

impl TagIndex {
    /// A node holding exactly the path `segments[start..]`.
    fn chain(segments: &Vec<(String, String)>, start: usize) -> (node: TagIndex)
        requires
            start <= segments@.len(),
            tags_present(segment_views(segments@), start as int),
        ensures
            node@ == Set::<Seq<Segment>>::empty().insert(segment_views(segments@).subrange(start as int, segments@.len() as int)),
            live(node),
        decreases segments@.len() - start,
    {
        let ghost views = segment_views(segments@);
        let ghost p = views.subrange(start as int, segments@.len() as int);
        if start == segments.len() {
            let node = TagIndex { entries: Vec::new(), terminal: true };
            proof {
                assert forall|q: Seq<Segment>| #[trigger] holds(node, q) == (q == p) by {
                    if q.len() > 0 {
                        lemma_no_child(node, q);
                    }
                }
                assert(node@ =~= Set::<Seq<Segment>>::empty().insert(p));
            }
            return node;
        }
        let child = TagIndex::chain(segments, start + 1);
        let ghost rest = views.subrange(start + 1, segments@.len() as int);
        proof {
            use_type_invariant(&child);
            assert(views[start as int].1.len() > 0);
        }
        let entry = TagEntry { kind: segments[start].0.clone(), tag: segments[start].1.clone(), child };
        let mut entries: Vec<TagEntry> = Vec::new();
        entries.push(entry);
        proof {
            assert(entry_ok(entries@[0]));
            lemma_wf_in(entries@);
        }
        let node = TagIndex { entries, terminal: false };
        proof {
            assert(key(node.entries@[0]) == p[0]);
            assert(p =~= seq![p[0]] + rest);
            assert(p.drop_first() =~= rest);
            assert forall|q: Seq<Segment>| #[trigger] holds(node, q) == (q == p) by {
                if q.len() > 0 {
                    lemma_first_step(node, q);
                    assert(q =~= seq![q[0]] + q.drop_first());
                    if q[0] != p[0] {
                        assert(key(node.entries@[0]) != q[0]);
                        assert(!holds(node, q));
                    }
                    if q[0] == p[0] {
                        let c = node.entries@[0].child;
                        assert(c@.contains(q.drop_first()) == holds(c, q.drop_first()));
                        assert(holds(node, q) == (q.drop_first() == rest));
                        if q.drop_first() == rest {
                            assert(q =~= seq![q[0]] + q.drop_first());
                        }
                    }
                }
            }
            assert(node@ =~= Set::<Seq<Segment>>::empty().insert(p));
        }
        node
    }

    /// Adds the path `segments[start..]`; returns whether it was new.
    fn add_segments(&mut self, segments: &Vec<(String, String)>, start: usize) -> (added: bool)
        requires
            start <= segments@.len(),
            tags_present(segment_views(segments@), start as int),
        ensures
            ({
                let p = segment_views(segments@).subrange(start as int, segments@.len() as int);
                &&& added == !old(self)@.contains(p)
                &&& final(self)@ == old(self)@.insert(p)
            }),
            live(*final(self)),
        decreases segments@.len() - start,
    {
        proof {
            use_type_invariant(&*self);
        }
        let ghost views = segment_views(segments@);
        let ghost p = views.subrange(start as int, segments@.len() as int);
        let ghost before = *self;
        if start == segments.len() {
            let added = !self.terminal;
            self.terminal = true;
            proof {
                assert forall|q: Seq<Segment>| #[trigger] holds(*self, q) == (holds(before, q) || q == p) by {
                    if q.len() > 0 {
                        assert(holds(*self, q) == holds_in(self.entries@, q));
                    } else {
                        assert(q =~= p);
                    }
                }
                assert(self@ =~= before@.insert(p));
            }
            return added;
        }
        let ghost rest = views.subrange(start + 1, segments@.len() as int);
        proof {
            assert(p =~= seq![p[0]] + rest);
            assert(p.drop_first() =~= rest);
            assert(views[start as int].1.len() > 0);
            lemma_wf_in(before.entries@);
        }
        let mut entries: Vec<TagEntry> = Vec::new();
        std::mem::swap(&mut entries, &mut self.entries);
        let ghost old_entries = entries@;
        match find_in(&entries, &segments[start].0, &segments[start].1) {
            Some(i) => {
                let mut entry = entries.remove(i);
                let ghost old_child = entry.child;
                proof {
                    assert(entry == old_entries[i as int]);
                    assert(entry_ok(entry));
                }
                let added = entry.child.add_segments(segments, start + 1);
                proof {
                    use_type_invariant(&entry.child);
                    assert(entry_ok(entry));
                }
                entries.insert(i, entry);
                proof {
                    assert(entries@ =~= old_entries.update(i as int, entry));
                    assert forall|k: int| 0 <= k < entries@.len() implies #[trigger] entry_ok(entries@[k]) by {
                        if k != i {
                            assert(entries@[k] == old_entries[k]);
                        }
                    }
                    lemma_wf_in(entries@);
                    assert(distinct_keys(entries@)) by {
                        assert forall|a: int, b: int| 0 <= a < entries@.len() && 0 <= b < entries@.len() && a != b
                            implies key(entries@[a]) != key(entries@[b]) by {
                            assert(key(entries@[a]) == key(old_entries[a]));
                            assert(key(entries@[b]) == key(old_entries[b]));
                        }
                    }
                }
                self.entries = entries;
                proof {
                    let now = *self;
                    assert(now.entries@ == entries@);
                    assert(before.entries@ == old_entries);
                    assert(before.entries@[i as int].child == old_child);
                    assert forall|j: int| 0 <= j < now.entries@.len() implies #[trigger] key(now.entries@[j]) == key(before.entries@[j]) by {}
                    assert forall|q: Seq<Segment>| #[trigger] holds(now, q) == (holds(before, q) || q == p) by {
                        if q.len() > 0 {
                            lemma_first_step(now, q);
                            lemma_first_step(before, q);
                            assert(q =~= seq![q[0]] + q.drop_first());
                            if q[0] == p[0] {
                                assert(key(now.entries@[i as int]) == q[0]);
                                assert(key(before.entries@[i as int]) == q[0]);
                                let c = now.entries@[i as int].child;
                                assert(c@.contains(q.drop_first()) == holds(c, q.drop_first()));
                                assert(old_child@.contains(q.drop_first()) == holds(old_child, q.drop_first()));
                                assert(holds(c, q.drop_first())
                                    == (holds(old_child, q.drop_first()) || q.drop_first() == rest));
                                if q.drop_first() == rest {
                                    assert(q =~= seq![q[0]] + q.drop_first());
                                }
                            } else {
                                assert forall|j: int| 0 <= j < now.entries@.len() && #[trigger] key(now.entries@[j]) == q[0]
                                    implies now.entries@[j] == before.entries@[j] by {}
                                if exists|j: int| 0 <= j < now.entries@.len() && #[trigger] key(now.entries@[j]) == q[0] {
                                    let j = choose|j: int| 0 <= j < now.entries@.len() && #[trigger] key(now.entries@[j]) == q[0];
                                    assert(key(before.entries@[j]) == q[0]);
                                } else {
                                    assert forall|j: int| 0 <= j < before.entries@.len() implies #[trigger] key(before.entries@[j]) != q[0] by {
                                        assert(key(now.entries@[j]) == key(before.entries@[j]));
                                    }
                                }
                            }
                        }
                    }
                    assert(self@ =~= before@.insert(p));
                    lemma_first_step(before, p);
                    assert(key(before.entries@[i as int]) == p[0]);
                    assert(before@.contains(p) == holds(before, p));
                    assert(old_child@.contains(rest) == holds(old_child, rest));
                }
                added
            },
            None => {
                let child = TagIndex::chain(segments, start + 1);
                proof {
                    use_type_invariant(&child);
                }
                let entry = TagEntry { kind: segments[start].0.clone(), tag: segments[start].1.clone(), child };
                entries.push(entry);
                proof {
                    assert(entries@ =~= old_entries.push(entry));
                    assert(entry_ok(entry));
                    assert forall|k: int| 0 <= k < entries@.len() implies #[trigger] entry_ok(entries@[k]) by {
                        if k < old_entries.len() {
                            assert(entries@[k] == old_entries[k]);
                        }
                    }
                    lemma_wf_in(entries@);
                    assert(distinct_keys(entries@)) by {
                        assert forall|a: int, b: int| 0 <= a < entries@.len() && 0 <= b < entries@.len() && a != b
                            implies key(entries@[a]) != key(entries@[b]) by {
                            if a < old_entries.len() && b < old_entries.len() {
                                assert(entries@[a] == old_entries[a]);
                                assert(entries@[b] == old_entries[b]);
                            } else if a < old_entries.len() {
                                assert(entries@[a] == old_entries[a]);
                            } else {
                                assert(entries@[b] == old_entries[b]);
                            }
                        }
                    }
                }
                self.entries = entries;
                proof {
                    let now = *self;
                    let last = old_entries.len() as int;
                    assert(before.entries@ == old_entries);
                    assert(key(now.entries@[last]) == p[0]);
                    assert(!before@.contains(p)) by {
                        lemma_first_step(before, p);
                    }
                    assert forall|q: Seq<Segment>| #[trigger] holds(now, q) == (holds(before, q) || q == p) by {
                        if q.len() > 0 {
                            lemma_first_step(now, q);
                            lemma_first_step(before, q);
                            assert(q =~= seq![q[0]] + q.drop_first());
                            if q[0] == p[0] {
                                let c = now.entries@[last].child;
                                assert(c@.contains(q.drop_first()) == holds(c, q.drop_first()));
                                assert(holds(now, q) == (q.drop_first() == rest));
                                if q.drop_first() == rest {
                                    assert(q =~= seq![q[0]] + q.drop_first());
                                }
                            } else {
                                if exists|j: int| 0 <= j < now.entries@.len() && #[trigger] key(now.entries@[j]) == q[0] {
                                    let j = choose|j: int| 0 <= j < now.entries@.len() && #[trigger] key(now.entries@[j]) == q[0];
                                    assert(j < last);
                                    assert(now.entries@[j] == before.entries@[j]);
                                }
                                if exists|j: int| 0 <= j < before.entries@.len() && #[trigger] key(before.entries@[j]) == q[0] {
                                    let j = choose|j: int| 0 <= j < before.entries@.len() && #[trigger] key(before.entries@[j]) == q[0];
                                    assert(now.entries@[j] == before.entries@[j]);
                                }
                            }
                        }
                    }
                    assert(self@ =~= before@.insert(p));
                }
                true
            },
        }
    }

    /// Adds a path. Returns whether it was new. A path with an empty tag in
    /// any segment is rejected and changes nothing.
    pub fn add(&mut self, path: &str) -> (added: bool)
        ensures
            match parse_path(path@) {
                Some(p) => added == !old(self)@.contains(p) && final(self)@ == old(self)@.insert(p),
                None => !added && final(self)@ == old(self)@,
            },
    {
        match parse(path) {
            None => false,
            Some(segments) => {
                proof {
                    lemma_parsed_tags(path@);
                    assert(segment_views(segments@).subrange(0, segments@.len() as int) =~= segment_views(segments@));
                }
                self.add_segments(&segments, 0)
            },
        }
    }
}

impl TagIndex {
    /// Removes the node at `segments[start..]` with everything below it;
    /// returns whether there was one.
    fn remove_segments(&mut self, segments: &Vec<(String, String)>, start: usize) -> (removed: bool)
        requires
            start < segments@.len(),
        ensures
            ({
                let p = segment_views(segments@).subrange(start as int, segments@.len() as int);
                &&& removed == has_node(old(self)@, p)
                &&& final(self)@ == without_subtree(old(self)@, p)
                &&& !removed ==> final(self)@ == old(self)@
            }),
        decreases segments@.len() - start,
    {
        proof {
            use_type_invariant(&*self);
        }
        let ghost views = segment_views(segments@);
        let ghost p = views.subrange(start as int, segments@.len() as int);
        let ghost rest = views.subrange(start + 1, segments@.len() as int);
        let ghost before = *self;
        proof {
            assert(p =~= seq![p[0]] + rest);
            assert(p.drop_first() =~= rest);
            lemma_wf_in(before.entries@);
        }
        let mut entries: Vec<TagEntry> = Vec::new();
        std::mem::swap(&mut entries, &mut self.entries);
        let ghost old_entries = entries@;
        proof {
            assert(before.entries@ == old_entries);
        }
        match find_in(&entries, &segments[start].0, &segments[start].1) {
            None => {
                self.entries = entries;
                proof {
                    let now = *self;
                    assert forall|q: Seq<Segment>| #[trigger] holds(now, q) == holds(before, q) by {
                        if q.len() > 0 {
                            assert(holds(now, q) == holds_in(now.entries@, q));
                        }
                    }
                    assert forall|t: Seq<Segment>| !#[trigger] before@.contains(p + t) by {
                        assert((p + t)[0] == p[0]);
                        lemma_first_step(before, p + t);
                    }
                    assert forall|q: Seq<Segment>| #[trigger] before@.contains(q) implies !extends(q, p) by {
                        if extends(q, p) {
                            assert(q =~= p + q.subrange(p.len() as int, q.len() as int));
                            assert(before@.contains(p + q.subrange(p.len() as int, q.len() as int)));
                        }
                    }
                    assert(self@ =~= before@);
                    assert(self@ =~= without_subtree(before@, p));
                }
                false
            },
            Some(i) => {
                let ghost key_i = key(old_entries[i as int]);
                let ghost old_child = old_entries[i as int].child;
                proof {
                    assert(key_i == p[0]);
                    assert(entry_ok(old_entries[i as int]));
                    // A node stands at `p` exactly when one stands at `rest` in the child.
                    assert forall|t: Seq<Segment>| #[trigger] before@.contains(p + t) == old_child@.contains(rest + t) by {
                        assert(p + t =~= seq![key_i] + (rest + t));
                        lemma_child_paths(before, i as int, rest + t);
                    }
                    // The paths that extend `p` are those under the child that extend `rest`.
                    assert forall|q: Seq<Segment>| #[trigger] holds(before, q) && q.len() > 0 && q[0] == key_i
                        implies holds(old_child, q.drop_first()) && (extends(q, p) == extends(q.drop_first(), rest)) by {
                        lemma_first_step(before, q);
                        lemma_extends_step(q, p);
                    }
                }
                if segments.len() - start == 1 {
                    entries.remove(i);
                    proof {
                        assert(entries@ =~= old_entries.remove(i as int));
                        assert forall|k: int| 0 <= k < entries@.len() implies #[trigger] entry_ok(entries@[k]) by {
                            if k < i {
                                assert(entries@[k] == old_entries[k]);
                            } else {
                                assert(entries@[k] == old_entries[k + 1]);
                            }
                        }
                        lemma_wf_in(entries@);
                        assert(distinct_keys(entries@)) by {
                            assert forall|a: int, b: int| 0 <= a < entries@.len() && 0 <= b < entries@.len() && a != b
                                implies key(entries@[a]) != key(entries@[b]) by {
                                let a2 = if a < i { a } else { a + 1 };
                                let b2 = if b < i { b } else { b + 1 };
                                assert(entries@[a] == old_entries[a2]);
                                assert(entries@[b] == old_entries[b2]);
                            }
                        }
                    }
                    self.entries = entries;
                    proof {
                        let now = *self;
                        assert(rest.len() == 0);
                        lemma_live_holds(old_child);
                        let q0 = choose|q: Seq<Segment>| holds(old_child, q);
                        assert(rest + q0 =~= q0);
                        assert(old_child@.contains(rest + q0));
                        assert(before@.contains(p + q0));
                        assert forall|q: Seq<Segment>| #[trigger] holds(now, q) == (holds(before, q) && !extends(q, p)) by {
                            if q.len() == 0 {
                                assert(holds(now, q) == now.terminal);
                            } else if q[0] == key_i {
                                lemma_extends_step(q, p);
                                assert(extends(q.drop_first(), rest)) by {
                                    assert(q.drop_first().subrange(0, 0) =~= rest);
                                }
                                assert forall|j: int| 0 <= j < now.entries@.len() implies #[trigger] key(now.entries@[j]) != q[0] by {
                                    let j2 = if j < i { j } else { j + 1 };
                                    assert(now.entries@[j] == old_entries[j2]);
                                }
                                lemma_first_step(now, q);
                            } else {
                                lemma_removed_entry(before, now, i as int, q);
                                lemma_extends_step(q, p);
                            }
                        }
                        assert(self@ =~= without_subtree(before@, p));
                    }
                    return true;
                }
                let mut entry = entries.remove(i);
                proof {
                    assert(entry == old_entries[i as int]);
                }
                let removed = entry.child.remove_segments(segments, start + 1);
                proof {
                    use_type_invariant(&entry.child);
                }
                let ghost new_child = entry.child;
                if !removed {
                    entries.insert(i, entry);
                    proof {
                        assert(entries@ =~= old_entries.update(i as int, entry));
                        lemma_live_iff(old_child);
                        lemma_live_iff(new_child);
                        let q0 = choose|q: Seq<Segment>| holds(old_child, q);
                        assert(old_child@.contains(q0));
                        assert(entry_ok(entry));
                        assert forall|k: int| 0 <= k < entries@.len() implies #[trigger] entry_ok(entries@[k]) by {
                            if k != i {
                                assert(entries@[k] == old_entries[k]);
                            }
                        }
                        lemma_wf_in(entries@);
                        assert(distinct_keys(entries@)) by {
                            assert forall|a: int, b: int| 0 <= a < entries@.len() && 0 <= b < entries@.len() && a != b
                                implies key(entries@[a]) != key(entries@[b]) by {
                                assert(key(entries@[a]) == key(old_entries[a]));
                                assert(key(entries@[b]) == key(old_entries[b]));
                            }
                        }
                    }
                    self.entries = entries;
                    proof {
                        let now = *self;
                        assert forall|q: Seq<Segment>| #[trigger] holds(now, q) == holds(before, q) by {
                            if q.len() > 0 {
                                if q[0] == key_i {
                                    lemma_first_step(now, q);
                                    lemma_first_step(before, q);
                                    assert(key(now.entries@[i as int]) == key_i);
                                    assert(new_child@.contains(q.drop_first()) == old_child@.contains(q.drop_first()));
                                } else {
                                    lemma_replaced_entry(before, now, i as int, q);
                                }
                            }
                        }
                        assert(self@ =~= before@);
                        assert forall|t: Seq<Segment>| !#[trigger] before@.contains(p + t) by {
                            assert(!old_child@.contains(rest + t));
                        }
                        assert forall|q: Seq<Segment>| #[trigger] before@.contains(q) implies !extends(q, p) by {
                            if extends(q, p) {
                                assert(q =~= p + q.subrange(p.len() as int, q.len() as int));
                                assert(before@.contains(p + q.subrange(p.len() as int, q.len() as int)));
                            }
                        }
                        assert(self@ =~= without_subtree(before@, p));
                    }
                    return false;
                }
                if !entry.child.terminal && entry.child.entries.len() == 0 {
                    // Nothing is left under this child: prune it.
                    proof {
                        assert(entries@ =~= old_entries.remove(i as int));
                        assert forall|k: int| 0 <= k < entries@.len() implies #[trigger] entry_ok(entries@[k]) by {
                            if k < i {
                                assert(entries@[k] == old_entries[k]);
                            } else {
                                assert(entries@[k] == old_entries[k + 1]);
                            }
                        }
                        lemma_wf_in(entries@);
                        assert(distinct_keys(entries@)) by {
                            assert forall|a: int, b: int| 0 <= a < entries@.len() && 0 <= b < entries@.len() && a != b
                                implies key(entries@[a]) != key(entries@[b]) by {
                                let a2 = if a < i { a } else { a + 1 };
                                let b2 = if b < i { b } else { b + 1 };
                                assert(entries@[a] == old_entries[a2]);
                                assert(entries@[b] == old_entries[b2]);
                            }
                        }
                        lemma_live_iff(new_child);
                    }
                    self.entries = entries;
                    proof {
                        let now = *self;
                        assert forall|q: Seq<Segment>| #[trigger] holds(now, q) == (holds(before, q) && !extends(q, p)) by {
                            if q.len() == 0 {
                                assert(holds(now, q) == now.terminal);
                            } else if q[0] == key_i {
                                assert forall|j: int| 0 <= j < now.entries@.len() implies #[trigger] key(now.entries@[j]) != q[0] by {
                                    let j2 = if j < i { j } else { j + 1 };
                                    assert(now.entries@[j] == old_entries[j2]);
                                }
                                lemma_first_step(now, q);
                                lemma_extends_step(q, p);
                                if holds(before, q) {
                                    assert(old_child@.contains(q.drop_first()));
                                    assert(!new_child@.contains(q.drop_first()));
                                }
                            } else {
                                lemma_removed_entry(before, now, i as int, q);
                                lemma_extends_step(q, p);
                            }
                        }
                        assert(self@ =~= without_subtree(before@, p));
                    }
                } else {
                    entries.insert(i, entry);
                    proof {
                        assert(entries@ =~= old_entries.update(i as int, entry));
                        assert(entry_ok(entry));
                        assert forall|k: int| 0 <= k < entries@.len() implies #[trigger] entry_ok(entries@[k]) by {
                            if k != i {
                                assert(entries@[k] == old_entries[k]);
                            }
                        }
                        lemma_wf_in(entries@);
                        assert(distinct_keys(entries@)) by {
                            assert forall|a: int, b: int| 0 <= a < entries@.len() && 0 <= b < entries@.len() && a != b
                                implies key(entries@[a]) != key(entries@[b]) by {
                                assert(key(entries@[a]) == key(old_entries[a]));
                                assert(key(entries@[b]) == key(old_entries[b]));
                            }
                        }
                    }
                    self.entries = entries;
                    proof {
                        let now = *self;
                        assert forall|q: Seq<Segment>| #[trigger] holds(now, q) == (holds(before, q) && !extends(q, p)) by {
                            if q.len() == 0 {
                                assert(holds(now, q) == now.terminal);
                            } else if q[0] == key_i {
                                lemma_first_step(now, q);
                                lemma_first_step(before, q);
                                lemma_extends_step(q, p);
                                assert(key(now.entries@[i as int]) == key_i);
                                assert(new_child@.contains(q.drop_first()) == holds(new_child, q.drop_first()));
                                assert(old_child@.contains(q.drop_first()) == holds(old_child, q.drop_first()));
                            } else {
                                lemma_replaced_entry(before, now, i as int, q);
                                lemma_extends_step(q, p);
                            }
                        }
                        assert(self@ =~= without_subtree(before@, p));
                    }
                }
                proof {
                    let t = choose|t: Seq<Segment>| #[trigger] old_child@.contains(rest + t);
                    assert(before@.contains(p + t));
                }
                true
            },
        }
    }

    /// Removes a path and everything beneath it. Returns whether a node
    /// stood at the path. A path that does not parse changes nothing.
    pub fn remove(&mut self, path: &str) -> (removed: bool)
        ensures
            match parse_path(path@) {
                Some(p) => removed == has_node(old(self)@, p) && final(self)@ == without_subtree(old(self)@, p),
                None => !removed && final(self)@ == old(self)@,
            },
    {
        match parse(path) {
            None => false,
            Some(segments) => {
                proof {
                    lemma_parsed_tags(path@);
                    assert(segment_views(segments@).subrange(0, segments@.len() as int) =~= segment_views(segments@));
                }
                self.remove_segments(&segments, 0)
            },
        }
    }
}

impl TagIndex {
    /// Whether `tag` is the tag of a first segment, typed or bare.
    pub fn has_tag(&self, tag: &str) -> (found: bool)
        ensures
            found == head_tags(self@).contains(tag@),
    {
        proof {
            use_type_invariant(self);
            lemma_heads(*self);
        }
        let name = tag.to_owned();
        let mut i: usize = 0;
        while i < self.entries.len()
            invariant
                i <= self.entries@.len(),
                name@ == tag@,
                forall|j: int| 0 <= j < i ==> (#[trigger] self.entries@[j]).tag@ != tag@,
            decreases self.entries@.len() - i,
        {
            if self.entries[i].tag == name {
                proof {
                    use_type_invariant(self);
                    lemma_heads(*self);
                    let s = key(self.entries@[i as int]);
                    assert(heads(self@).contains(s));
                    assert(heads(self@).contains((s.0, tag@)));
                }
                return true;
            }
            i += 1;
        }
        proof {
            lemma_heads(*self);
            if head_tags(self@).contains(tag@) {
                let k = choose|k: Seq<char>| #[trigger] heads(self@).contains((k, tag@));
                let j = choose|j: int| 0 <= j < self.entries@.len() && #[trigger] key(self.entries@[j]) == (k, tag@);
                assert(self.entries@[j].tag@ == tag@);
            }
        }
        false
    }

    /// Whether `kind`, not empty, is the type of a first segment.
    pub fn has_type(&self, kind: &str) -> (found: bool)
        ensures
            found == head_types(self@).contains(kind@),
    {
        proof {
            use_type_invariant(self);
            lemma_heads(*self);
        }
        if kind.is_empty() {
            return false;
        }
        let name = kind.to_owned();
        let mut i: usize = 0;
        while i < self.entries.len()
            invariant
                i <= self.entries@.len(),
                name@ == kind@,
                kind@.len() > 0,
                forall|j: int| 0 <= j < i ==> (#[trigger] self.entries@[j]).kind@ != kind@,
            decreases self.entries@.len() - i,
        {
            if self.entries[i].kind == name {
                proof {
                    use_type_invariant(self);
                    lemma_heads(*self);
                    let s = key(self.entries@[i as int]);
                    assert(heads(self@).contains(s));
                    assert(heads(self@).contains((kind@, s.1)));
                }
                return true;
            }
            i += 1;
        }
        proof {
            lemma_heads(*self);
            if head_types(self@).contains(kind@) {
                let t = choose|t: Seq<char>| #[trigger] heads(self@).contains((kind@, t));
                let j = choose|j: int| 0 <= j < self.entries@.len() && #[trigger] key(self.entries@[j]) == (kind@, t);
                assert(self.entries@[j].kind@ == kind@);
            }
        }
        false
    }

    /// Removes every child whose tag (or type) is `name`, with its subtree;
    /// returns whether there was one.
    fn drop_entries(&mut self, by_tag: bool, name: &String) -> (removed: bool)
        ensures
            removed == exists|s: Segment| #[trigger] heads(old(self)@).contains(s) && names(s, by_tag, name@),
            final(self)@ == Set::new(|t: Seq<Segment>| old(self)@.contains(t) && !(t.len() > 0 && names(t[0], by_tag, name@))),
    {
        proof {
            use_type_invariant(&*self);
            lemma_heads(*self);
            lemma_wf_in(self.entries@);
        }
        let ghost before = *self;
        let mut entries: Vec<TagEntry> = Vec::new();
        std::mem::swap(&mut entries, &mut self.entries);
        let ghost es0 = entries@;
        let mut kept: Vec<TagEntry> = Vec::new();
        let mut removed = false;
        let mut i: usize = 0;
        let total = entries.len();
        let ghost mut idx: Seq<int> = Seq::empty();
        proof {
            assert(entries@ =~= es0.subrange(0, es0.len() as int));
        }
        while entries.len() > 0
            invariant
                i <= es0.len(),
                total == es0.len(),
                entries@ == es0.subrange(i as int, es0.len() as int),
                es0 == before.entries@,
                wf(before),
                forall|j: int| 0 <= j < es0.len() ==> #[trigger] entry_ok(es0[j]),
                idx.len() == kept@.len(),
                forall|j: int| 0 <= j < idx.len() ==> 0 <= #[trigger] idx[j] < i && kept@[j] == es0[idx[j]]
                    && !names(key(es0[idx[j]]), by_tag, name@),
                forall|a: int, b: int| 0 <= a < b < idx.len() ==> idx[a] < idx[b],
                forall|j: int| 0 <= j < i && !names(key(#[trigger] es0[j]), by_tag, name@) ==> exists|m: int| 0 <= m < idx.len() && idx[m] == j,
                removed == exists|j: int| 0 <= j < i && names(key(#[trigger] es0[j]), by_tag, name@),
            decreases entries@.len(),
        {
            let e = entries.remove(0);
            proof {
                assert(e == es0[i as int]);
            }
            let hit = if by_tag { e.tag == *name } else { e.kind == *name };
            let ghost old_idx = idx;
            if hit {
                removed = true;
            } else {
                proof {
                    idx = idx.push(i as int);
                }
                kept.push(e);
            }
            proof {
                assert(entries@ =~= es0.subrange(i + 1, es0.len() as int));
                assert forall|j: int| 0 <= j < i + 1 && !names(key(#[trigger] es0[j]), by_tag, name@)
                    implies exists|m: int| 0 <= m < idx.len() && idx[m] == j by {
                    if j == i {
                        assert(idx[idx.len() - 1] == j);
                    } else {
                        let m = choose|m: int| 0 <= m < old_idx.len() && old_idx[m] == j;
                        assert(idx[m] == j);
                    }
                }
            }
            i += 1;
        }
        proof {
            assert(i == es0.len());
            assert forall|k: int| 0 <= k < kept@.len() implies #[trigger] entry_ok(kept@[k]) by {
                assert(kept@[k] == es0[idx[k]]);
            }
            lemma_wf_in(kept@);
            assert(distinct_keys(kept@)) by {
                assert forall|a: int, b: int| 0 <= a < kept@.len() && 0 <= b < kept@.len() && a != b
                    implies key(kept@[a]) != key(kept@[b]) by {
                    if a < b {
                        assert(idx[a] < idx[b]);
                    } else {
                        assert(idx[b] < idx[a]);
                    }
                }
            }
        }
        self.entries = kept;
        proof {
            let now = *self;
            assert forall|t: Seq<Segment>| #[trigger] holds(now, t) == (holds(before, t) && !(t.len() > 0 && names(t[0], by_tag, name@))) by {
                if t.len() > 0 {
                    lemma_holds_in(now.entries@, t);
                    lemma_holds_in(es0, t);
                    if holds(now, t) {
                        let j = choose|j: int| 0 <= j < now.entries@.len() && #[trigger] holds_at(now.entries@, j, t);
                        assert(holds_at(es0, idx[j], t));
                    }
                    if holds(before, t) && !names(t[0], by_tag, name@) {
                        let j = choose|j: int| 0 <= j < es0.len() && #[trigger] holds_at(es0, j, t);
                        let m = choose|m: int| 0 <= m < idx.len() && idx[m] == j;
                        assert(holds_at(now.entries@, m, t));
                    }
                }
            }
            assert(self@ =~= Set::new(|t: Seq<Segment>| before@.contains(t) && !(t.len() > 0 && names(t[0], by_tag, name@))));
            if removed {
                let j = choose|j: int| 0 <= j < i && names(key(#[trigger] es0[j]), by_tag, name@);
                assert(heads(before@).contains(key(es0[j])));
            }
            if exists|s: Segment| #[trigger] heads(before@).contains(s) && names(s, by_tag, name@) {
                let s = choose|s: Segment| #[trigger] heads(before@).contains(s) && names(s, by_tag, name@);
                let j = choose|j: int| 0 <= j < es0.len() && #[trigger] key(es0[j]) == s;
                assert(names(key(es0[j]), by_tag, name@));
            }
        }
        removed
    }

    /// Removes every entry at this level with `tag`, under any type, with
    /// its subtree. Returns whether there was one.
    pub fn remove_tag(&mut self, tag: &str) -> (removed: bool)
        ensures
            removed == head_tags(old(self)@).contains(tag@),
            final(self)@ == Set::new(|t: Seq<Segment>| old(self)@.contains(t) && !(t.len() > 0 && t[0].1 == tag@)),
    {
        let name = tag.to_owned();
        let removed = self.drop_entries(true, &name);
        proof {
            if removed {
                let s = choose|s: Segment| #[trigger] heads(old(self)@).contains(s) && names(s, true, name@);
                assert(s == (s.0, tag@));
            }
            if head_tags(old(self)@).contains(tag@) {
                let k = choose|k: Seq<char>| #[trigger] heads(old(self)@).contains((k, tag@));
                assert(names((k, tag@), true, name@));
            }
            assert(final(self)@ =~= Set::new(|t: Seq<Segment>| old(self)@.contains(t) && !(t.len() > 0 && t[0].1 == tag@)));
        }
        removed
    }

    /// Removes every entry at this level of type `kind` (the bare tags, when
    /// `kind` is empty), with its subtree. Returns whether there was one.
    pub fn remove_type(&mut self, kind: &str) -> (removed: bool)
        ensures
            removed == exists|tag: Seq<char>| #[trigger] heads(old(self)@).contains((kind@, tag)),
            final(self)@ == Set::new(|t: Seq<Segment>| old(self)@.contains(t) && !(t.len() > 0 && t[0].0 == kind@)),
    {
        let name = kind.to_owned();
        let removed = self.drop_entries(false, &name);
        proof {
            if removed {
                let s = choose|s: Segment| #[trigger] heads(old(self)@).contains(s) && names(s, false, name@);
                assert(s == (kind@, s.1));
            }
            assert(final(self)@ =~= Set::new(|t: Seq<Segment>| old(self)@.contains(t) && !(t.len() > 0 && t[0].0 == kind@)));
        }
        removed
    }
}

impl TagIndex {
    /// The distinct tags (or non-empty types) of the children, keeping only
    /// those whose type (or tag) is `filter` when there is one.
    fn gather(&self, by_tag: bool, filter: Option<String>) -> (out: Vec<String>)
        ensures
            text_views(out@).no_duplicates(),
            forall|x: Seq<char>| #[trigger] text_views(out@).contains(x)
                <==> gathered(self@, by_tag, match filter { Some(f) => Some(f@), None => None }).contains(x),
    {
        let mut out: Vec<String> = Vec::new();
        let mut i: usize = 0;
        while i < self.entries.len()
            invariant
                i <= self.entries@.len(),
                text_views(out@).no_duplicates(),
                forall|x: Seq<char>| #[trigger] text_views(out@).contains(x)
                    <==> exists|j: int| 0 <= j < i && selected(#[trigger] self.entries@[j], by_tag, filter) && field(self.entries@[j], by_tag) == x,
            decreases self.entries@.len() - i,
        {
            let e = &self.entries[i];
            let name = if by_tag { &e.tag } else { &e.kind };
            let wanted = (by_tag || !e.kind.as_str().is_empty()) && match &filter {
                Some(f) => if by_tag { e.kind == *f } else { e.tag == *f },
                None => true,
            };
            let ghost before = out@;
            if wanted && !contains_text(&out, name) {
                out.push(name.clone());
                proof {
                    assert(text_views(out@) =~= text_views(before).push(name@));
                }
            }
            proof {
                assert(wanted == selected(self.entries@[i as int], by_tag, filter));
                assert(name@ == field(self.entries@[i as int], by_tag));
                assert forall|x: Seq<char>| (exists|j: int| 0 <= j < i + 1 && selected(#[trigger] self.entries@[j], by_tag, filter) && field(self.entries@[j], by_tag) == x)
                    implies #[trigger] text_views(out@).contains(x) by {
                    let j = choose|j: int| 0 <= j < i + 1 && selected(#[trigger] self.entries@[j], by_tag, filter) && field(self.entries@[j], by_tag) == x;
                    if j < i {
                        assert(text_views(before).contains(x));
                        if text_views(out@) != text_views(before) {
                            let k = choose|k: int| 0 <= k < before.len() && text_views(before)[k] == x;
                            assert(text_views(out@)[k] == x);
                        }
                    } else if text_views(out@) != text_views(before) {
                        assert(text_views(out@)[before.len() as int] == x);
                    }
                }
                assert forall|x: Seq<char>| #[trigger] text_views(out@).contains(x)
                    implies exists|j: int| 0 <= j < i + 1 && selected(#[trigger] self.entries@[j], by_tag, filter) && field(self.entries@[j], by_tag) == x by {
                    if text_views(out@) != text_views(before) {
                        let k = choose|k: int| 0 <= k < text_views(out@).len() && text_views(out@)[k] == x;
                        if k < before.len() {
                            assert(text_views(before)[k] == x);
                        }
                    }
                }
            }
            i += 1;
        }
        proof {
            use_type_invariant(self);
            lemma_heads(*self);
            let f = match filter { Some(f) => Some(f@), None => None::<Seq<char>> };
            assert forall|x: Seq<char>| #[trigger] text_views(out@).contains(x) <==> gathered(self@, by_tag, f).contains(x) by {
                if text_views(out@).contains(x) {
                    let j = choose|j: int| 0 <= j < i && selected(#[trigger] self.entries@[j], by_tag, filter) && field(self.entries@[j], by_tag) == x;
                    let s = key(self.entries@[j]);
                    assert(heads(self@).contains(s));
                }
                if gathered(self@, by_tag, f).contains(x) {
                    let s = choose|s: Segment| #[trigger] heads(self@).contains(s) && names(s, by_tag, x)
                        && (by_tag || x.len() > 0)
                        && match f {
                            Some(g) => names(s, !by_tag, g),
                            None => true,
                        };
                    let j = choose|j: int| 0 <= j < self.entries@.len() && #[trigger] key(self.entries@[j]) == s;
                    assert(selected(self.entries@[j], by_tag, filter));
                }
            }
        }
        out
    }

    /// The distinct tags at this level, bare or typed.
    pub fn tags(&self) -> (tags: Vec<String>)
        ensures
            text_views(tags@).no_duplicates(),
            text_views(tags@).to_set() == head_tags(self@),
    {
        let out = self.gather(true, None);
        proof {
            assert(text_views(out@).to_set() =~= head_tags(self@)) by {
                assert forall|x: Seq<char>| #[trigger] head_tags(self@).contains(x) <==> gathered(self@, true, None).contains(x) by {
                    if head_tags(self@).contains(x) {
                        let k = choose|k: Seq<char>| #[trigger] heads(self@).contains((k, x));
                        assert(names((k, x), true, x));
                    }
                    if gathered(self@, true, None).contains(x) {
                        let s = choose|s: Segment| #[trigger] heads(self@).contains(s) && names(s, true, x);
                        assert(s == (s.0, x));
                    }
                }
            }
        }
        out
    }

    /// The distinct types at this level.
    pub fn types(&self) -> (types: Vec<String>)
        ensures
            text_views(types@).no_duplicates(),
            text_views(types@).to_set() == head_types(self@),
    {
        let out = self.gather(false, None);
        proof {
            assert(text_views(out@).to_set() =~= head_types(self@)) by {
                assert forall|x: Seq<char>| #[trigger] head_types(self@).contains(x) <==> gathered(self@, false, None).contains(x) by {
                    if head_types(self@).contains(x) {
                        let t = choose|t: Seq<char>| #[trigger] heads(self@).contains((x, t));
                        assert(names((x, t), false, x));
                    }
                    if gathered(self@, false, None).contains(x) {
                        let s = choose|s: Segment| #[trigger] heads(self@).contains(s) && names(s, false, x) && x.len() > 0;
                        assert(s == (x, s.1));
                    }
                }
            }
        }
        out
    }

    /// The tags directly under type `kind` at this level.
    pub fn tags_of_type(&self, kind: &str) -> (tags: Vec<String>)
        ensures
            text_views(tags@).no_duplicates(),
            text_views(tags@).to_set() == Set::new(|tag: Seq<char>| heads(self@).contains((kind@, tag))),
    {
        let out = self.gather(true, Some(kind.to_owned()));
        proof {
            assert(text_views(out@).to_set() =~= Set::new(|tag: Seq<char>| heads(self@).contains((kind@, tag)))) by {
                assert forall|x: Seq<char>| heads(self@).contains((kind@, x)) <==> #[trigger] gathered(self@, true, Some(kind@)).contains(x) by {
                    if heads(self@).contains((kind@, x)) {
                        assert(names((kind@, x), true, x));
                    }
                    if gathered(self@, true, Some(kind@)).contains(x) {
                        let s = choose|s: Segment| #[trigger] heads(self@).contains(s) && names(s, true, x) && names(s, false, kind@);
                        assert(s == (kind@, x));
                    }
                }
            }
        }
        out
    }

    /// The non-empty types under which `tag` occurs at this level.
    pub fn types_of_tag(&self, tag: &str) -> (types: Vec<String>)
        ensures
            text_views(types@).no_duplicates(),
            text_views(types@).to_set() == Set::new(|kind: Seq<char>| kind.len() > 0 && heads(self@).contains((kind, tag@))),
    {
        let out = self.gather(false, Some(tag.to_owned()));
        proof {
            assert(text_views(out@).to_set() =~= Set::new(|kind: Seq<char>| kind.len() > 0 && heads(self@).contains((kind, tag@)))) by {
                assert forall|x: Seq<char>| (x.len() > 0 && heads(self@).contains((x, tag@))) <==> #[trigger] gathered(self@, false, Some(tag@)).contains(x) by {
                    if x.len() > 0 && heads(self@).contains((x, tag@)) {
                        assert(names((x, tag@), false, x));
                    }
                    if gathered(self@, false, Some(tag@)).contains(x) {
                        let s = choose|s: Segment| #[trigger] heads(self@).contains(s) && names(s, false, x) && x.len() > 0 && names(s, true, tag@);
                        assert(s == (x, tag@));
                    }
                }
            }
        }
        out
    }

    /// Number of distinct tags at this level.
    pub fn tag_count(&self) -> (n: usize)
        ensures
            n == head_tags(self@).len(),
    {
        let tags = self.tags();
        proof {
            text_views(tags@).unique_seq_to_set();
        }
        tags.len()
    }

    /// Number of distinct types at this level.
    pub fn type_count(&self) -> (n: usize)
        ensures
            n == head_types(self@).len(),
    {
        let types = self.types();
        proof {
            text_views(types@).unique_seq_to_set();
        }
        types.len()
    }
}

impl TagIndex {
    /// `(type, tag, subtree)` for each entry at this level; bare tags have
    /// an empty type.
    pub fn entries(&self) -> (out: Vec<(String, String, &TagIndex)>)
        ensures
            forall|j: int| 0 <= j < out@.len() ==> #[trigger] heads(self@).contains((out@[j].0@, out@[j].1@))
                && out@[j].2@ == below(self@, seq![(out@[j].0@, out@[j].1@)]),
            forall|s: Segment| #[trigger] heads(self@).contains(s)
                ==> exists|j: int| 0 <= j < out@.len() && (out@[j].0@, out@[j].1@) == s,
            forall|a: int, b: int| 0 <= a < b < out@.len() ==> (out@[a].0@, out@[a].1@) != (out@[b].0@, out@[b].1@),
    {
        proof {
            use_type_invariant(self);
        }
        let mut out: Vec<(String, String, &TagIndex)> = Vec::new();
        let mut i: usize = 0;
        while i < self.entries.len()
            invariant
                i <= self.entries@.len(),
                wf(*self),
                out@.len() == i,
                forall|j: int| 0 <= j < i ==> (#[trigger] out@[j]).0@ == self.entries@[j].kind@
                    && out@[j].1@ == self.entries@[j].tag@ && *out@[j].2 == self.entries@[j].child,
            decreases self.entries@.len() - i,
        {
            let e = &self.entries[i];
            out.push((e.kind.clone(), e.tag.clone(), &e.child));
            i += 1;
        }
        proof {
            lemma_heads(*self);
            assert forall|j: int| 0 <= j < out@.len() implies #[trigger] heads(self@).contains((out@[j].0@, out@[j].1@))
                && out@[j].2@ == below(self@, seq![(out@[j].0@, out@[j].1@)]) by {
                let k = key(self.entries@[j]);
                assert(k == (out@[j].0@, out@[j].1@));
                assert forall|t: Seq<Segment>| #[trigger] out@[j].2@.contains(t) == below(self@, seq![k]).contains(t) by {
                    lemma_child_paths(*self, j, t);
                }
                assert(out@[j].2@ =~= below(self@, seq![k]));
            }
            assert forall|s: Segment| #[trigger] heads(self@).contains(s)
                implies exists|j: int| 0 <= j < out@.len() && (out@[j].0@, out@[j].1@) == s by {
                let j = choose|j: int| 0 <= j < self.entries@.len() && #[trigger] key(self.entries@[j]) == s;
                assert(out@[j].0@ == s.0 && out@[j].1@ == s.1);
            }
            assert forall|a: int, b: int| 0 <= a < b < out@.len() implies (out@[a].0@, out@[a].1@) != (out@[b].0@, out@[b].1@) by {
                assert(key(self.entries@[a]) != key(self.entries@[b]));
            }
        }
        out
    }

    /// Whether some node at or below this level has `name` as its tag (or
    /// type).
    fn deep_find(&self, by_tag: bool, name: &String) -> (found: bool)
        ensures
            found == deep_names(self@, by_tag, name@),
        decreases self,
    {
        proof {
            use_type_invariant(self);
            lemma_wf_in(self.entries@);
        }
        let mut i: usize = 0;
        while i < self.entries.len()
            invariant
                i <= self.entries@.len(),
                wf(*self),
                forall|j: int| 0 <= j < self.entries@.len() ==> #[trigger] entry_ok(self.entries@[j]),
                forall|j: int| 0 <= j < i ==> !names(key(#[trigger] self.entries@[j]), by_tag, name@)
                    && !deep_names(self.entries@[j].child@, by_tag, name@),
            decreases self.entries@.len() - i,
        {
            let e = &self.entries[i];
            let here = if by_tag { e.tag == *name } else { e.kind == *name };
            if here {
                proof {
                    let c = self.entries@[i as int].child;
                    assert(entry_ok(self.entries@[i as int]));
                    lemma_live_holds(c);
                    let q = choose|q: Seq<Segment>| holds(c, q);
                    lemma_child_paths(*self, i as int, q);
                    let t = seq![key(self.entries@[i as int])] + q;
                    assert(self@.contains(t) && t[0] == key(self.entries@[i as int]));
                }
                return true;
            }
            proof {
                assert(decreases_to!(self => self.entries));
            }
            if e.child.deep_find(by_tag, name) {
                proof {
                    let c = self.entries@[i as int].child;
                    let (t0, k) = choose|t: Seq<Segment>, k: int| #![trigger c@.contains(t), t[k]]
                        c@.contains(t) && 0 <= k < t.len() && names(t[k], by_tag, name@);
                    lemma_child_paths(*self, i as int, t0);
                    let t = seq![key(self.entries@[i as int])] + t0;
                    assert(self@.contains(t) && t[k + 1] == t0[k]);
                }
                return true;
            }
            i += 1;
        }
        proof {
            if deep_names(self@, by_tag, name@) {
                let (t, k) = choose|t: Seq<Segment>, k: int| #![trigger self@.contains(t), t[k]]
                    self@.contains(t) && 0 <= k < t.len() && names(t[k], by_tag, name@);
                lemma_first_step(*self, t);
                let j = choose|j: int| 0 <= j < self.entries@.len() && #[trigger] key(self.entries@[j]) == t[0];
                if k > 0 {
                    let c = self.entries@[j].child;
                    assert(c@.contains(t.drop_first()) && t.drop_first()[k - 1] == t[k]);
                }
            }
        }
        false
    }

    /// Whether `tag` occurs at this level or any descendant.
    pub fn has_tag_any_depth(&self, tag: &str) -> (found: bool)
        ensures
            found == deep_names(self@, true, tag@),
    {
        self.deep_find(true, &tag.to_owned())
    }

    /// Whether type `kind`, not empty, occurs at this level or any
    /// descendant.
    pub fn has_type_any_depth(&self, kind: &str) -> (found: bool)
        ensures
            found == (kind@.len() > 0 && deep_names(self@, false, kind@)),
    {
        if kind.is_empty() {
            return false;
        }
        self.deep_find(false, &kind.to_owned())
    }
}

impl TagIndex {
    /// Number of paths ending at or below this node, saturating.
    fn count(&self) -> (n: usize)
        ensures
            n == saturated(listing(*self).len()),
        decreases self,
    {
        proof {
            use_type_invariant(self);
        }
        let mut total: usize = if self.terminal { 1 } else { 0 };
        let ghost head = if self.terminal { seq![Seq::<Segment>::empty()] } else { Seq::<Seq<Segment>>::empty() };
        let mut i: usize = 0;
        proof {
            assert(self.entries@.subrange(0, 0) =~= Seq::<TagEntry>::empty());
        }
        while i < self.entries.len()
            invariant
                i <= self.entries@.len(),
                head.len() == (if self.terminal { 1int } else { 0 }),
                total == saturated(head.len() + listing_in(self.entries@.subrange(0, i as int)).len()),
            decreases self.entries@.len() - i,
        {
            proof {
                assert(decreases_to!(self => self.entries));
            }
            let c = self.entries[i].child.count();
            proof {
                let es = self.entries@.subrange(0, i + 1);
                assert(es.drop_last() =~= self.entries@.subrange(0, i as int));
                assert(es.last() == self.entries@[i as int]);
            }
            total = if total > usize::MAX - c { usize::MAX } else { total + c };
            i += 1;
        }
        proof {
            assert(self.entries@.subrange(0, i as int) =~= self.entries@);
        }
        total
    }

    /// Number of paths ending at or below this node (saturating at
    /// `usize::MAX`, which no index in memory reaches).
    pub fn path_count(&self) -> (n: usize)
        ensures
            self@.finite(),
            n == saturated(self@.len()),
    {
        proof {
            use_type_invariant(self);
            lemma_listing(*self);
            assert(listing(*self).to_set() =~= self@);
            listing(*self).unique_seq_to_set();
        }
        self.count()
    }

    /// Appends the text of each path below the children, written below
    /// `prefix`.
    fn collect_below(&self, prefix: &String, out: &mut Vec<String>)
        ensures
            text_views(final(out)@) == text_views(old(out)@) + rendered(prefix@, listing_in(self.entries@)),
        decreases self, 0int,
    {
        let mut i: usize = 0;
        proof {
            assert(self.entries@.subrange(0, 0) =~= Seq::<TagEntry>::empty());
            assert(text_views(out@) =~= text_views(old(out)@) + rendered(prefix@, Seq::empty()));
        }
        while i < self.entries.len()
            invariant
                i <= self.entries@.len(),
                text_views(out@) == text_views(old(out)@) + rendered(prefix@, listing_in(self.entries@.subrange(0, i as int))),
            decreases self.entries@.len() - i,
        {
            let e = &self.entries[i];
            let mut next = prefix.clone();
            if prefix.as_str().unicode_len() > 0 {
                push_char(&mut next, '/');
            }
            if e.kind.as_str().unicode_len() > 0 {
                push_text(&mut next, e.kind.as_str());
                push_char(&mut next, ':');
            }
            push_text(&mut next, e.tag.as_str());
            let ghost k = key(self.entries@[i as int]);
            proof {
                assert(next@ =~= join(prefix@, render_segment(k)));
                assert(decreases_to!(self => self.entries));
            }
            let ghost before = out@;
            e.child.collect(&next, out);
            proof {
                let es = self.entries@.subrange(0, i + 1);
                let lc = listing(e.child);
                assert(es.drop_last() =~= self.entries@.subrange(0, i as int));
                assert(es.last() == self.entries@[i as int]);
                assert(rendered(prefix@, prefixed(k, lc)) =~= rendered(next@, lc)) by {
                    assert forall|m: int| 0 <= m < lc.len() implies rendered(prefix@, prefixed(k, lc))[m] == rendered(next@, lc)[m] by {
                        let q = seq![k] + lc[m];
                        assert(q[0] == k);
                        assert(q.drop_first() =~= lc[m]);
                    }
                }
                assert(rendered(prefix@, listing_in(es)) =~= rendered(prefix@, listing_in(self.entries@.subrange(0, i as int))) + rendered(prefix@, prefixed(k, lc)));
                assert(text_views(out@) =~= text_views(old(out)@) + rendered(prefix@, listing_in(es)));
            }
            i += 1;
        }
        proof {
            assert(self.entries@.subrange(0, i as int) =~= self.entries@);
        }
    }

    /// Appends the text of each path ending at or below this node, written
    /// below `prefix`.
    fn collect(&self, prefix: &String, out: &mut Vec<String>)
        ensures
            text_views(final(out)@) == text_views(old(out)@) + rendered(prefix@, listing(*self)),
        decreases self, 1int,
    {
        let ghost head = if self.terminal { seq![Seq::<Segment>::empty()] } else { Seq::<Seq<Segment>>::empty() };
        if self.terminal {
            out.push(prefix.clone());
        }
        let ghost mid = out@;
        proof {
            assert(text_views(mid) =~= text_views(old(out)@) + rendered(prefix@, head));
        }
        self.collect_below(prefix, out);
        proof {
            assert(rendered(prefix@, listing(*self)) =~= rendered(prefix@, head) + rendered(prefix@, listing_in(self.entries@)));
        }
    }

    /// Every path in this index, as text.
    pub fn paths(&self) -> (paths: Vec<String>)
        ensures
            exists|qs: Seq<Seq<Segment>>| #[trigger] qs.no_duplicates() && qs.to_set() == self@.remove(Seq::empty())
                && text_views(paths@) == rendered(Seq::empty(), qs),
    {
        proof {
            use_type_invariant(self);
            lemma_listing_in(self.entries@);
        }
        let mut out: Vec<String> = Vec::new();
        let empty = String::new();
        self.collect_below(&empty, &mut out);
        proof {
            let qs = listing_in(self.entries@);
            assert(text_views(out@) =~= rendered(Seq::empty(), qs));
            assert forall|q: Seq<Segment>| #[trigger] qs.to_set().contains(q) == self@.remove(Seq::empty()).contains(q) by {
                if q.len() > 0 {
                    lemma_holds_in(self.entries@, q);
                }
            }
            assert(qs.to_set() =~= self@.remove(Seq::empty()));
        }
        out
    }

    /// Every path beneath `path`. With `full`, each is written below `path`
    /// (without trailing slashes); otherwise relative to it. No paths when
    /// no node stands at `path`.
    pub fn paths_with_prefix(&self, path: &str, full: bool) -> (paths: Vec<String>)
        ensures
            match parse_path(path@) {
                Some(p) => if has_node(self@, p) {
                    exists|qs: Seq<Seq<Segment>>| #[trigger] qs.no_duplicates()
                        && qs.to_set() == below(self@, p).remove(Seq::empty())
                        && text_views(paths@) == rendered(if full { trim_slashes(path@) } else { Seq::empty() }, qs)
                } else {
                    paths@.len() == 0
                },
                None => paths@.len() == 0,
            },
    {
        let mut out: Vec<String> = Vec::new();
        match self.sub_index(path) {
            None => out,
            Some(node) => {
                proof {
                    use_type_invariant(node);
                    lemma_listing_in(node.entries@);
                }
                let prefix = if full { trimmed(path) } else { String::new() };
                node.collect_below(&prefix, &mut out);
                proof {
                    let qs = listing_in(node.entries@);
                    let p = parse_path(path@)->0;
                    assert(text_views(out@) =~= rendered(prefix@, qs));
                    assert forall|q: Seq<Segment>| #[trigger] qs.to_set().contains(q) == below(self@, p).remove(Seq::empty()).contains(q) by {
                        if q.len() > 0 {
                            lemma_holds_in(node.entries@, q);
                            assert(node@.contains(q) == holds(*node, q));
                        }
                    }
                    assert(qs.to_set() =~= below(self@, p).remove(Seq::empty()));
                }
                out
            },
        }
    }

    /// Adds every path of `paths`, ignoring those that do not parse and
    /// those already present.
    pub fn add_all(&mut self, paths: &[&str])
        ensures
            final(self)@ == old(self)@.union(
                Set::new(|q: Seq<Segment>| exists|i: int| 0 <= i < paths@.len() && parse_path(#[trigger] paths@[i]@) == Some(q)),
            ),
    {
        let mut i: usize = 0;
        while i < paths.len()
            invariant
                i <= paths@.len(),
                self@ == old(self)@.union(
                    Set::new(|q: Seq<Segment>| exists|j: int| 0 <= j < i && parse_path(#[trigger] paths@[j]@) == Some(q)),
                ),
            decreases paths@.len() - i,
        {
            let ghost before = self@;
            self.add(paths[i]);
            proof {
                assert(self@ =~= old(self)@.union(
                    Set::new(|q: Seq<Segment>| exists|j: int| 0 <= j < i + 1 && parse_path(#[trigger] paths@[j]@) == Some(q)),
                )) by {
                    assert forall|q: Seq<Segment>| (exists|j: int| 0 <= j < i + 1 && parse_path(#[trigger] paths@[j]@) == Some(q))
                        implies self@.contains(q) by {
                        let j = choose|j: int| 0 <= j < i + 1 && parse_path(#[trigger] paths@[j]@) == Some(q);
                        if j < i {
                            assert(before.contains(q));
                        }
                    }
                }
            }
            i += 1;
        }
    }
}

impl Default for TagIndex {
    fn default() -> (index: Self)
        ensures
            index@ == Set::<Seq<Segment>>::empty(),
    {
        TagIndex::new()
    }
}

} // verus!
