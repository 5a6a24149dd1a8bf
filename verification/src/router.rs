//! A hierarchical router: a trie keyed by path segment, storing per node a
//! mapping from HTTP method to handler. Registration and merging build the
//! trie; lookup resolves a (method, path) pair to the registered handler and
//! captures the text of every dynamic segment traversed, in order.
//!
//! The router is polymorphic in its handler type `H` and never invokes a
//! handler itself: it only stores and returns them.

use vstd::prelude::*;
use vstd::string::{StrSliceExecFns, StringExecFns};

use crate::method::{spec_method_name, spec_parse_method, spec_undefined_method_text, Method};
use crate::text::str_eq;

verus! {

/// The reserved child key under which every dynamic (`:name`) segment is
/// stored; distinct keys are not kept per variable name.
pub open spec fn dyn_key() -> Seq<char> {
    ":dyn"@
}

// ---------------------------------------------------------------------------
// Mathematical model
// ---------------------------------------------------------------------------

/// The mathematical content of one trie node: a finite map from method to
/// handler and a finite map from segment text to child node.
#[verifier::ext_equal]
pub struct RouterNode<H> {
    pub handlers: Map<Method, H>,
    pub children: Map<Seq<char>, RouterNode<H>>,
}

/// The mathematical content of a whole router: its optional base segment and
/// its root node.
#[verifier::ext_equal]
pub struct RouterModel<H> {
    pub base: Option<Seq<char>>,
    pub node: RouterNode<H>,
}

/// The node with no handlers and no children.
pub open spec fn empty_node<H>() -> RouterNode<H> {
    RouterNode { handlers: Map::empty(), children: Map::empty() }
}

// ---------------------------------------------------------------------------
// Path splitting
// ---------------------------------------------------------------------------

/// The number of leading characters before the first `'/'` (all of them, if
/// none occurs).
pub open spec fn prefix_len(s: Seq<char>) -> nat
    decreases s.len(),
{
    if s.len() == 0 || s[0] == '/' {
        0
    } else {
        1 + prefix_len(s.drop_first())
    }
}

/// The non-empty segments of a path, in order: maximal runs of characters
/// between `'/'` separators.
pub open spec fn split_path(s: Seq<char>) -> Seq<Seq<char>>
    decreases s.len(),
    via split_path_decreases
{
    if s.len() == 0 {
        Seq::empty()
    } else if s[0] == '/' {
        split_path(s.drop_first())
    } else {
        seq![s.take(prefix_len(s) as int)] + split_path(s.skip(prefix_len(s) as int))
    }
}

#[via_fn]
proof fn split_path_decreases(s: Seq<char>) {
    if s.len() != 0 && s[0] != '/' {
        assert(prefix_len(s) >= 1);
        lemma_prefix_len_le(s);
    }
}

/// A prefix is never longer than the whole sequence.
pub proof fn lemma_prefix_len_le(s: Seq<char>)
    ensures
        prefix_len(s) <= s.len(),
    decreases s.len(),
{
    if s.len() != 0 && s[0] != '/' {
        lemma_prefix_len_le(s.drop_first());
    }
}

/// No character strictly before the prefix boundary is a separator.
pub proof fn lemma_prefix_len_chars(s: Seq<char>)
    ensures
        forall|j: int| 0 <= j < prefix_len(s) ==> s[j] != '/',
    decreases s.len(),
{
    if s.len() != 0 && s[0] != '/' {
        lemma_prefix_len_chars(s.drop_first());
        lemma_prefix_len_le(s);
        assert forall|j: int| 0 <= j < prefix_len(s) implies s[j] != '/' by {
            if j > 0 {
                assert(s.drop_first()[j - 1] == s[j]);
                assert(j - 1 < prefix_len(s.drop_first()));
            }
        }
    }
}

/// When the prefix boundary is interior, the character there is a separator.
pub proof fn lemma_prefix_len_char(s: Seq<char>)
    requires
        prefix_len(s) < s.len(),
    ensures
        s[prefix_len(s) as int] == '/',
    decreases s.len(),
{
    if s.len() != 0 && s[0] != '/' {
        lemma_prefix_len_char(s.drop_first());
    }
}

/// A sequence without separators is a single segment, or none if empty.
pub proof fn lemma_split_unbroken(s: Seq<char>)
    requires
        forall|j: int| 0 <= j < s.len() ==> s[j] != '/',
    ensures
        split_path(s) == if s.len() == 0 {
            Seq::<Seq<char>>::empty()
        } else {
            seq![s]
        },
{
    if s.len() != 0 {
        lemma_prefix_len_at(s, s.len() as int);
        assert(s[0] != '/');
        assert(prefix_len(s) == s.len());
        assert(split_path(s) == seq![s.take(prefix_len(s) as int)] + split_path(
            s.skip(prefix_len(s) as int),
        ));
        assert(s.take(s.len() as int) =~= s);
        assert(s.skip(s.len() as int) =~= Seq::<char>::empty());
        assert(split_path(s.skip(prefix_len(s) as int)) == Seq::<Seq<char>>::empty());
        assert(seq![s] + Seq::<Seq<char>>::empty() =~= seq![s]);
        assert(split_path(s) == seq![s]);
    }
}

/// Splitting distributes over concatenation at a separator boundary.
pub proof fn lemma_split_append(u: Seq<char>, v: Seq<char>)
    requires
        u.len() == 0 || u.last() == '/',
    ensures
        split_path(u + v) == split_path(u) + split_path(v),
    decreases u.len(),
{
    if u.len() == 0 {
        assert(u + v =~= v);
        assert(split_path(u) + split_path(v) =~= split_path(v));
    } else if u[0] == '/' {
        assert((u + v).drop_first() =~= u.drop_first() + v);
        assert(u.drop_first().len() == 0 || u.drop_first().last() == '/') by {
            if u.len() > 1 {
                assert(u.drop_first().last() == u.last());
            }
        }
        lemma_split_append(u.drop_first(), v);
        assert((u + v)[0] == '/');
    } else {
        let p = prefix_len(u) as int;
        lemma_prefix_len_le(u);
        lemma_prefix_len_chars(u);
        assert(p < u.len()) by {
            if p == u.len() {
                lemma_prefix_len_at(u, u.len() as int);
                assert(u[u.len() - 1] == '/');
            }
        }
        lemma_prefix_len_char(u);
        assert(prefix_len(u + v) == p) by {
            assert(forall|j: int| 0 <= j < p ==> (u + v)[j] == u[j]);
            assert((u + v)[p] == u[p]);
            lemma_prefix_len_at(u + v, p);
        }
        assert((u + v).take(p) =~= u.take(p));
        assert((u + v).skip(p) =~= u.skip(p) + v);
        assert(u.skip(p).len() >= 1 && u.skip(p).last() == '/') by {
            assert(u.skip(p).last() == u.last());
        }
        lemma_split_append(u.skip(p), v);
        assert(prefix_len(u) >= 1);
        assert(seq![u.take(p)] + (split_path(u.skip(p)) + split_path(v)) =~= (seq![u.take(p)]
            + split_path(u.skip(p))) + split_path(v));
    }
}

/// Splitting a run of non-separators closed by one separator yields that run
/// as a single segment, or nothing if the run is empty.
proof fn lemma_split_chunk(w: Seq<char>)
    requires
        w.len() >= 1,
        w.last() == '/',
        forall|j: int| 0 <= j < w.len() - 1 ==> w[j] != '/',
    ensures
        split_path(w) == if w.len() == 1 {
            Seq::<Seq<char>>::empty()
        } else {
            seq![w.drop_last()]
        },
{
    if w.len() == 1 {
        assert(w[0] == '/');
        assert(w.drop_first() =~= Seq::<char>::empty());
        assert(split_path(w) == split_path(w.drop_first()));
        assert(split_path(w.drop_first()) == Seq::<Seq<char>>::empty());
    } else {
        assert(w[0] != '/');
        lemma_prefix_len_at(w, w.len() - 1);
        let p = prefix_len(w) as int;
        assert(split_path(w) == seq![w.take(p)] + split_path(w.skip(p)));
        assert(w.take(p) =~= w.drop_last());
        assert(w.skip(p).len() == 1 && w.skip(p)[0] == '/');
        assert(w.skip(p).drop_first() =~= Seq::<char>::empty());
        assert(split_path(w.skip(p)) == split_path(w.skip(p).drop_first()));
        assert(split_path(w.skip(p)) == Seq::<Seq<char>>::empty());
        assert(seq![w.drop_last()] + Seq::<Seq<char>>::empty() =~= seq![w.drop_last()]);
    }
}

/// Splits an endpoint into its non-empty segments, in order.
pub fn get_path(endpoint: &str) -> (segs: Vec<String>)
    ensures
        segs.deep_view() == split_path(endpoint@),
{
    let ghost s = endpoint@;
    let n = endpoint.unicode_len();
    let mut segs: Vec<String> = Vec::new();
    let mut start: usize = 0;
    let mut i: usize = 0;
    while i < n
        invariant
            start <= i <= n,
            n == s.len(),
            endpoint@ == s,
            forall|j: int| start <= j < i ==> s[j] != '/',
            start == 0 || s[start - 1] == '/',
            segs.deep_view() == split_path(s.take(start as int)),
        decreases n - i,
    {
        let c = endpoint.get_char(i);
        if c == '/' {
            let ghost old_deep = segs.deep_view();
            if start < i {
                let seg = endpoint.substring_char(start, i).to_owned();
                proof {
                    assert(seg@ =~= s.subrange(start as int, i as int));
                }
                segs.push(seg);
                proof {
                    assert(segs.deep_view() =~= old_deep.push(s.subrange(start as int, i as int)));
                }
            }
            proof {
                let u = s.take(start as int);
                let w = s.subrange(start as int, i + 1);
                assert(u + w =~= s.take(i + 1));
                assert(w.last() == '/');
                lemma_split_append(u, w);
                lemma_split_chunk(w);
                if start < i {
                    assert(w.drop_last() =~= s.subrange(start as int, i as int));
                    assert(split_path(s.take(i + 1)) =~= old_deep.push(
                        s.subrange(start as int, i as int),
                    ));
                } else {
                    assert(split_path(s.take(i + 1)) =~= old_deep);
                }
            }
            start = i + 1;
        }
        i = i + 1;
    }
    if start < n {
        let ghost old_deep = segs.deep_view();
        let seg = endpoint.substring_char(start, n).to_owned();
        proof {
            assert(seg@ =~= s.skip(start as int));
        }
        segs.push(seg);
        proof {
            let u = s.take(start as int);
            let w = s.skip(start as int);
            assert(u + w =~= s);
            lemma_split_append(u, w);
            lemma_split_unbroken(w);
            assert(segs.deep_view() =~= old_deep.push(w));
            assert(segs.deep_view() =~= split_path(s));
        }
    } else {
        proof {
            assert(s.take(start as int) =~= s);
        }
    }
    segs
}

/// The base segment denoted by a `base` argument: the run of characters
/// between the leading separator and the next one, if it is non-empty.
pub open spec fn spec_base(s: Seq<char>) -> Option<Seq<char>> {
    if s.len() == 0 {
        None
    } else {
        let t = s.drop_first();
        if prefix_len(t) == 0 {
            None
        } else {
            Some(t.take(prefix_len(t) as int))
        }
    }
}

// ---------------------------------------------------------------------------
// The router
// ---------------------------------------------------------------------------

/// The struct that defines endpoints and their handlers.
pub struct Router<H> {
    /// The base segment under which `get`/`post`/`delete` and `merge_from`
    /// nest their routes; `None` means the root.
    pub base: Option<String>,
    /// The handlers registered at this node, keyed by method (keys unique).
    pub handlers: Vec<(Method, H)>,
    /// The children of this node, keyed by segment text (keys unique).
    pub routes: Vec<(String, Router<H>)>,
}

/// Whether a segment key occurs among a node's children.
pub open spec fn has_route_key<H>(s: Seq<(String, Router<H>)>, k: Seq<char>) -> bool {
    exists|i: int| 0 <= i < s.len() && s[i].0@ == k
}

/// The child router stored under a segment key.
pub open spec fn route_at<H>(s: Seq<(String, Router<H>)>, k: Seq<char>) -> Router<H> {
    s[choose|i: int| 0 <= i < s.len() && s[i].0@ == k].1
}

/// Whether a method occurs among a node's handler entries.
pub open spec fn has_method<H>(s: Seq<(Method, H)>, m: Method) -> bool {
    exists|i: int| 0 <= i < s.len() && s[i].0 == m
}

/// The handler stored under a method.
pub open spec fn handler_at<H>(s: Seq<(Method, H)>, m: Method) -> H {
    s[choose|i: int| 0 <= i < s.len() && s[i].0 == m].1
}

/// The handler map denoted by a node's handler entries.
pub open spec fn handlers_view<H>(s: Seq<(Method, H)>) -> Map<Method, H> {
    Map::new(|m: Method| has_method(s, m), |m: Method| handler_at(s, m))
}

/// The child map denoted by a node's child entries; a later entry for the
/// same key wins (well-formed routers have no such repetition).
pub open spec fn children_view<H>(s: Seq<(String, Router<H>)>) -> Map<Seq<char>, RouterNode<H>>
    decreases s,
    via children_view_decreases::<H>
{
    if s.len() == 0 {
        Map::empty()
    } else {
        children_view(s.drop_last()).insert(s.last().0@, node_view(s.last().1))
    }
}

#[via_fn]
proof fn children_view_decreases<H>(s: Seq<(String, Router<H>)>) {
    if s.len() != 0 {
        assert(decreases_to!(s => s[s.len() - 1]));
        assert(decreases_to!(s => s.last().1));
        assert(decreases_to!(s => s.subrange(0, s.len() - 1)));
    }
}

/// The node denoted by a router, with entry vectors read as maps.
pub open spec fn node_view<H>(r: Router<H>) -> RouterNode<H>
    decreases r,
    via node_view_decreases::<H>
{
    RouterNode { handlers: handlers_view(r.handlers@), children: children_view(r.routes@) }
}

#[via_fn]
proof fn node_view_decreases<H>(r: Router<H>) {
    assert(decreases_to!(r => r.routes));
    assert(decreases_to!(r.routes => r.routes@));
    assert(decreases_to!(r => r.routes@));
}

/// Whether the method keys of a handler vector are pairwise distinct.
pub open spec fn unique_methods<H>(s: Seq<(Method, H)>) -> bool {
    forall|i: int, j: int| 0 <= i < j < s.len() ==> s[i].0 != s[j].0
}

/// Whether the segment keys of a child vector are pairwise distinct.
pub open spec fn unique_route_keys<H>(s: Seq<(String, Router<H>)>) -> bool {
    forall|i: int, j: int| 0 <= i < j < s.len() ==> s[i].0@ != s[j].0@
}

/// Well-formedness: at every node the method keys and the segment keys are
/// pairwise distinct, so each vector denotes its map unambiguously.
pub open spec fn wf_node<H>(r: Router<H>) -> bool
    decreases r,
{
    &&& unique_methods(r.handlers@)
    &&& unique_route_keys(r.routes@)
    &&& forall|i: int| 0 <= i < r.routes@.len() ==> wf_node(#[trigger] r.routes@[i].1)
}

// ---------------------------------------------------------------------------
// How the entry vectors denote their maps
// ---------------------------------------------------------------------------

/// A key is in the child map exactly when some entry carries it.
proof fn lemma_cv_contains<H>(s: Seq<(String, Router<H>)>, k: Seq<char>)
    ensures
        children_view(s).dom().contains(k) <==> has_route_key(s, k),
    decreases s,
{
    if s.len() == 0 {
        assert(!has_route_key(s, k));
    } else {
        lemma_cv_contains(s.drop_last(), k);
        if s.last().0@ == k {
            assert(s[s.len() - 1].0@ == k);
            assert(has_route_key(s, k));
        } else {
            if has_route_key(s, k) {
                let i = choose|i: int| 0 <= i < s.len() && s[i].0@ == k;
                assert(i < s.len() - 1);
                assert(s.drop_last()[i] == s[i]);
                assert(has_route_key(s.drop_last(), k));
            }
            if has_route_key(s.drop_last(), k) {
                let i = choose|i: int| 0 <= i < s.drop_last().len() && s.drop_last()[i].0@ == k;
                assert(s.drop_last()[i] == s[i]);
                assert(has_route_key(s, k));
            }
        }
    }
}

/// Under unique keys, the child map sends each entry's key to the view of
/// that entry's router.
proof fn lemma_cv_at<H>(s: Seq<(String, Router<H>)>, i: int)
    requires
        unique_route_keys(s),
        0 <= i < s.len(),
    ensures
        children_view(s).dom().contains(s[i].0@),
        children_view(s)[s[i].0@] == node_view(s[i].1),
    decreases s,
{
    lemma_cv_contains(s, s[i].0@);
    assert(has_route_key(s, s[i].0@));
    if i == s.len() - 1 {
    } else {
        assert(unique_route_keys(s.drop_last())) by {
            assert(forall|a: int, b: int|
                0 <= a < b < s.drop_last().len() ==> s.drop_last()[a] == s[a]
                    && s.drop_last()[b] == s[b]);
        }
        assert(s.drop_last()[i] == s[i]);
        lemma_cv_at(s.drop_last(), i);
        assert(s.last().0@ != s[i].0@);
    }
}

/// Appending an entry inserts its binding into the child map.
proof fn lemma_cv_push<H>(s: Seq<(String, Router<H>)>, p: (String, Router<H>))
    ensures
        children_view(s.push(p)) == children_view(s).insert(p.0@, node_view(p.1)),
{
    assert(s.push(p).drop_last() =~= s);
    assert(s.push(p).last() == p);
    assert(s.push(p).len() == s.len() + 1);
}

/// Under unique keys, removing an entry removes its binding from the child
/// map.
proof fn lemma_cv_remove<H>(s: Seq<(String, Router<H>)>, i: int)
    requires
        unique_route_keys(s),
        0 <= i < s.len(),
    ensures
        children_view(s.remove(i)) =~= children_view(s).remove(s[i].0@),
    decreases s,
{
    let k = s[i].0@;
    assert(unique_route_keys(s.drop_last())) by {
        assert(forall|a: int, b: int|
            0 <= a < b < s.drop_last().len() ==> s.drop_last()[a] == s[a]
                && s.drop_last()[b] == s[b]);
    }
    if i == s.len() - 1 {
        assert(s.remove(i) =~= s.drop_last());
        assert(!has_route_key(s.drop_last(), k)) by {
            if has_route_key(s.drop_last(), k) {
                let j = choose|j: int|
                    0 <= j < s.drop_last().len() && s.drop_last()[j].0@ == k;
                assert(s.drop_last()[j] == s[j]);
                assert(s[j].0@ == s[i].0@);
            }
        }
        lemma_cv_contains(s.drop_last(), k);
        assert(children_view(s.remove(i)) =~= children_view(s).remove(k));
    } else {
        assert(s.drop_last()[i] == s[i]);
        lemma_cv_remove(s.drop_last(), i);
        let lk = s.last().0@;
        let lv = node_view(s.last().1);
        assert(lk != k);
        assert(s.remove(i).drop_last() =~= s.drop_last().remove(i));
        assert(s.remove(i).last() == s.last());
        assert(s.remove(i).len() == s.len() - 1);
        assert(children_view(s.remove(i)) == children_view(s.drop_last().remove(i)).insert(
            lk,
            lv,
        ));
        assert(children_view(s.remove(i)) =~= children_view(s).remove(k));
    }
}

/// Under unique methods, the handler map sends each entry's method to that
/// entry's handler.
proof fn lemma_handler_at<H>(s: Seq<(Method, H)>, i: int)
    requires
        unique_methods(s),
        0 <= i < s.len(),
    ensures
        handler_at(s, s[i].0) == s[i].1,
{
    let j = choose|j: int| 0 <= j < s.len() && s[j].0 == s[i].0;
    assert(has_method(s, s[i].0));
    assert(j == i);
}

/// Appending a fresh method inserts its binding into the handler map.
proof fn lemma_hv_push<H>(s: Seq<(Method, H)>, p: (Method, H))
    requires
        unique_methods(s),
        !has_method(s, p.0),
    ensures
        handlers_view(s.push(p)) =~= handlers_view(s).insert(p.0, p.1),
{
    let t = s.push(p);
    assert forall|m: Method| has_method(t, m) <==> (has_method(s, m) || m == p.0) by {
        if has_method(t, m) {
            let i = choose|i: int| 0 <= i < t.len() && t[i].0 == m;
            if i < s.len() {
                assert(t[i] == s[i]);
                assert(has_method(s, m));
            } else {
                assert(t[i] == p);
            }
        }
        if has_method(s, m) {
            let i = choose|i: int| 0 <= i < s.len() && s[i].0 == m;
            assert(t[i] == s[i]);
            assert(has_method(t, m));
        }
        if m == p.0 {
            assert(t[s.len() as int] == p);
            assert(has_method(t, m));
        }
    }
    assert forall|m: Method| #[trigger] has_method(t, m) implies handler_at(t, m) == (if m == p.0 {
        p.1
    } else {
        handler_at(s, m)
    }) by {
        if m == p.0 {
            let i = choose|i: int| 0 <= i < t.len() && t[i].0 == m;
            if i < s.len() {
                assert(t[i] == s[i]);
                assert(has_method(s, m));
            } else {
                assert(t[i] == p);
            }
        } else {
            let i = choose|i: int| 0 <= i < t.len() && t[i].0 == m;
            assert(t[s.len() as int] == p);
            assert(i < s.len());
            assert(t[i] == s[i]);
            let j = choose|j: int| 0 <= j < s.len() && s[j].0 == m;
            assert(j == i);
        }
    }
}

// ---------------------------------------------------------------------------
// Registration
// ---------------------------------------------------------------------------

/// The child key a path segment is stored under: dynamic segments (those
/// beginning with `':'`) share the one reserved wildcard key.
pub open spec fn route_key_of(seg: Seq<char>) -> Seq<char> {
    if seg.len() > 0 && seg[0] == ':' {
        dyn_key()
    } else {
        seg
    }
}

/// The node that results from registering a handler under a segment
/// sequence: trie nodes are created along the way as needed, and at the
/// terminal node the first registration for a method wins.
pub open spec fn spec_register<H>(n: RouterNode<H>, segs: Seq<Seq<char>>, m: Method, h: H) -> RouterNode<
    H,
>
    decreases segs.len(),
{
    if segs.len() == 0 {
        if n.handlers.dom().contains(m) {
            n
        } else {
            RouterNode { handlers: n.handlers.insert(m, h), children: n.children }
        }
    } else {
        let key = route_key_of(segs[0]);
        let child = if n.children.dom().contains(key) {
            n.children[key]
        } else {
            empty_node()
        };
        RouterNode {
            handlers: n.handlers,
            children: n.children.insert(key, spec_register(child, segs.drop_first(), m, h)),
        }
    }
}

/// The model that results from one `get`/`post`/`delete` call: the route is
/// registered under the router's base segment if it has one, else at the
/// root.
pub open spec fn spec_route_added<H>(
    model: RouterModel<H>,
    segs: Seq<Seq<char>>,
    m: Method,
    h: H,
) -> RouterModel<H> {
    match model.base {
        None => RouterModel { base: model.base, node: spec_register(model.node, segs, m, h) },
        Some(b) => {
            let child = if model.node.children.dom().contains(b) {
                model.node.children[b]
            } else {
                empty_node()
            };
            RouterModel {
                base: model.base,
                node: RouterNode {
                    handlers: model.node.handlers,
                    children: model.node.children.insert(b, spec_register(child, segs, m, h)),
                },
            }
        },
    }
}

// ---------------------------------------------------------------------------
// Merging
// ---------------------------------------------------------------------------

/// The model that results from one `merge_from` call: the other router's
/// child entries are moved in, below this router's base segment if it has
/// one; on a key collision the moved entry replaces the old one; the other
/// router's root handlers are not taken over.
pub open spec fn spec_merge<H>(a: RouterModel<H>, other: RouterNode<H>) -> RouterModel<H> {
    match a.base {
        None => RouterModel {
            base: a.base,
            node: RouterNode {
                handlers: a.node.handlers,
                children: a.node.children.union_prefer_right(other.children),
            },
        },
        Some(b) => {
            let child = child_or_empty(a.node, b);
            RouterModel {
                base: a.base,
                node: RouterNode {
                    handlers: a.node.handlers,
                    children: a.node.children.insert(
                        b,
                        RouterNode {
                            handlers: child.handlers,
                            children: child.children.union_prefer_right(other.children),
                        },
                    ),
                },
            }
        },
    }
}

/// Binds a child under a key, replacing the entry that carried that key, if
/// any.
fn set_route<H>(routes: &mut Vec<(String, Router<H>)>, key: String, val: Router<H>)
    requires
        unique_route_keys(old(routes)@),
        forall|j: int| 0 <= j < old(routes)@.len() ==> wf_node(#[trigger] old(routes)@[j].1),
        wf_node(val),
    ensures
        unique_route_keys(final(routes)@),
        forall|j: int| 0 <= j < final(routes)@.len() ==> wf_node(#[trigger] final(routes)@[j].1),
        children_view(final(routes)@) == children_view(old(routes)@).insert(key@, node_view(val)),
{
    let ghost pre = routes@;
    match find_route_idx(routes, key.as_str()) {
        Some(i) => {
            proof {
                lemma_routes_after_remove(pre, i as int);
            }
            let _replaced = routes.remove(i);
            proof {
                assert(routes@ == pre.remove(i as int));
            }
        },
        None => {
            proof {
                lemma_cv_contains(pre, key@);
            }
        },
    }
    let ghost mid = routes@;
    proof {
        lemma_cv_push(mid, (key, val));
        assert(!has_route_key(mid, key@));
    }
    routes.push((key, val));
    proof {
        assert(routes@ == mid.push((key, val)));
        assert(unique_route_keys(routes@)) by {
            assert forall|a: int, b: int|
                0 <= a < b < routes@.len() implies routes@[a].0@ != routes@[b].0@ by {
                if b == routes@.len() - 1 {
                    assert(routes@[a] == mid[a]);
                    if routes@[a].0@ == key@ {
                        assert(has_route_key(mid, key@));
                    }
                } else {
                    assert(routes@[a] == mid[a]);
                    assert(routes@[b] == mid[b]);
                }
            }
        }
        assert(forall|j: int| 0 <= j < routes@.len() ==> wf_node(#[trigger] routes@[j].1)) by {
            assert(forall|j: int| 0 <= j < mid.len() ==> routes@[j] == mid[j]);
        }
        assert(children_view(routes@) =~= children_view(pre).insert(key@, node_view(val)));
    }
}

/// Moves every entry of `other` into `routes`, replacing entries whose keys
/// collide.
fn extend_routes<H>(routes: &mut Vec<(String, Router<H>)>, other: Vec<(String, Router<H>)>)
    requires
        unique_route_keys(old(routes)@),
        forall|j: int| 0 <= j < old(routes)@.len() ==> wf_node(#[trigger] old(routes)@[j].1),
        unique_route_keys(other@),
        forall|j: int| 0 <= j < other@.len() ==> wf_node(#[trigger] other@[j].1),
    ensures
        unique_route_keys(final(routes)@),
        forall|j: int| 0 <= j < final(routes)@.len() ==> wf_node(#[trigger] final(routes)@[j].1),
        children_view(final(routes)@) == children_view(old(routes)@).union_prefer_right(
            children_view(other@),
        ),
{
    let ghost orig = children_view(routes@);
    let ghost om = other@;
    let mut other = other;
    let ghost mut taken: int = 0;
    while other.len() > 0
        invariant
            0 <= taken <= om.len(),
            other@ == om.skip(taken),
            unique_route_keys(routes@),
            forall|j: int| 0 <= j < routes@.len() ==> wf_node(#[trigger] routes@[j].1),
            children_view(routes@) == orig.union_prefer_right(children_view(om.take(taken))),
            unique_route_keys(om),
            forall|j: int| 0 <= j < om.len() ==> wf_node(#[trigger] om[j].1),
        decreases other@.len(),
    {
        let ghost pre_other = other@;
        let pair = other.remove(0);
        proof {
            assert(pair == om[taken]);
            assert(other@ =~= om.skip(taken + 1));
        }
        set_route(routes, pair.0, pair.1);
        proof {
            let prev = children_view(om.take(taken));
            lemma_cv_push(om.take(taken), om[taken]);
            assert(om.take(taken + 1) =~= om.take(taken).push(om[taken]));
            taken = taken + 1;
            assert(children_view(om.take(taken)) == prev.insert(
                om[taken - 1].0@,
                node_view(om[taken - 1].1),
            ));
            assert(children_view(routes@) =~= orig.union_prefer_right(
                children_view(om.take(taken)),
            ));
        }
    }
    proof {
        assert(om.take(taken) =~= om);
    }
}

// ---------------------------------------------------------------------------
// Resolution
// ---------------------------------------------------------------------------

/// The outcome of looking a segment sequence and a method up in a node.
pub enum Resolution<H> {
    /// A handler was registered there, with the text of every dynamic
    /// segment traversed, in order.
    Found(H, Seq<Seq<char>>),
    /// The segments lead to a node, but no handler is registered there for
    /// the method.
    NoHandler,
    /// The segments lead out of the trie.
    NoPath,
}

/// Resolves a segment sequence and a method against a node. At each step a
/// literal child matching the segment is preferred; failing that, the
/// wildcard child is taken and the segment's text is captured; there is no
/// backtracking between the two.
pub open spec fn spec_resolve<H>(n: RouterNode<H>, segs: Seq<Seq<char>>, m: Method) -> Resolution<
    H,
>
    decreases segs.len(),
{
    if segs.len() == 0 {
        if n.handlers.dom().contains(m) {
            Resolution::Found(n.handlers[m], Seq::empty())
        } else {
            Resolution::NoHandler
        }
    } else if n.children.dom().contains(segs[0]) {
        spec_resolve(n.children[segs[0]], segs.drop_first(), m)
    } else if n.children.dom().contains(dyn_key()) {
        match spec_resolve(n.children[dyn_key()], segs.drop_first(), m) {
            Resolution::Found(h, caps) => Resolution::Found(h, seq![segs[0]] + caps),
            r => r,
        }
    } else {
        Resolution::NoPath
    }
}

/// The message reported when a node is reached but carries no handler for
/// the method.
pub open spec fn spec_no_handler_text(m: Method, endpoint: Seq<char>) -> Seq<char> {
    "No handler for "@ + spec_method_name(m) + " "@ + endpoint + " found."@
}

/// The message reported when no trie path matches the endpoint.
pub open spec fn spec_undefined_endpoint_text(endpoint: Seq<char>) -> Seq<char> {
    "Undefined endpoint "@ + endpoint + "."@
}

/// Why a lookup failed.
#[derive(Debug)]
pub enum RouteError {
    /// The request used a method outside the closed set; carries the
    /// offending token.
    UnknownMethod(String),
    /// The path led to a node with no handler registered for the method;
    /// carries the method and the original endpoint.
    NoHandlerForMethod(Method, String),
    /// No trie path matches the endpoint; carries the original endpoint.
    UndefinedEndpoint(String),
}

/// The descriptive text of a lookup failure.
pub open spec fn spec_error_text(e: RouteError) -> Seq<char> {
    match e {
        RouteError::UnknownMethod(t) => spec_undefined_method_text(t@),
        RouteError::NoHandlerForMethod(m, p) => spec_no_handler_text(m, p@),
        RouteError::UndefinedEndpoint(p) => spec_undefined_endpoint_text(p@),
    }
}

/// The message reported when a node is reached but carries no handler for
/// the method.
pub fn no_handler_error(method: &Method, endpoint: &str) -> (r: String)
    ensures
        r@ == spec_no_handler_text(*method, endpoint@),
{
    let r = String::from_str("No handler for ").concat((*method).as_str()).concat(" ").concat(
        endpoint,
    ).concat(" found.");
    proof {
        assert(r@ =~= spec_no_handler_text(*method, endpoint@));
    }
    r
}

/// The message reported when no trie path matches the endpoint.
pub fn undefined_endpoint_error(endpoint: &str) -> (r: String)
    ensures
        r@ == spec_undefined_endpoint_text(endpoint@),
{
    let r = String::from_str("Undefined endpoint ").concat(endpoint).concat(".");
    proof {
        assert(r@ =~= spec_undefined_endpoint_text(endpoint@));
    }
    r
}

impl RouteError {
    /// The descriptive text of this failure, as the dispatcher reports it.
    pub fn message(&self) -> (r: String)
        ensures
            r@ == spec_error_text(*self),
    {
        match self {
            RouteError::UnknownMethod(t) => {
                let r = String::from_str("Undefined method ").concat(t.as_str());
                proof {
                    assert(r@ =~= spec_error_text(*self));
                }
                r
            },
            RouteError::NoHandlerForMethod(m, p) => no_handler_error(m, p.as_str()),
            RouteError::UndefinedEndpoint(p) => undefined_endpoint_error(p.as_str()),
        }
    }
}

/// Why a resolution came back empty, before the endpoint text is attached.
enum Miss {
    NoHandler,
    NoPath,
}

/// Resolves the path segments from `depth` on against `node`, extending
/// `params` with the text of every dynamic segment traversed.
fn resolve_at<'a, H>(
    node: &'a Router<H>,
    path: &Vec<String>,
    depth: usize,
    method: Method,
    params: Vec<String>,
) -> (res: Result<(&'a H, Vec<String>), Miss>)
    requires
        wf_node(*node),
        depth <= path@.len(),
    ensures
        match spec_resolve(node_view(*node), path.deep_view().skip(depth as int), method) {
            Resolution::Found(h, caps) => res matches Ok((hr, ps)) && *hr == h && ps.deep_view()
                == params.deep_view() + caps,
            Resolution::NoHandler => res matches Err(Miss::NoHandler),
            Resolution::NoPath => res matches Err(Miss::NoPath),
        },
    decreases path@.len() - depth,
{
    let ghost segs = path.deep_view().skip(depth as int);
    if depth == path.len() {
        proof {
            assert(segs =~= Seq::<Seq<char>>::empty());
        }
        match find_handler_idx(&node.handlers, method) {
            Some(i) => {
                proof {
                    lemma_handler_at(node.handlers@, i as int);
                    assert(params.deep_view() + Seq::<Seq<char>>::empty() =~= params.deep_view());
                }
                Ok((&node.handlers[i].1, params))
            },
            None => Err(Miss::NoHandler),
        }
    } else {
        let seg = &path[depth];
        proof {
            assert(segs[0] == path.deep_view()[depth as int]);
            assert(segs.drop_first() =~= path.deep_view().skip(depth as int + 1));
        }
        match find_route_idx(&node.routes, seg.as_str()) {
            Some(i) => {
                proof {
                    lemma_cv_at(node.routes@, i as int);
                }
                resolve_at(&node.routes[i].1, path, depth + 1, method, params)
            },
            None => {
                proof {
                    lemma_cv_contains(node.routes@, seg@);
                }
                match find_route_idx(&node.routes, ":dyn") {
                    Some(j) => {
                        proof {
                            lemma_cv_at(node.routes@, j as int);
                        }
                        let ghost old_params = params.deep_view();
                        let mut params = params;
                        params.push(seg.clone());
                        proof {
                            assert(params.deep_view() =~= old_params.push(seg@));
                        }
                        let r = resolve_at(&node.routes[j].1, path, depth + 1, method, params);
                        proof {
                            let sub = spec_resolve(
                                node_view(node.routes@[j as int].1),
                                segs.drop_first(),
                                method,
                            );
                            match sub {
                                Resolution::Found(h, caps) => {
                                    assert(old_params.push(seg@) + caps =~= old_params + (seq![
                                        seg@,
                                    ] + caps));
                                },
                                Resolution::NoHandler => {},
                                Resolution::NoPath => {},
                            }
                        }
                        r
                    },
                    None => {
                        proof {
                            lemma_cv_contains(node.routes@, dyn_key());
                        }
                        Err(Miss::NoPath)
                    },
                }
            },
        }
    }
}

// ---------------------------------------------------------------------------
// Entry lookup
// ---------------------------------------------------------------------------

/// The position of a segment key among a node's child entries, if any.
fn find_route_idx<H>(routes: &Vec<(String, Router<H>)>, key: &str) -> (r: Option<usize>)
    ensures
        match r {
            Some(i) => i < routes@.len() && routes@[i as int].0@ == key@,
            None => !has_route_key(routes@, key@),
        },
{
    let mut i: usize = 0;
    while i < routes.len()
        invariant
            i <= routes@.len(),
            forall|j: int| 0 <= j < i ==> routes@[j].0@ != key@,
        decreases routes@.len() - i,
    {
        if str_eq(routes[i].0.as_str(), key) {
            return Some(i);
        }
        i = i + 1;
    }
    None
}

/// The position of a method among a node's handler entries, if any.
fn find_handler_idx<H>(handlers: &Vec<(Method, H)>, m: Method) -> (r: Option<usize>)
    ensures
        match r {
            Some(i) => i < handlers@.len() && handlers@[i as int].0 == m,
            None => !has_method(handlers@, m),
        },
{
    let mut i: usize = 0;
    while i < handlers.len()
        invariant
            i <= handlers@.len(),
            forall|j: int| 0 <= j < i ==> handlers@[j].0 != m,
        decreases handlers@.len() - i,
    {
        if handlers[i].0 == m {
            return Some(i);
        }
        i = i + 1;
    }
    None
}

/// A router with no entries at all denotes the empty node.
proof fn lemma_empty_router_view<H>(r: Router<H>)
    requires
        r.handlers@.len() == 0,
        r.routes@.len() == 0,
    ensures
        node_view(r) == empty_node::<H>(),
        wf_node(r),
{
    assert(node_view(r).handlers =~= empty_node::<H>().handlers);
    assert(node_view(r).children =~= empty_node::<H>().children);
    assert(node_view(r) =~~= empty_node::<H>());
}

/// Removing an entry keeps keys unique, removes its key, and keeps every
/// other entry.
proof fn lemma_remove_entries<H>(s: Seq<(String, Router<H>)>, i: int)
    requires
        unique_route_keys(s),
        0 <= i < s.len(),
    ensures
        unique_route_keys(s.remove(i)),
        !has_route_key(s.remove(i), s[i].0@),
        forall|j: int|
            0 <= j < s.remove(i).len() ==> #[trigger] s.remove(i)[j] == s[j] || s.remove(i)[j]
                == s[j + 1],
{
    s.remove_ensures(i);
    let t = s.remove(i);
    assert forall|j: int| 0 <= j < t.len() implies #[trigger] t[j] == s[j] || t[j] == s[j + 1] by {
        if j < i {
            assert(t[j] == s[j]);
        } else {
            assert(t[j] == s[j + 1]);
        }
    }
    assert forall|a: int, b: int| 0 <= a < b < t.len() implies t[a].0@ != t[b].0@ by {
        let a2: int = if a < i {
            a
        } else {
            a + 1
        };
        let b2: int = if b < i {
            b
        } else {
            b + 1
        };
        assert(t[a] == s[a2] && t[b] == s[b2]);
    }
    assert forall|j: int| 0 <= j < t.len() implies t[j].0@ != s[i].0@ by {
        if j < i {
            assert(t[j] == s[j]);
        } else {
            assert(t[j] == s[j + 1]);
        }
    }
    if has_route_key(t, s[i].0@) {
        let j = choose|j: int| 0 <= j < t.len() && t[j].0@ == s[i].0@;
        assert(false);
    }
}

/// Everything that holds of a node's child entries after removing the entry
/// carrying a given key.
proof fn lemma_routes_after_remove<H>(s: Seq<(String, Router<H>)>, i: int)
    requires
        unique_route_keys(s),
        0 <= i < s.len(),
        forall|j: int| 0 <= j < s.len() ==> wf_node(#[trigger] s[j].1),
    ensures
        unique_route_keys(s.remove(i)),
        !has_route_key(s.remove(i), s[i].0@),
        children_view(s.remove(i)) == children_view(s).remove(s[i].0@),
        node_view(s[i].1) == children_view(s)[s[i].0@],
        children_view(s).dom().contains(s[i].0@),
        wf_node(s[i].1),
        forall|j: int| 0 <= j < s.remove(i).len() ==> wf_node(#[trigger] s.remove(i)[j].1),
{
    lemma_cv_at(s, i);
    lemma_cv_remove(s, i);
    lemma_remove_entries(s, i);
    assert forall|j: int| 0 <= j < s.remove(i).len() implies wf_node(s.remove(i)[j].1) by {
        assert(s.remove(i)[j] == s[j] || s.remove(i)[j] == s[j + 1]);
    }
}

/// Whether a path segment is dynamic, i.e. begins with the capture marker.
fn is_dynamic(seg: &str) -> (r: bool)
    ensures
        r == (seg@.len() > 0 && seg@[0] == ':'),
{
    if seg.unicode_len() > 0 {
        seg.get_char(0) == ':'
    } else {
        false
    }
}

/// The child of a node under a key, or the empty node if there is none.
pub open spec fn child_or_empty<H>(n: RouterNode<H>, k: Seq<char>) -> RouterNode<H> {
    if n.children.dom().contains(k) {
        n.children[k]
    } else {
        empty_node()
    }
}

/// Registers a handler at the node reached from `node` along the path
/// segments from `depth` on, creating nodes as needed; at the terminal node
/// the first registration for a method wins.
fn add_at<H>(node: Router<H>, path: &Vec<String>, depth: usize, method: Method, handler: H) -> (r:
    Router<H>)
    requires
        depth <= path@.len(),
        wf_node(node),
    ensures
        wf_node(r),
        r.base == node.base,
        node_view(r) == spec_register(
            node_view(node),
            path.deep_view().skip(depth as int),
            method,
            handler,
        ),
    decreases path@.len() - depth, 0int,
{
    let ghost orig = node_view(node);
    let ghost segs = path.deep_view().skip(depth as int);
    let mut node = node;
    if depth == path.len() {
        proof {
            assert(segs =~= Seq::<Seq<char>>::empty());
        }
        match find_handler_idx(&node.handlers, method) {
            Some(_) => {
                proof {
                    assert(orig.handlers.dom().contains(method));
                }
            },
            None => {
                proof {
                    lemma_hv_push(node.handlers@, (method, handler));
                }
                let ghost old_handlers = node.handlers@;
                node.handlers.push((method, handler));
                proof {
                    assert(node.handlers@ == old_handlers.push((method, handler)));
                    assert(unique_methods(node.handlers@)) by {
                        assert forall|a: int, b: int|
                            0 <= a < b < node.handlers@.len() implies node.handlers@[a].0
                            != node.handlers@[b].0 by {
                            if b == node.handlers@.len() - 1 {
                                assert(node.handlers@[a] == old_handlers[a]);
                                if node.handlers@[a].0 == method {
                                    assert(has_method(old_handlers, method));
                                }
                            } else {
                                assert(node.handlers@[a] == old_handlers[a]);
                                assert(node.handlers@[b] == old_handlers[b]);
                            }
                        }
                    }
                    assert(node_view(node) =~~= spec_register(orig, segs, method, handler));
                }
            },
        }
        node
    } else {
        let ghost seg0 = path.deep_view()[depth as int];
        proof {
            assert(seg0 == path@[depth as int]@);
            assert(segs[0] == seg0);
            assert(segs.drop_first() =~= path.deep_view().skip(depth as int + 1));
        }
        let key: String = if is_dynamic(path[depth].as_str()) {
            String::from_str(":dyn")
        } else {
            path[depth].clone()
        };
        proof {
            assert(key@ == route_key_of(seg0));
        }
        let r = graft(node, key, path, depth + 1, method, handler);
        proof {
            assert(node_view(r) =~~= spec_register(orig, segs, method, handler));
        }
        r
    }
}

/// Detaches the child of `node` under `key` (or starts an empty one),
/// registers the handler inside it along the path segments from `depth` on,
/// and reattaches it.
fn graft<H>(
    node: Router<H>,
    key: String,
    path: &Vec<String>,
    depth: usize,
    method: Method,
    handler: H,
) -> (r: Router<H>)
    requires
        depth <= path@.len(),
        wf_node(node),
    ensures
        wf_node(r),
        r.base == node.base,
        r.handlers@ == node.handlers@,
        node_view(r) == (RouterNode {
            handlers: node_view(node).handlers,
            children: node_view(node).children.insert(
                key@,
                spec_register(
                    child_or_empty(node_view(node), key@),
                    path.deep_view().skip(depth as int),
                    method,
                    handler,
                ),
            ),
        }),
    decreases path@.len() - depth, 1int,
{
    let ghost orig = node_view(node);
    let mut node = node;
    let ghost spec_child = child_or_empty(orig, key@);
    let ghost pre_routes = node.routes@;
    let child: Router<H> = match find_route_idx(&node.routes, key.as_str()) {
        Some(i) => {
            proof {
                lemma_routes_after_remove(pre_routes, i as int);
            }
            let pair = node.routes.remove(i);
            proof {
                assert(node.routes@ == pre_routes.remove(i as int));
            }
            pair.1
        },
        None => {
            proof {
                lemma_cv_contains(pre_routes, key@);
            }
            Router { base: None, handlers: Vec::new(), routes: Vec::new() }
        },
    };
    proof {
        if !orig.children.dom().contains(key@) {
            lemma_empty_router_view(child);
        }
        assert(node_view(child) == spec_child);
        assert(wf_node(child));
        assert(!has_route_key(node.routes@, key@));
        assert(unique_route_keys(node.routes@));
        assert(forall|j: int| 0 <= j < node.routes@.len() ==> wf_node(
            #[trigger] node.routes@[j].1,
        ));
        assert(children_view(node.routes@) =~= orig.children.remove(key@)) by {
            if !orig.children.dom().contains(key@) {
                assert(children_view(node.routes@) =~= orig.children);
            }
        }
    }
    let ghost mid_routes = node.routes@;
    let child2 = add_at(child, path, depth, method, handler);
    proof {
        lemma_cv_push(mid_routes, (key, child2));
    }
    node.routes.push((key, child2));
    proof {
        assert(node.routes@ == mid_routes.push((key, child2)));
        assert(unique_route_keys(node.routes@)) by {
            assert forall|a: int, b: int|
                0 <= a < b < node.routes@.len() implies node.routes@[a].0@
                != node.routes@[b].0@ by {
                if b == node.routes@.len() - 1 {
                    assert(node.routes@[a] == mid_routes[a]);
                    if node.routes@[a].0@ == key@ {
                        assert(has_route_key(mid_routes, key@));
                    }
                } else {
                    assert(node.routes@[a] == mid_routes[a]);
                    assert(node.routes@[b] == mid_routes[b]);
                }
            }
        }
        assert(forall|j: int| 0 <= j < node.routes@.len() ==> wf_node(
            #[trigger] node.routes@[j].1,
        )) by {
            assert(forall|j: int| 0 <= j < mid_routes.len() ==> node.routes@[j] == mid_routes[j]);
        }
        assert(children_view(node.routes@) =~= orig.children.insert(key@, node_view(child2)));
    }
    node
}

impl<H> View for Router<H> {
    type V = RouterModel<H>;

    open spec fn view(&self) -> RouterModel<H> {
        RouterModel {
            base: match self.base {
                Option::None => None,
                Option::Some(ref b) => Some(b@),
            },
            node: node_view(*self),
        }
    }
}

impl<H> Router<H> {
    /// Well-formedness of the whole trie.
    pub open spec fn wf(&self) -> bool {
        wf_node(*self)
    }

    /// Creates a new `Router`.
    ///
    /// `base` is a path that will precede all paths registered in this
    /// router: it must be empty (meaning the root) or start with `/`, and
    /// the segment between the leading `/` and the following one, if
    /// non-empty, becomes the base segment.
    pub fn new(base: &str) -> (r: Self)
        requires
            base@.len() == 0 || base@[0] == '/',
        ensures
            r.wf(),
            r@.base == spec_base(base@),
            r@.node == empty_node::<H>(),
    {
        let n = base.unicode_len();
        let parsed: Option<String> = if n == 0 {
            None
        } else {
            let mut k: usize = 1;
            while k < n && base.get_char(k) != '/'
                invariant
                    1 <= k <= n,
                    n == base@.len(),
                    forall|j: int| 1 <= j < k ==> base@[j] != '/',
                decreases n - k,
            {
                k = k + 1;
            }
            proof {
                lemma_prefix_len_at(base@.drop_first(), k - 1);
            }
            if k == 1 {
                None
            } else {
                let seg = base.substring_char(1, k);
                proof {
                    assert(seg@ =~= base@.drop_first().take(k - 1));
                }
                Some(seg.to_owned())
            }
        };
        let r = Router { base: parsed, handlers: Vec::new(), routes: Vec::new() };
        proof {
            assert(node_view(r).handlers =~~= empty_node::<H>().handlers);
            assert(node_view(r).children =~~= empty_node::<H>().children);
            assert(node_view(r) =~~= empty_node::<H>());
        }
        r
    }

    /// Add GET method handler for a specified endpoint (a path relative to
    /// the base).
    pub fn get(self, endpoint: &str, handler: H) -> (r: Self)
        requires
            self.wf(),
        ensures
            r.wf(),
            r@ == spec_route_added(self@, split_path(endpoint@), Method::Get, handler),
    {
        self.add_route(endpoint, Method::Get, handler)
    }

    /// Add POST method handler for a specified endpoint (a path relative to
    /// the base).
    pub fn post(self, endpoint: &str, handler: H) -> (r: Self)
        requires
            self.wf(),
        ensures
            r.wf(),
            r@ == spec_route_added(self@, split_path(endpoint@), Method::Post, handler),
    {
        self.add_route(endpoint, Method::Post, handler)
    }

    /// Add DELETE method handler for a specified endpoint (a path relative
    /// to the base).
    pub fn delete(self, endpoint: &str, handler: H) -> (r: Self)
        requires
            self.wf(),
        ensures
            r.wf(),
            r@ == spec_route_added(self@, split_path(endpoint@), Method::Delete, handler),
    {
        self.add_route(endpoint, Method::Delete, handler)
    }

    /// Merges all routes from another router into the current one, nesting
    /// them below this router's base segment if it has one. The other
    /// router's root handlers are not taken over, and on a key collision the
    /// moved entry replaces the old one.
    ///
    /// The current router takes ownership of the other router's routes.
    pub fn merge_from(self, other_router: Router<H>) -> (r: Self)
        requires
            self.wf(),
            other_router.wf(),
        ensures
            r.wf(),
            r@ == spec_merge(self@, node_view(other_router)),
    {
        let ghost model = self@;
        let ghost other_node = node_view(other_router);
        let mut me = self;
        let other_routes = other_router.routes;
        proof {
            assert(children_view(other_routes@) == other_node.children);
        }
        let base_clone: Option<String> = match &me.base {
            None => None,
            Some(b) => Some(b.clone()),
        };
        match base_clone {
            None => {
                extend_routes(&mut me.routes, other_routes);
                proof {
                    assert(me@ =~~= spec_merge(model, other_node));
                }
                me
            },
            Some(bk) => {
                let ghost pre = me.routes@;
                let mut child: Router<H> = match find_route_idx(&me.routes, bk.as_str()) {
                    Some(i) => {
                        proof {
                            lemma_routes_after_remove(pre, i as int);
                        }
                        let pair = me.routes.remove(i);
                        proof {
                            assert(me.routes@ == pre.remove(i as int));
                        }
                        pair.1
                    },
                    None => {
                        proof {
                            lemma_cv_contains(pre, bk@);
                        }
                        Router { base: None, handlers: Vec::new(), routes: Vec::new() }
                    },
                };
                proof {
                    if !model.node.children.dom().contains(bk@) {
                        lemma_empty_router_view(child);
                    }
                    assert(node_view(child) == child_or_empty(model.node, bk@));
                    assert(wf_node(child));
                    assert(!has_route_key(me.routes@, bk@));
                    assert(unique_route_keys(me.routes@));
                    assert(forall|j: int| 0 <= j < me.routes@.len() ==> wf_node(
                        #[trigger] me.routes@[j].1,
                    ));
                    assert(children_view(me.routes@) =~= model.node.children.remove(bk@)) by {
                        if !model.node.children.dom().contains(bk@) {
                            assert(children_view(me.routes@) =~= model.node.children);
                        }
                    }
                }
                extend_routes(&mut child.routes, other_routes);
                let ghost childv = node_view(child);
                let ghost bkv = bk@;
                proof {
                    assert(wf_node(child));
                }
                let ghost mid = me.routes@;
                proof {
                    lemma_cv_push(mid, (bk, child));
                }
                me.routes.push((bk, child));
                proof {
                    assert(me.routes@.drop_last() == mid && me.routes@.last().0@ == bkv
                        && node_view(me.routes@.last().1) == childv);
                    assert(unique_route_keys(me.routes@)) by {
                        assert forall|a: int, b: int|
                            0 <= a < b < me.routes@.len() implies me.routes@[a].0@
                            != me.routes@[b].0@ by {
                            if b == me.routes@.len() - 1 {
                                assert(me.routes@[a] == mid[a]);
                                if me.routes@[a].0@ == bkv {
                                    assert(has_route_key(mid, bkv));
                                }
                            } else {
                                assert(me.routes@[a] == mid[a]);
                                assert(me.routes@[b] == mid[b]);
                            }
                        }
                    }
                    assert(forall|j: int| 0 <= j < me.routes@.len() ==> wf_node(
                        #[trigger] me.routes@[j].1,
                    )) by {
                        assert(forall|j: int| 0 <= j < mid.len() ==> me.routes@[j] == mid[j]);
                    }
                    assert(children_view(me.routes@) =~= model.node.children.insert(bkv, childv));
                    assert(me@ =~~= spec_merge(model, other_node));
                }
                me
            },
        }
    }

    /// Returns the handler registered for the endpoint and method, with the
    /// text of every dynamic segment traversed, in order; else says whether
    /// the method token, the method at that node, or the path itself was at
    /// fault.
    pub fn get_handler<'a>(&'a self, endpoint: &str, method: &str) -> (res: Result<
        (&'a H, Vec<String>),
        RouteError,
    >)
        requires
            self.wf(),
        ensures
            match spec_parse_method(method@) {
                None => res matches Err(RouteError::UnknownMethod(t)) && t@ == method@,
                Some(m) => match spec_resolve(self@.node, split_path(endpoint@), m) {
                    Resolution::Found(h, caps) => res matches Ok((hr, ps)) && *hr == h
                        && ps.deep_view() == caps,
                    Resolution::NoHandler => res matches Err(RouteError::NoHandlerForMethod(
                        m2,
                        p,
                    )) && m2 == m && p@ == endpoint@,
                    Resolution::NoPath => res matches Err(RouteError::UndefinedEndpoint(p)) && p@
                        == endpoint@,
                },
            },
    {
        let m = match Method::from_str(method) {
            Ok(m) => m,
            Err(_) => {
                return Err(RouteError::UnknownMethod(String::from_str(method)));
            },
        };
        let path = get_path(endpoint);
        proof {
            assert(path.deep_view().skip(0) =~= path.deep_view());
        }
        let empty_params: Vec<String> = Vec::new();
        let ghost ep = empty_params.deep_view();
        match resolve_at(self, &path, 0, m, empty_params) {
            Ok((h, ps)) => {
                proof {
                    let caps = spec_resolve(self@.node, split_path(endpoint@), m)->Found_1;
                    assert(ep =~= Seq::<Seq<char>>::empty());
                    assert(ep + caps =~= caps);
                }
                Ok((h, ps))
            },
            Err(Miss::NoHandler) => Err(
                RouteError::NoHandlerForMethod(m, String::from_str(endpoint)),
            ),
            Err(Miss::NoPath) => Err(RouteError::UndefinedEndpoint(String::from_str(endpoint))),
        }
    }

    /// Registers a handler for a method under an endpoint, nesting it below
    /// this router's base segment if it has one.
    fn add_route(self, endpoint: &str, method: Method, handler: H) -> (r: Self)
        requires
            self.wf(),
        ensures
            r.wf(),
            r@ == spec_route_added(self@, split_path(endpoint@), method, handler),
    {
        let ghost model = self@;
        let path = get_path(endpoint);
        proof {
            assert(path.deep_view().skip(0) =~= path.deep_view());
        }
        let base_clone: Option<String> = match &self.base {
            None => None,
            Some(b) => Some(b.clone()),
        };
        match base_clone {
            None => {
                let r = add_at(self, &path, 0, method, handler);
                proof {
                    assert(r@ =~~= spec_route_added(model, split_path(endpoint@), method, handler));
                }
                r
            },
            Some(bk) => {
                let r = graft(self, bk, &path, 0, method, handler);
                proof {
                    assert(r@ =~~= spec_route_added(model, split_path(endpoint@), method, handler));
                }
                r
            },
        }
    }
}

/// `prefix_len` is the position of the first `'/'`, or the length if none
/// occurs.
proof fn lemma_prefix_len_at(s: Seq<char>, k: int)
    requires
        0 <= k <= s.len(),
        forall|j: int| 0 <= j < k ==> s[j] != '/',
        k == s.len() || s[k] == '/',
    ensures
        prefix_len(s) == k,
    decreases k,
{
    if k == 0 {
    } else {
        lemma_prefix_len_at(s.drop_first(), k - 1);
    }
}

} // verus!
