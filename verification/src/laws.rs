//! The laws the router obeys, stated over its mathematical model and proved
//! once and for all. Registration is `spec_register` (what `get`, `post` and
//! `delete` do below the base), merging is `spec_merge` (what `merge_from`
//! does), and lookup is `spec_resolve` (what `get_handler` does).

use vstd::prelude::*;

use crate::method::Method;
use crate::router::{
    route_key_of,
    child_or_empty, dyn_key, empty_node, spec_merge, spec_register, spec_resolve, Resolution,
    RouterModel, RouterNode,
};

verus! {

/// The handler stored for a method at the node reached by following literal
/// children only, if both the node and the handler exist.
pub open spec fn literal_handler_at<H>(n: RouterNode<H>, segs: Seq<Seq<char>>, m: Method) -> Option<
    H,
>
    decreases segs.len(),
{
    if segs.len() == 0 {
        if n.handlers.dom().contains(m) {
            Some(n.handlers[m])
        } else {
            None
        }
    } else if n.children.dom().contains(segs[0]) {
        literal_handler_at(n.children[segs[0]], segs.drop_first(), m)
    } else {
        None
    }
}

/// Law: registering a handler under a path of literal segments and then
/// resolving that same path returns exactly that handler, with no captured
/// parameters — provided no handler already occupied the spot (the first
/// registration wins).
pub proof fn lemma_register_then_resolve_literal<H>(
    n: RouterNode<H>,
    segs: Seq<Seq<char>>,
    m: Method,
    h: H,
)
    requires
        forall|i: int|
            #![trigger segs[i]]
            0 <= i < segs.len() ==> segs[i].len() > 0 && segs[i][0] != ':',
        literal_handler_at(n, segs, m) is None,
    ensures
        spec_resolve(spec_register(n, segs, m, h), segs, m) == Resolution::Found(
            h,
            Seq::<Seq<char>>::empty(),
        ),
    decreases segs.len(),
{
    if segs.len() == 0 {
        assert(!n.handlers.dom().contains(m));
    } else {
        let child = child_or_empty(n, segs[0]);
        let rest = segs.drop_first();
        assert(segs[0].len() > 0 && segs[0][0] != ':');
        assert(forall|i: int|
            #![trigger rest[i]]
            0 <= i < rest.len() ==> rest[i] == segs[i + 1]);
        assert(literal_handler_at(child, rest, m) is None) by {
            if !n.children.dom().contains(segs[0]) {
                if rest.len() == 0 {
                } else {
                }
            }
        }
        lemma_register_then_resolve_literal(child, rest, m, h);
        let n2 = spec_register(n, segs, m, h);
        assert(n2.children.dom().contains(segs[0]));
        assert(n2.children[segs[0]] == spec_register(child, rest, m, h));
    }
}

/// Law: literal precedence without backtracking. When a literal child for
/// the first segment exists, resolution commits to it — the result is
/// exactly the resolution inside that child, with nothing captured, whether
/// or not it succeeds and whatever a wildcard sibling would have said.
pub proof fn lemma_literal_precedence<H>(n: RouterNode<H>, segs: Seq<Seq<char>>, m: Method)
    requires
        segs.len() > 0,
        n.children.dom().contains(segs[0]),
    ensures
        spec_resolve(n, segs, m) == spec_resolve(n.children[segs[0]], segs.drop_first(), m),
{
}

/// The concrete segment texts standing at the pattern's dynamic positions,
/// in order.
pub open spec fn captured_values(pattern: Seq<Seq<char>>, concrete: Seq<Seq<char>>) -> Seq<
    Seq<char>,
>
    decreases pattern.len(),
{
    if pattern.len() == 0 || concrete.len() == 0 {
        Seq::empty()
    } else {
        let rest = captured_values(pattern.drop_first(), concrete.drop_first());
        if pattern[0].len() > 0 && pattern[0][0] == ':' {
            seq![concrete[0]] + rest
        } else {
            rest
        }
    }
}

/// Law: a route registered into an empty node resolves every matching path,
/// capturing exactly the text of the segments at the pattern's dynamic
/// positions, in order. A path matches when it has the pattern's length,
/// agrees with it at the literal positions, and does not spell the reserved
/// wildcard key at a dynamic position.
pub proof fn lemma_wildcard_capture<H>(
    pattern: Seq<Seq<char>>,
    concrete: Seq<Seq<char>>,
    m: Method,
    h: H,
)
    requires
        pattern.len() == concrete.len(),
        forall|i: int| #![trigger pattern[i]] 0 <= i < pattern.len() ==> pattern[i].len() > 0,
        forall|i: int|
            #![trigger pattern[i], concrete[i]]
            0 <= i < pattern.len() ==> if pattern[i][0] == ':' {
                concrete[i] != dyn_key()
            } else {
                concrete[i] == pattern[i]
            },
    ensures
        spec_resolve(spec_register(empty_node::<H>(), pattern, m, h), concrete, m)
            == Resolution::Found(h, captured_values(pattern, concrete)),
    decreases pattern.len(),
{
    if pattern.len() == 0 {
        let n2 = spec_register(empty_node::<H>(), pattern, m, h);
        assert(n2.handlers[m] == h);
    } else {
        let prest = pattern.drop_first();
        let crest = concrete.drop_first();
        assert(forall|i: int|
            #![trigger prest[i]]
            0 <= i < prest.len() ==> prest[i] == pattern[i + 1]);
        assert(forall|i: int|
            #![trigger crest[i]]
            0 <= i < crest.len() ==> crest[i] == concrete[i + 1]);
        lemma_wildcard_capture::<H>(prest, crest, m, h);
        let n2 = spec_register(empty_node::<H>(), pattern, m, h);
        let sub = spec_register(empty_node::<H>(), prest, m, h);
        if pattern[0][0] == ':' {
            assert(n2.children.dom().contains(dyn_key()));
            assert(!n2.children.dom().contains(concrete[0]));
            assert(n2.children[dyn_key()] == sub);
        } else {
            assert(n2.children.dom().contains(concrete[0]));
            assert(n2.children[concrete[0]] == sub);
        }
    }
}

/// Whether a handler is already registered for a method at the node a
/// segment sequence leads to, following registration's own key mapping.
pub open spec fn registered_at<H>(n: RouterNode<H>, segs: Seq<Seq<char>>, m: Method) -> bool
    decreases segs.len(),
{
    if segs.len() == 0 {
        n.handlers.dom().contains(m)
    } else {
        let key = route_key_of(segs[0]);
        n.children.dom().contains(key) && registered_at(n.children[key], segs.drop_first(), m)
    }
}

/// After a registration, its spot is occupied.
proof fn lemma_registered_after_register<H>(n: RouterNode<H>, segs: Seq<Seq<char>>, m: Method, h: H)
    ensures
        registered_at(spec_register(n, segs, m, h), segs, m),
    decreases segs.len(),
{
    if segs.len() == 0 {
    } else {
        let key = route_key_of(segs[0]);
        let child = child_or_empty(n, key);
        lemma_registered_after_register(child, segs.drop_first(), m, h);
    }
}

/// Registering into an occupied spot changes nothing.
proof fn lemma_register_occupied_noop<H>(n: RouterNode<H>, segs: Seq<Seq<char>>, m: Method, h: H)
    requires
        registered_at(n, segs, m),
    ensures
        spec_register(n, segs, m, h) == n,
    decreases segs.len(),
{
    if segs.len() == 0 {
    } else {
        let key = route_key_of(segs[0]);
        let child = n.children[key];
        lemma_register_occupied_noop(child, segs.drop_first(), m, h);
        assert(n.children.insert(key, child) =~= n.children);
        assert(spec_register(n, segs, m, h) =~~= n);
    }
}

/// Law: the first registration wins. Registering a second handler under a
/// path and method already taken is silently ignored — the router is left
/// exactly as the first registration built it.
pub proof fn lemma_first_registration_wins<H>(
    n: RouterNode<H>,
    segs: Seq<Seq<char>>,
    m: Method,
    h1: H,
    h2: H,
)
    ensures
        spec_register(spec_register(n, segs, m, h1), segs, m, h2) == spec_register(n, segs, m, h1),
{
    lemma_registered_after_register(n, segs, m, h1);
    lemma_register_occupied_noop(spec_register(n, segs, m, h1), segs, m, h2);
}

/// Law: after merging router B into router A (whose base is `b0`), a path
/// that enters B's trie through one of B's own child segments resolves
/// under `b0` exactly as it resolves in B.
pub proof fn lemma_merge_reachable<H>(
    a: RouterModel<H>,
    other: RouterNode<H>,
    b0: Seq<char>,
    segs: Seq<Seq<char>>,
    m: Method,
)
    requires
        a.base == Some(b0),
        segs.len() > 0,
        other.children.dom().contains(segs[0]),
    ensures
        spec_resolve(spec_merge(a, other).node, seq![b0] + segs, m) == spec_resolve(
            other,
            segs,
            m,
        ),
{
    let full = seq![b0] + segs;
    let merged = spec_merge(a, other).node;
    assert(full[0] == b0);
    assert(full.drop_first() =~= segs);
    assert(merged.children.dom().contains(b0));
    let mc = merged.children[b0];
    assert(mc.children.dom().contains(segs[0]));
    assert(mc.children[segs[0]] == other.children[segs[0]]);
    assert(spec_resolve(merged, full, m) == spec_resolve(mc, segs, m));
}

/// Law: merging does not make B's routes reachable at A's root. A path
/// whose first segment A does not know — and which is neither A's base nor
/// the wildcard key, with no wildcard child at A's root — still fails with
/// an undefined endpoint after the merge.
pub proof fn lemma_merge_not_at_root<H>(
    a: RouterModel<H>,
    other: RouterNode<H>,
    b0: Seq<char>,
    segs: Seq<Seq<char>>,
    m: Method,
)
    requires
        a.base == Some(b0),
        segs.len() > 0,
        !a.node.children.dom().contains(segs[0]),
        !a.node.children.dom().contains(dyn_key()),
        segs[0] != b0,
        b0 != dyn_key(),
    ensures
        spec_resolve(spec_merge(a, other).node, segs, m) == Resolution::<H>::NoPath,
{
    let merged = spec_merge(a, other).node;
    assert(!merged.children.dom().contains(segs[0]));
    assert(!merged.children.dom().contains(dyn_key()));
}

} // verus!
