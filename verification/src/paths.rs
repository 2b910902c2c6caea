//! Walks and reachability over an adjacency relation.

use vstd::prelude::*;

verus! {

/// `p` is a non-empty sequence of nodes in which each one is adjacent to the
/// next.
pub open spec fn is_walk<T>(adj: spec_fn(T, T) -> bool, p: Seq<T>) -> bool {
    &&& p.len() > 0
    &&& forall|i: int| 0 <= i < p.len() - 1 ==> adj(#[trigger] p[i], p[i + 1])
}

/// `p` is a walk that starts at `a` and ends at `b`.
pub open spec fn walk_between<T>(adj: spec_fn(T, T) -> bool, p: Seq<T>, a: T, b: T) -> bool {
    is_walk(adj, p) && p[0] == a && p[p.len() - 1] == b
}

/// Some walk leads from `a` to `b`. Every node reaches itself.
pub open spec fn reaches<T>(adj: spec_fn(T, T) -> bool, a: T, b: T) -> bool {
    exists|p: Seq<T>| #[trigger] walk_between(adj, p, a, b)
}

/// The relation holds both ways or not at all.
pub open spec fn symmetric<T>(adj: spec_fn(T, T) -> bool) -> bool {
    forall|a: T, b: T| #[trigger] adj(a, b) ==> adj(b, a)
}

/// No step of the relation leaves `s`.
pub open spec fn closed_under<T>(adj: spec_fn(T, T) -> bool, s: Set<T>) -> bool {
    forall|a: T, b: T| s.contains(a) && #[trigger] adj(a, b) ==> s.contains(b)
}

/// Every node reaches itself.
pub proof fn lemma_reaches_self<T>(adj: spec_fn(T, T) -> bool, a: T)
    ensures
        reaches(adj, a, a),
{
    assert(walk_between(adj, seq![a], a, a));
}

/// A walk can be extended by one step.
pub proof fn lemma_reaches_step<T>(adj: spec_fn(T, T) -> bool, a: T, b: T, c: T)
    requires
        reaches(adj, a, b),
        adj(b, c),
    ensures
        reaches(adj, a, c),
{
    let p = choose|p: Seq<T>| #[trigger] walk_between(adj, p, a, b);
    let q = p.push(c);
    assert forall|i: int| 0 <= i < q.len() - 1 implies adj(#[trigger] q[i], q[i + 1]) by {
        if i < p.len() - 1 {
            assert(q[i] == p[i]);
            assert(q[i + 1] == p[i + 1]);
        }
    }
    assert(walk_between(adj, q, a, c));
}

/// Two walks that meet can be joined.
pub proof fn lemma_reaches_trans<T>(adj: spec_fn(T, T) -> bool, a: T, b: T, c: T)
    requires
        reaches(adj, a, b),
        reaches(adj, b, c),
    ensures
        reaches(adj, a, c),
{
    let q = choose|q: Seq<T>| #[trigger] walk_between(adj, q, b, c);
    lemma_walk_prefix_reached(adj, a, q, q.len() - 1);
}

/// Whatever reaches the start of a walk reaches each node on it.
proof fn lemma_walk_prefix_reached<T>(adj: spec_fn(T, T) -> bool, a: T, q: Seq<T>, k: int)
    requires
        is_walk(adj, q),
        reaches(adj, a, q[0]),
        0 <= k < q.len(),
    ensures
        reaches(adj, a, q[k]),
    decreases k,
{
    if k > 0 {
        lemma_walk_prefix_reached(adj, a, q, k - 1);
        assert(adj(q[k - 1], q[k - 1 + 1]));
        lemma_reaches_step(adj, a, q[k - 1], q[k]);
    }
}

/// Over a symmetric relation a walk can be taken backwards.
pub proof fn lemma_reaches_sym<T>(adj: spec_fn(T, T) -> bool, a: T, b: T)
    requires
        symmetric(adj),
        reaches(adj, a, b),
    ensures
        reaches(adj, b, a),
{
    let p = choose|p: Seq<T>| #[trigger] walk_between(adj, p, a, b);
    lemma_walk_back(adj, p, p.len() - 1);
}

proof fn lemma_walk_back<T>(adj: spec_fn(T, T) -> bool, p: Seq<T>, k: int)
    requires
        symmetric(adj),
        is_walk(adj, p),
        0 <= k < p.len(),
    ensures
        reaches(adj, p[k], p[0]),
    decreases k,
{
    if k == 0 {
        lemma_reaches_self(adj, p[0]);
    } else {
        lemma_walk_back(adj, p, k - 1);
        assert(adj(p[k - 1], p[k - 1 + 1]));
        assert(adj(p[k], p[k - 1]));
        lemma_reaches_self(adj, p[k]);
        lemma_reaches_step(adj, p[k], p[k], p[k - 1]);
        lemma_reaches_trans(adj, p[k], p[k - 1], p[0]);
    }
}

/// A walk that starts inside a closed set never leaves it.
pub proof fn lemma_closed_holds_reached<T>(adj: spec_fn(T, T) -> bool, s: Set<T>, a: T, b: T)
    requires
        closed_under(adj, s),
        s.contains(a),
        reaches(adj, a, b),
    ensures
        s.contains(b),
{
    let p = choose|p: Seq<T>| #[trigger] walk_between(adj, p, a, b);
    lemma_walk_stays(adj, s, p, p.len() - 1);
}

proof fn lemma_walk_stays<T>(adj: spec_fn(T, T) -> bool, s: Set<T>, p: Seq<T>, k: int)
    requires
        closed_under(adj, s),
        is_walk(adj, p),
        s.contains(p[0]),
        0 <= k < p.len(),
    ensures
        s.contains(p[k]),
    decreases k,
{
    if k > 0 {
        lemma_walk_stays(adj, s, p, k - 1);
        assert(adj(p[k - 1], p[k - 1 + 1]));
    }
}

/// A walk that starts inside a closed set is a walk over every relation
/// that agrees with the first inside the set.
pub proof fn lemma_reaches_within<T>(
    adj: spec_fn(T, T) -> bool,
    inner: spec_fn(T, T) -> bool,
    s: Set<T>,
    a: T,
    b: T,
)
    requires
        closed_under(adj, s),
        s.contains(a),
        forall|x: T, y: T| s.contains(x) && s.contains(y) && #[trigger] adj(x, y) ==> inner(x, y),
        reaches(adj, a, b),
    ensures
        reaches(inner, a, b),
{
    let p = choose|p: Seq<T>| #[trigger] walk_between(adj, p, a, b);
    assert forall|i: int| 0 <= i < p.len() - 1 implies inner(#[trigger] p[i], p[i + 1]) by {
        lemma_walk_stays(adj, s, p, i);
        lemma_walk_stays(adj, s, p, i + 1);
        assert(adj(p[i], p[i + 1]));
    }
    assert(walk_between(inner, p, a, b));
}

} // verus!
