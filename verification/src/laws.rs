//! The graph's laws: what follows from the contracts of evaluation and
//! invalidation, stated and proved once for every caller.

use vstd::prelude::*;

use crate::graph::bump;
use crate::graph::clean_reach;
use crate::graph::compute_post;
use crate::graph::update_post;
use crate::graph::Graph;
use crate::graph::Thunk;

verus! {

/// Leaf stability: a leaf node holding `v` evaluates to `v`, under any
/// argument vector, and is still the same leaf afterwards; only an update
/// can change what it returns.
pub proof fn lemma_leaf_stable<V, C>(
    g0: Graph<V, C>,
    g1: Graph<V, C>,
    i: int,
    ks: Seq<u64>,
    r: Option<V>,
    v: V,
)
    requires
        g0.wf(),
        g0.valid(i),
        g0.thunk_of(i) == Some(Thunk::<V, C>::Leaf(v)),
        compute_post(g0, g1, i, ks, r),
    ensures
        r == Some(v),
        g1.thunk_of(i) == Some(Thunk::<V, C>::Leaf(v)),
{
    if g0.is_clean(i) && g0.memo_of(i).contains_key(ks) {
        assert(g0.memo_of(i)[ks] == v);
    } else {
        assert(g1.memo_of(i) == g0.memo_of(i).insert(ks, v));
    }
}

/// Memoization: evaluating the same node twice in a row under the same
/// cache key returns the same value both times, and the second evaluation
/// changes nothing at all -- it is served from the cache, not re-derived.
pub proof fn lemma_compute_idempotent<V, C>(
    g0: Graph<V, C>,
    g1: Graph<V, C>,
    g2: Graph<V, C>,
    i: int,
    ks: Seq<u64>,
    r1: Option<V>,
    r2: Option<V>,
)
    requires
        g0.wf(),
        compute_post(g0, g1, i, ks, r1),
        compute_post(g1, g2, i, ks, r2),
    ensures
        g2 == g1,
        r2 == r1,
{
    if g0.valid(i) && !(g0.is_clean(i) && g0.memo_of(i).contains_key(ks)) && g0.thunk_of(
        i,
    ) is Some {
        assert(g1.valid(i));
        assert(g1.is_clean(i) && g1.memo_of(i).contains_key(ks));
        assert(r1 == Some(g1.memo_of(i)[ks]));
    }
}

/// Invalidation reaches every transitive dependent: after an update of `y`,
/// a node that read `y` -- directly or through other nodes -- while it was
/// last derived has lost its clean flag and its whole cache, and has
/// counted exactly one more dirtying; so its next evaluation re-derives it.
pub proof fn lemma_dependent_invalidated<V, C>(
    g0: Graph<V, C>,
    g1: Graph<V, C>,
    y: int,
    val: V,
    x: int,
)
    requires
        g0.wf(),
        g0.valid(y),
        g0.valid(x),
        update_post(g0, g1, y, val),
        clean_reach(g0, y, x),
    ensures
        !g1.is_clean(x),
        g1.memo_of(x) == Map::<Seq<u64>, V>::empty(),
        g1.dirtied_of(x) == bump(g0.dirtied_of(x)),
{
}

/// Invalidation reaches nothing else: a node with no clean dependent path
/// from the updated node keeps its state entirely, and evaluating it right
/// afterwards on a previously cached key returns the old cached value and
/// changes nothing.
pub proof fn lemma_unrelated_unaffected<V, C>(
    g0: Graph<V, C>,
    g1: Graph<V, C>,
    g2: Graph<V, C>,
    y: int,
    val: V,
    z: int,
    ks: Seq<u64>,
    r: Option<V>,
)
    requires
        g0.wf(),
        g0.valid(y),
        g0.valid(z),
        update_post(g0, g1, y, val),
        !clean_reach(g0, y, z),
        g0.is_clean(z),
        g0.memo_of(z).contains_key(ks),
        compute_post(g1, g2, z, ks, r),
    ensures
        r == Some(g0.memo_of(z)[ks]),
        g2 == g1,
{
    assert(g1.is_clean(z));
    assert(g1.memo_of(z) == g0.memo_of(z));
}

/// After invalidation has reached `x`, evaluating `x` cannot be served from
/// its cache: the node is re-derived and ends clean with a fresh entry for
/// the evaluation's key.
pub proof fn lemma_invalidated_recomputes<V, C>(
    g0: Graph<V, C>,
    g1: Graph<V, C>,
    g2: Graph<V, C>,
    y: int,
    val: V,
    x: int,
    ks: Seq<u64>,
    r: Option<V>,
)
    requires
        g0.wf(),
        g0.valid(y),
        g0.valid(x),
        update_post(g0, g1, y, val),
        clean_reach(g0, y, x),
        g1.thunk_of(x) is Some,
        compute_post(g1, g2, x, ks, r),
    ensures
        g2.is_clean(x),
        g2.memo_of(x).contains_key(ks),
        r == Some(g2.memo_of(x)[ks]),
{
    assert(!g1.is_clean(x));
    assert(g1.valid(x));
}

/// Dirtying short-circuits: one invalidation wave counts each affected
/// node's dirtying exactly once, however the dependency edges are shaped --
/// in a diamond, the shared apex is dirtied once, not once per path.
pub proof fn lemma_dirtied_once<V, C>(g0: Graph<V, C>, g1: Graph<V, C>, y: int, val: V)
    requires
        g0.wf(),
        g0.valid(y),
        update_post(g0, g1, y, val),
    ensures
        forall|j: int|
            g0.valid(j) && #[trigger] clean_reach(g0, y, j) ==> g1.dirtied_of(j) == bump(
                g0.dirtied_of(j),
            ),
        forall|j: int|
            g0.valid(j) && !(#[trigger] clean_reach(g0, y, j)) ==> g1.dirtied_of(j)
                == g0.dirtied_of(j),
{
}

} // verus!
