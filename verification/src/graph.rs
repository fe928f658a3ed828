//! The node store, the evaluation algorithm and invalidation.

use vstd::prelude::*;

use crate::edges::distinct_ids;
use crate::edges::id_insert;
use crate::edges::id_remove;
use crate::edges::id_set;
use crate::edges::push_all;
use crate::ids::copy_args;
use crate::ids::keys_of;
use crate::ids::key_vec;
use crate::ids::ArgKey;
use crate::ids::AThunkID;
use crate::memo::kv_map;
use crate::memo::memo_distinct;
use crate::memo::memo_insert;
use crate::memo::memo_lookup;

verus! {

/// A node's computation unit: either a constant-returning leaf or a derived
/// computation supplied by the graph's user.
pub enum Thunk<V, C> {
    /// Always returns the held value, ignoring the evaluation context.
    Leaf(V),
    /// An arbitrary function of the evaluation context.
    Derived(C),
}

/// What any run of a derived computation leaves of the graph behind its
/// handle.
///
/// A computation can touch the graph only through the handle it is given,
/// and every handle operation keeps each of these clauses, so any
/// implementation built from handle calls keeps them too: the store neither
/// grows nor shrinks, no computation unit is replaced, no node is dirtied,
/// and the cached entries of clean nodes survive unchanged.
pub open spec fn run_effects<V, C>(g0: Graph<V, C>, g1: Graph<V, C>) -> bool {
    &&& g1.node_count() == g0.node_count()
    &&& forall|j: int| g0.valid(j) ==> #[trigger] g1.thunk_of(j) == g0.thunk_of(j)
    &&& forall|j: int| g0.valid(j) ==> #[trigger] g1.dirtied_of(j) == g0.dirtied_of(j)
    &&& forall|j: int| g0.valid(j) && g0.is_clean(j) ==> #[trigger] g1.is_clean(j)
    &&& forall|j: int, k: Seq<u64>|
        g0.valid(j) && g0.is_clean(j) && #[trigger] g0.memo_of(j).contains_key(k)
            ==> g1.memo_of(j).contains_key(k) && g1.memo_of(j)[k] == g0.memo_of(j)[k]
}

/// A derived computation: the one capability a user of the graph implements.
///
/// While it runs it receives a [`Handle`] through which it may declare
/// dependencies on other nodes and recursively request their values.  An
/// implementation outside verified code is answerable on its own for the
/// contract of `run`; any implementation that interacts with the graph only
/// through the handle's operations meets it.
pub trait ThunkFn<V: ArgKey>: Sized {
    /// Produce this computation's value for the evaluation the handle is
    /// bound to.
    fn run(&self, h: &mut Handle<V, Self>) -> (v: V)
        requires
            old(h).wf(),
        ensures
            final(h).wf(),
            final(h).id_of() == old(h).id_of(),
            run_effects(old(h).store(), final(h).store()),
    ;
}

/// One memoized, dependency-tracked computation record.
struct AThunk<V, C> {
    /// Its own identity, for edge bookkeeping; equals its store index.
    id: AThunkID,
    /// The computation unit; absent only while the node is being re-derived.
    thunk: Option<Thunk<V, C>>,
    /// Cached results, keyed by argument fingerprint.
    result: Vec<(Vec<u64>, V)>,
    /// Whether the cached results are currently trustworthy.
    clean: bool,
    /// The nodes this node read during its most recent evaluation.
    sub_computations: Vec<AThunkID>,
    /// The nodes that read this node during their most recent evaluation.
    super_computations: Vec<AThunkID>,
    /// How many times this node has been dirtied (clean-to-dirty changes).
    dirtied: u64,
}

impl<V, C> AThunk<V, C> {
    /// A fresh node record: bound to `thunk`, initially dirty, with an
    /// empty cache and no edges.
    fn new(id: AThunkID, thunk: Thunk<V, C>) -> (n: AThunk<V, C>)
        ensures
            n.id == id,
            n.thunk == Some(thunk),
            n.result@ == Seq::<(Vec<u64>, V)>::empty(),
            !n.clean,
            n.sub_computations@ == Seq::<AThunkID>::empty(),
            n.super_computations@ == Seq::<AThunkID>::empty(),
            n.dirtied == 0u64,
    {
        AThunk {
            id,
            thunk: Some(thunk),
            result: Vec::new(),
            clean: false,
            sub_computations: Vec::new(),
            super_computations: Vec::new(),
            dirtied: 0,
        }
    }
}

/// An indexed, append-only store of computation nodes.
pub struct Graph<V, C> {
    athunks: Vec<AThunk<V, C>>,
}

/// The evaluation context handed to a running derived computation, bound to
/// the node being derived.  It carries the whole store for the duration of
/// the run, so recursive evaluation and edge declaration go through it.
pub struct Handle<V, C> {
    /// The argument vector of the evaluation in progress.
    pub args: Vec<V>,
    id: AThunkID,
    graph: Graph<V, C>,
}

/// A dirtying counter after one more dirtying, held at its ceiling.
pub open spec fn bump(x: u64) -> u64 {
    if x == u64::MAX {
        x
    } else {
        (x + 1) as u64
    }
}

impl<V, C> Graph<V, C> {
    /// How many nodes the store holds.
    pub closed spec fn node_count(self) -> nat {
        self.athunks@.len()
    }

    /// Whether `i` is the index of a live node.
    pub open spec fn valid(self, i: int) -> bool {
        0 <= i < self.node_count()
    }

    /// The node's computation unit; `None` only mid-derivation.
    pub closed spec fn thunk_of(self, i: int) -> Option<Thunk<V, C>> {
        self.athunks@[i].thunk
    }

    /// The node's memo table as a map from cache key to cached value.
    pub closed spec fn memo_of(self, i: int) -> Map<Seq<u64>, V> {
        kv_map(self.athunks@[i].result@)
    }

    /// The node's clean flag.
    pub closed spec fn is_clean(self, i: int) -> bool {
        self.athunks@[i].clean
    }

    /// The node's dependencies: what it read when last derived.
    pub closed spec fn subs_of(self, i: int) -> Set<int> {
        id_set(self.athunks@[i].sub_computations@)
    }

    /// The node's dependents: what read it when last derived.
    pub closed spec fn supers_of(self, i: int) -> Set<int> {
        id_set(self.athunks@[i].super_computations@)
    }

    /// How many times the node has been dirtied.
    pub closed spec fn dirtied_of(self, i: int) -> u64 {
        self.athunks@[i].dirtied
    }

    /// Representation invariant of one node record.
    pub closed spec fn node_inv(self, i: int) -> bool {
        &&& self.athunks@[i].id@ == i
        &&& distinct_ids(self.athunks@[i].sub_computations@)
        &&& distinct_ids(self.athunks@[i].super_computations@)
        &&& memo_distinct(self.athunks@[i].result@)
    }

    /// Representation invariant of the store.
    pub closed spec fn repr_inv(self) -> bool {
        forall|i: int| self.valid(i) ==> #[trigger] self.node_inv(i)
    }

    /// The documented graph invariants: every edge points at a live node,
    /// dependency and dependent edges mirror each other, a dirty node holds
    /// no cached results, and a leaf's cache only ever holds its constant.
    pub open spec fn sem_inv(self) -> bool {
        &&& forall|i: int, j: int|
            self.valid(i) && #[trigger] self.subs_of(i).contains(j) ==> self.valid(j)
        &&& forall|i: int, j: int|
            self.valid(i) && #[trigger] self.supers_of(i).contains(j) ==> self.valid(j)
        &&& forall|i: int, j: int|
            self.valid(i) && self.valid(j) ==> (#[trigger] self.subs_of(i).contains(j)
                <==> #[trigger] self.supers_of(j).contains(i))
        &&& forall|i: int|
            self.valid(i) && !self.is_clean(i) ==> #[trigger] self.memo_of(i) == Map::<
                Seq<u64>,
                V,
            >::empty()
        &&& forall|i: int, k: Seq<u64>|
            self.valid(i) && #[trigger] self.memo_of(i).contains_key(k) ==> (self.thunk_of(
                i,
            ) matches Some(Thunk::Leaf(v)) ==> self.memo_of(i)[k] == v)
    }

    /// Well-formedness of the whole graph.
    pub open spec fn wf(self) -> bool {
        self.repr_inv() && self.sem_inv()
    }

    /// Create an empty graph.
    pub fn new() -> (g: Self)
        ensures
            g.wf(),
            g.node_count() == 0,
    {
        let g = Graph { athunks: Vec::new() };
        g
    }

    /// How many nodes the graph holds.
    pub fn len(&self) -> (n: usize)
        ensures
            n == self.node_count(),
    {
        self.athunks.len()
    }

    /// Allocate a new node bound to `thunk`: initially dirty, with an empty
    /// cache and no edges.  Never fails; existing nodes are untouched.
    pub fn new_athunk(&mut self, thunk: Thunk<V, C>) -> (id: AThunkID)
        requires
            old(self).wf(),
        ensures
            final(self).wf(),
            id@ == old(self).node_count(),
            final(self).node_count() == old(self).node_count() + 1,
            final(self).thunk_of(id@) == Some(thunk),
            !final(self).is_clean(id@),
            final(self).memo_of(id@) == Map::<Seq<u64>, V>::empty(),
            final(self).subs_of(id@) == Set::<int>::empty(),
            final(self).supers_of(id@) == Set::<int>::empty(),
            final(self).dirtied_of(id@) == 0u64,
            forall|j: int|
                old(self).valid(j) ==> final(self).thunk_of(j) == old(self).thunk_of(j) && final(self).memo_of(j) == old(self).memo_of(j) && final(self).is_clean(j) == old(self).is_clean(j) && final(self).subs_of(j) == old(self).subs_of(j) && final(self).supers_of(j) == old(self).supers_of(j) && final(self).dirtied_of(j) == old(self).dirtied_of(j),
    {
        let id = AThunkID(self.athunks.len());
        let node = AThunk::new(id, thunk);
        self.athunks.push(node);
        proof {
            let g0 = *old(self);
            let g1 = *self;
            let n = id@;
            assert(g1.subs_of(n) =~= Set::<int>::empty());
            assert(g1.supers_of(n) =~= Set::<int>::empty());
            assert(g1.memo_of(n) =~= Map::<Seq<u64>, V>::empty());
            assert(forall|j: int| g0.valid(j) ==> g1.athunks@[j] == g0.athunks@[j]);
            assert forall|j: int| g0.valid(j) implies g1.thunk_of(j) == g0.thunk_of(j)
                && g1.memo_of(j) == g0.memo_of(j) && g1.is_clean(j) == g0.is_clean(j)
                && g1.subs_of(j) == g0.subs_of(j) && g1.supers_of(j) == g0.supers_of(j)
                && g1.dirtied_of(j) == g0.dirtied_of(j) by {
                assert(g1.athunks@[j] == g0.athunks@[j]);
            }
            assert forall|i: int| g1.valid(i) implies #[trigger] g1.node_inv(i) by {
                if i < n {
                    assert(g0.node_inv(i));
                }
            }
            assert forall|i: int, j: int|
                g1.valid(i) && g1.valid(j) implies (#[trigger] g1.subs_of(i).contains(j)
                <==> #[trigger] g1.supers_of(j).contains(i)) by {
                if i < n && j < n {
                    assert(g0.subs_of(i).contains(j) <==> g0.supers_of(j).contains(i));
                } else {
                    if g1.subs_of(i).contains(j) {
                        assert(i != n);
                        assert(g0.subs_of(i).contains(j));
                        assert(g0.valid(j));
                    }
                    if g1.supers_of(j).contains(i) {
                        assert(j != n);
                        assert(g0.supers_of(j).contains(i));
                        assert(g0.valid(i));
                    }
                }
            }
            assert forall|i: int, j: int|
                g1.valid(i) && #[trigger] g1.subs_of(i).contains(j) implies g1.valid(j) by {
                if i < n {
                    assert(g0.subs_of(i).contains(j));
                }
            }
            assert forall|i: int, j: int|
                g1.valid(i) && #[trigger] g1.supers_of(i).contains(j) implies g1.valid(j) by {
                if i < n {
                    assert(g0.supers_of(i).contains(j));
                }
            }
        }
        id
    }

    /// Create a leaf node whose computation ignores its context and returns
    /// `val` unconditionally.
    pub fn new_aref(&mut self, val: V) -> (id: AThunkID)
        requires
            old(self).wf(),
        ensures
            final(self).wf(),
            id@ == old(self).node_count(),
            final(self).node_count() == old(self).node_count() + 1,
            final(self).thunk_of(id@) == Some(Thunk::<V, C>::Leaf(val)),
            !final(self).is_clean(id@),
            final(self).memo_of(id@) == Map::<Seq<u64>, V>::empty(),
            final(self).subs_of(id@) == Set::<int>::empty(),
            final(self).supers_of(id@) == Set::<int>::empty(),
            final(self).dirtied_of(id@) == 0u64,
            forall|j: int|
                old(self).valid(j) ==> final(self).thunk_of(j) == old(self).thunk_of(j) && final(self).memo_of(j) == old(self).memo_of(j) && final(self).is_clean(j) == old(self).is_clean(j) && final(self).subs_of(j) == old(self).subs_of(j) && final(self).supers_of(j) == old(self).supers_of(j) && final(self).dirtied_of(j) == old(self).dirtied_of(j),
    {
        self.new_athunk(Thunk::Leaf(val))
    }

    /// The node's clean flag, or `absent` for an unknown identity.
    pub fn clean_flag(&self, id: AThunkID) -> (r: Option<bool>)
        ensures
            r == if self.valid(id@) {
                Some(self.is_clean(id@))
            } else {
                None::<bool>
            },
    {
        if id.0 < self.athunks.len() {
            Some(self.athunks[id.0].clean)
        } else {
            None
        }
    }

    /// How many times the node has been dirtied, or `absent` for an unknown
    /// identity.  One invalidation wave dirties each affected node once.
    pub fn times_dirtied(&self, id: AThunkID) -> (r: Option<u64>)
        ensures
            r == if self.valid(id@) {
                Some(self.dirtied_of(id@))
            } else {
                None::<u64>
            },
    {
        if id.0 < self.athunks.len() {
            Some(self.athunks[id.0].dirtied)
        } else {
            None
        }
    }
}

impl<V, C> Default for Graph<V, C> {
    /// An empty graph.
    fn default() -> (g: Self)
        ensures
            g.wf(),
            g.node_count() == 0,
    {
        Graph::new()
    }
}

impl<V, C> Handle<V, C> {
    /// The store the handle carries while the computation runs.
    pub closed spec fn store(self) -> Graph<V, C> {
        self.graph
    }

    /// The index of the node this evaluation is deriving.
    pub closed spec fn id_of(self) -> int {
        self.id@
    }

    /// The argument vector of the evaluation in progress.
    pub closed spec fn args_of(self) -> Seq<V> {
        self.args@
    }

    /// The handle is bound to a live node of a well-formed store.
    pub open spec fn wf(self) -> bool {
        self.store().wf() && self.store().valid(self.id_of())
    }
}


/// The exact state change of deriving a leaf at node `i` under key `ks`:
/// the node's old dependency edges are torn down on both sides, the node is
/// marked clean, and `v` is memoized under `ks`; nothing else moves.
pub open spec fn leaf_step<V, C>(
    g0: Graph<V, C>,
    g1: Graph<V, C>,
    i: int,
    ks: Seq<u64>,
    v: V,
) -> bool {
    &&& g1.subs_of(i) == Set::<int>::empty()
    &&& forall|j: int| g0.valid(j) ==> g1.supers_of(j) == g0.supers_of(j).remove(i)
    &&& forall|j: int| g0.valid(j) && j != i ==> g1.subs_of(j) == g0.subs_of(j)
    &&& forall|j: int|
        g0.valid(j) && j != i ==> g1.is_clean(j) == g0.is_clean(j) && g1.memo_of(j) == g0.memo_of(
            j,
        )
    &&& g1.memo_of(i) == g0.memo_of(i).insert(ks, v)
    &&& forall|j: int| g0.valid(j) ==> g1.thunk_of(j) == g0.thunk_of(j)
    &&& forall|j: int| g0.valid(j) ==> g1.dirtied_of(j) == g0.dirtied_of(j)
}

/// What one evaluation of node `i` under cache key `ks` returns and does.
///
/// An unknown identity returns `absent` and changes nothing.  A clean node
/// with a cached entry for `ks` returns it and changes nothing.  A node
/// observed mid-derivation (only a dependency cycle gets there) returns
/// `absent` and changes nothing.  Otherwise the node is re-derived: it ends
/// clean with the returned value memoized under `ks`; a leaf's derivation is
/// pinned down exactly by [`leaf_step`]; a derived computation may in
/// addition evaluate other nodes through its handle, which can only extend
/// caches and clean flags as [`run_effects`] says.
pub open spec fn compute_post<V, C>(
    g0: Graph<V, C>,
    g1: Graph<V, C>,
    i: int,
    ks: Seq<u64>,
    r: Option<V>,
) -> bool {
    if !g0.valid(i) {
        r is None && g1 == g0
    } else if g0.is_clean(i) && g0.memo_of(i).contains_key(ks) {
        r == Some(g0.memo_of(i)[ks]) && g1 == g0
    } else if g0.thunk_of(i) is None {
        r is None && g1 == g0
    } else {
        &&& g1.node_count() == g0.node_count()
        &&& g1.is_clean(i)
        &&& g1.memo_of(i).contains_key(ks)
        &&& r == Some(g1.memo_of(i)[ks])
        &&& (g0.thunk_of(i) matches Some(Thunk::Leaf(v)) ==> leaf_step(g0, g1, i, ks, v))
        &&& run_effects(g0, g1)
    }
}

/// What declaring the dependency of node `i` on node `s` does: the edge is
/// recorded on both sides and nothing else moves.  Declaring it again is
/// idempotent, since edge sets are sets.
pub open spec fn add_edge_post<V, C>(g0: Graph<V, C>, g1: Graph<V, C>, i: int, s: int) -> bool {
    &&& g1.node_count() == g0.node_count()
    &&& g1.subs_of(i) == g0.subs_of(i).insert(s)
    &&& g1.supers_of(s) == g0.supers_of(s).insert(i)
    &&& forall|j: int| g0.valid(j) && j != i ==> g1.subs_of(j) == g0.subs_of(j)
    &&& forall|j: int| g0.valid(j) && j != s ==> g1.supers_of(j) == g0.supers_of(j)
    &&& forall|j: int|
        g0.valid(j) ==> g1.thunk_of(j) == g0.thunk_of(j) && g1.memo_of(j) == g0.memo_of(j)
            && g1.is_clean(j) == g0.is_clean(j) && g1.dirtied_of(j) == g0.dirtied_of(j)
}

/// The fields of a node record that the edge teardown never touches.
spec fn same_core<V, C>(a: AThunk<V, C>, b: AThunk<V, C>) -> bool {
    a.id == b.id && a.thunk == b.thunk && a.result == b.result && a.clean == b.clean && a.dirtied
        == b.dirtied
}

impl<V: ArgKey, C: ThunkFn<V>> Graph<V, C> {
    /// Return the node's value for `args`, or `absent` if `id` does not
    /// refer to a live node (or names a node caught mid-derivation, which
    /// only a dependency cycle can arrange).
    ///
    /// The value is served from the node's cache when the node is clean and
    /// has one under this argument key; otherwise the node's old dependency
    /// edges are torn down, the node is marked clean, its computation is
    /// re-executed with a fresh evaluation context, and the result is
    /// memoized before being returned.
    #[verifier::loop_isolation(false)]
    pub fn compute(&mut self, id: AThunkID, args: &[V]) -> (r: Option<V>)
        requires
            old(self).wf(),
        ensures
            final(self).wf(),
            compute_post(*old(self), *final(self), id@, keys_of(args@), r),
            old(self).valid(id@) ==> (old(self).thunk_of(id@) matches Some(Thunk::Leaf(v))
                ==> r == Some(v)),
    {
        let ghost g0 = *old(self);
        let i = id.0;
        if i >= self.athunks.len() {
            return None;
        }
        proof {
            assert(g0.node_inv(i as int));
        }
        let ks = key_vec(args);
        if self.athunks[i].clean {
            let cached = memo_lookup(&self.athunks[i].result, &ks);
            if let Some(v) = cached {
                return Some(v);
            }
        }
        if self.athunks[i].thunk.is_none() {
            return None;
        }
        let mut taken: Option<Thunk<V, C>> = None;
        core::mem::swap(&mut self.athunks[i].thunk, &mut taken);
        let t = taken.unwrap();
        let ghost ga = *self;

        // Tear down the node's dependency edges: it stops depending on
        // anything until the re-derivation says otherwise.
        let m = self.athunks[i].sub_computations.len();
        let ghost full = ga.athunks@[i as int].sub_computations@;
        proof {
            assert(m == full.len());
            assert forall|j: int| 0 <= j < ga.athunks@.len() implies distinct_ids(
                ga.athunks@[j].super_computations@,
            ) && ga.athunks@[j].id@ == j by {
                assert(g0.node_inv(j));
                assert(ga.athunks@[j].super_computations == g0.athunks@[j].super_computations);
            }
            assert(distinct_ids(full)) by {
                assert(g0.node_inv(i as int));
            }
            assert forall|j: int| ga.valid(j) implies ga.subs_of(j) == g0.subs_of(j)
                && ga.supers_of(j) == g0.supers_of(j) by {}
        }
        let mut tdx: usize = 0;
        while tdx < m
            invariant
                tdx <= m,
                self.athunks@.len() == ga.athunks@.len(),
                forall|j: int|
                    0 <= j < ga.athunks@.len() ==> same_core(
                        self.athunks@[j],
                        ga.athunks@[j],
                    ),
                forall|j: int|
                    0 <= j < ga.athunks@.len() ==> self.athunks@[j].sub_computations
                        == ga.athunks@[j].sub_computations,
                forall|j: int|
                    0 <= j < ga.athunks@.len() ==> distinct_ids(
                        self.athunks@[j].super_computations@,
                    ),
                forall|j: int|
                    0 <= j < ga.athunks@.len() && (exists|x: int|
                        0 <= x < tdx && full[x]@ == j) ==> id_set(
                        self.athunks@[j].super_computations@,
                    ) == ga.supers_of(j).remove(i as int),
                forall|j: int|
                    0 <= j < ga.athunks@.len() && !(exists|x: int|
                        0 <= x < tdx && full[x]@ == j) ==> self.athunks@[j].super_computations
                        == ga.athunks@[j].super_computations,
            decreases m - tdx,
        {
            let s = self.athunks[i].sub_computations[tdx];
            proof {
                assert(full[tdx as int] == s);
                assert(ga.subs_of(i as int).contains(s@));
                assert(ga.valid(s@));
                assert(!(exists|x: int| 0 <= x < tdx && full[x]@ == s@)) by {
                    assert(distinct_ids(full));
                }
            }
            id_remove(&mut self.athunks[s.0].super_computations, id);
            proof {
                assert forall|j: int|
                    0 <= j < ga.athunks@.len() && (exists|x: int|
                        0 <= x < tdx + 1 && full[x]@ == j) implies id_set(
                    self.athunks@[j].super_computations@,
                ) == ga.supers_of(j).remove(i as int) by {
                    let x = choose|x: int| 0 <= x < tdx + 1 && full[x]@ == j;
                    if x < tdx {
                        assert(j != s@);
                    }
                }
            }
            tdx = tdx + 1;
        }
        self.athunks[i].sub_computations.clear();
        self.athunks[i].clean = true;
        let ghost gb = *self;
        proof {
            assert(gb.subs_of(i as int) =~= Set::<int>::empty());
            assert forall|j: int| gb.valid(j) implies gb.supers_of(j) == ga.supers_of(j).remove(
                i as int,
            ) by {
                if exists|x: int| 0 <= x < m && full[x]@ == j {
                } else {
                    assert(!ga.subs_of(i as int).contains(j)) by {
                        if ga.subs_of(i as int).contains(j) {
                            let x = choose|x: int| 0 <= x < full.len() && full[x]@ == j;
                        }
                    }
                    assert(!g0.subs_of(i as int).contains(j));
                    assert(g0.subs_of(i as int).contains(j) <==> g0.supers_of(j).contains(
                        i as int,
                    ));
                    assert(!ga.supers_of(j).contains(i as int));
                    assert(id_set(self.athunks@[j].super_computations@) =~= ga.supers_of(
                        j,
                    ).remove(i as int));
                }
            }
            assert forall|j: int| gb.valid(j) implies #[trigger] gb.node_inv(j) by {
                assert(g0.node_inv(j));
            }
            assert forall|a: int, b: int|
                gb.valid(a) && gb.valid(b) implies (#[trigger] gb.subs_of(a).contains(b)
                <==> #[trigger] gb.supers_of(b).contains(a)) by {
                assert(g0.subs_of(a).contains(b) <==> g0.supers_of(b).contains(a));
                if a != i {
                    assert(gb.subs_of(a) == g0.subs_of(a));
                }
            }
            assert forall|a: int, b: int|
                gb.valid(a) && #[trigger] gb.subs_of(a).contains(b) implies gb.valid(b) by {
                if a != i {
                    assert(g0.subs_of(a).contains(b));
                }
            }
            assert forall|a: int, b: int|
                gb.valid(a) && #[trigger] gb.supers_of(a).contains(b) implies gb.valid(b) by {
                assert(g0.supers_of(a).contains(b));
            }
            assert forall|j: int|
                gb.valid(j) && !gb.is_clean(j) implies #[trigger] gb.memo_of(j) == Map::<
                Seq<u64>,
                V,
            >::empty() by {
                assert(gb.memo_of(j) == g0.memo_of(j));
            }
            assert forall|j: int, k: Seq<u64>|
                gb.valid(j) && #[trigger] gb.memo_of(j).contains_key(k) implies (gb.thunk_of(
                j,
            ) matches Some(Thunk::Leaf(w)) ==> gb.memo_of(j)[k] == w) by {
                if j != i {
                    assert(gb.memo_of(j) == g0.memo_of(j));
                    assert(gb.thunk_of(j) == g0.thunk_of(j));
                    assert(g0.memo_of(j).contains_key(k));
                }
            }
            assert(gb.wf());
            assert(gb.is_clean(i as int));
            assert(gb.thunk_of(i as int) is None);
            assert forall|j: int| gb.valid(j) && j != i implies gb.thunk_of(j) == g0.thunk_of(j)
                && gb.memo_of(j) == g0.memo_of(j) && gb.is_clean(j) == g0.is_clean(j)
                && gb.subs_of(j) == g0.subs_of(j) && gb.dirtied_of(j) == g0.dirtied_of(j) by {}
            assert(gb.memo_of(i as int) == g0.memo_of(i as int));
            assert(gb.dirtied_of(i as int) == g0.dirtied_of(i as int));
        }
        let v: V = match t {
            Thunk::Leaf(v) => {
                proof {
                    assert(g0.thunk_of(i as int) == Some(Thunk::<V, C>::Leaf(v)));
                    assert forall|k: Seq<u64>| #[trigger]
                        gb.memo_of(i as int).contains_key(k) implies gb.memo_of(i as int)[k]
                        == v by {
                        assert(g0.memo_of(i as int).contains_key(k));
                    }
                }
                self.restore_thunk(i, Thunk::Leaf(v));
                proof {
                    assert(forall|j: int|
                        gb.valid(j) && gb.is_clean(j) ==> self.is_clean(j));
                    assert(forall|j: int, k: Seq<u64>|
                        gb.valid(j) && gb.is_clean(j) && #[trigger] gb.memo_of(j).contains_key(k)
                            ==> self.memo_of(j).contains_key(k) && self.memo_of(j)[k]
                            == gb.memo_of(j)[k]);
                    assert(forall|j: int|
                        gb.valid(j) ==> self.dirtied_of(j) == gb.dirtied_of(j));
                    assert(forall|j: int|
                        gb.valid(j) && j != i ==> self.thunk_of(j) == gb.thunk_of(j));
                    assert(forall|j: int|
                        gb.valid(j) ==> self.memo_of(j) == gb.memo_of(j) && self.subs_of(j)
                            == gb.subs_of(j) && self.supers_of(j) == gb.supers_of(j)
                            && self.is_clean(j) == gb.is_clean(j));
                }
                v
            },
            Thunk::Derived(c) => {
                let mut carrier = Graph { athunks: Vec::new() };
                core::mem::swap(self, &mut carrier);
                let mut h = Handle { args: copy_args(args), id, graph: carrier };
                proof {
                    assert(h.store() == gb);
                    assert(h.wf());
                }
                let v = c.run(&mut h);
                core::mem::swap(self, &mut h.graph);
                let ghost gc = *self;
                proof {
                    assert(run_effects(gb, gc));
                    assert(gc.wf());
                    assert(gc.thunk_of(i as int) is None);
                    assert(g0.thunk_of(i as int) == Some(Thunk::<V, C>::Derived(c)));
                }
                self.restore_thunk(i, Thunk::Derived(c));
                proof {
                    assert forall|j: int| gb.valid(j) && gb.is_clean(j) implies self.is_clean(
                        j,
                    ) by {
                        assert(gc.is_clean(j));
                    }
                    assert forall|j: int, k: Seq<u64>|
                        gb.valid(j) && gb.is_clean(j) && #[trigger] gb.memo_of(j).contains_key(
                            k,
                        ) implies self.memo_of(j).contains_key(k) && self.memo_of(j)[k]
                        == gb.memo_of(j)[k] by {
                        assert(gc.memo_of(j).contains_key(k) && gc.memo_of(j)[k] == gb.memo_of(
                            j,
                        )[k]);
                        assert(self.memo_of(j) == gc.memo_of(j));
                    }
                    assert forall|j: int| gb.valid(j) implies self.dirtied_of(j) == gb.dirtied_of(
                        j,
                    ) by {
                        assert(gc.dirtied_of(j) == gb.dirtied_of(j));
                        assert(self.dirtied_of(j) == gc.dirtied_of(j));
                    }
                    assert forall|j: int|
                        gb.valid(j) && j != i implies self.thunk_of(j) == gb.thunk_of(j) by {
                        assert(gc.thunk_of(j) == gb.thunk_of(j));
                        assert(self.thunk_of(j) == gc.thunk_of(j));
                    }
                }
                v
            },
        };
        let ghost gd = *self;
        proof {
            assert(gd.wf());
            assert(gd.is_clean(i as int));
            assert(gd.thunk_of(i as int) == g0.thunk_of(i as int));
            assert(gd.node_count() == g0.node_count());
        }
        self.memo_write(i, ks, v);
        proof {
            let gf = *self;
            let ksg = keys_of(args@);
            assert(gf.memo_of(i as int) == gd.memo_of(i as int).insert(ksg, v));
            assert forall|j: int| g0.valid(j) implies gf.thunk_of(j) == g0.thunk_of(j) by {
                if j != i {
                    assert(gb.thunk_of(j) == g0.thunk_of(j));
                    assert(gd.thunk_of(j) == gb.thunk_of(j));
                }
            }
            assert forall|j: int| g0.valid(j) implies gf.dirtied_of(j) == g0.dirtied_of(j) by {
                assert(gb.dirtied_of(j) == g0.dirtied_of(j));
                assert(gd.dirtied_of(j) == gb.dirtied_of(j));
            }
            assert forall|j: int| g0.valid(j) && g0.is_clean(j) implies gf.is_clean(j) by {
                assert(gb.is_clean(j));
                assert(gd.is_clean(j));
            }
            assert forall|j: int, k: Seq<u64>|
                g0.valid(j) && g0.is_clean(j) && g0.memo_of(j).contains_key(
                    k,
                ) implies #[trigger] gf.memo_of(j).contains_key(k) && gf.memo_of(j)[k]
                == g0.memo_of(j)[k] by {
                assert(gb.is_clean(j) && gb.memo_of(j) == g0.memo_of(j));
                assert(gd.memo_of(j).contains_key(k) && gd.memo_of(j)[k] == gb.memo_of(j)[k]);
                if j == i {
                    assert(k != ksg);
                } else {
                    assert(gf.memo_of(j) == gd.memo_of(j));
                }
            }
            assert(run_effects(g0, gf));
            if let Some(Thunk::Leaf(w)) = g0.thunk_of(i as int) {
                assert(leaf_step(g0, gf, i as int, ksg, w)) by {
                    assert(gf.subs_of(i as int) == gb.subs_of(i as int));
                    assert(gf.subs_of(i as int) =~= Set::<int>::empty());
                    assert(gd.memo_of(i as int) == gb.memo_of(i as int));
                    assert(gf.memo_of(i as int) == g0.memo_of(i as int).insert(ksg, w));
                    assert forall|j: int| g0.valid(j) implies gf.supers_of(j) == g0.supers_of(
                        j,
                    ).remove(i as int) by {
                        assert(gb.supers_of(j) == ga.supers_of(j).remove(i as int));
                        assert(ga.supers_of(j) == g0.supers_of(j));
                        assert(gd.supers_of(j) == gb.supers_of(j));
                        assert(gf.supers_of(j) == gd.supers_of(j));
                    }
                    assert forall|j: int|
                        g0.valid(j) && j != i implies gf.subs_of(j) == g0.subs_of(j)
                        && gf.is_clean(j) == g0.is_clean(j) && gf.memo_of(j) == g0.memo_of(
                        j,
                    ) by {
                        assert(gb.subs_of(j) == g0.subs_of(j));
                        assert(gb.is_clean(j) == g0.is_clean(j));
                        assert(gb.memo_of(j) == g0.memo_of(j));
                        assert(gd.subs_of(j) == gb.subs_of(j) && gd.is_clean(j) == gb.is_clean(j)
                            && gd.memo_of(j) == gb.memo_of(j));
                        assert(gf.memo_of(j) == gd.memo_of(j));
                    }
                }
            }
            assert(compute_post(g0, gf, id@, ksg, Some(v)));
        }
        Some(v)
    }

    /// Put the computation unit back after a derivation; only a leaf whose
    /// cache already agrees with its constant may be restored.
    fn restore_thunk(&mut self, i: usize, t: Thunk<V, C>)
        requires
            old(self).wf(),
            old(self).valid(i as int),
            old(self).thunk_of(i as int) is None,
            (t matches Thunk::Leaf(w) ==> forall|k: Seq<u64>| #[trigger] old(self).memo_of(i as int).contains_key(k) ==> old(self).memo_of(i as int)[k] == w),
        ensures
            final(self).wf(),
            final(self).node_count() == old(self).node_count(),
            final(self).thunk_of(i as int) == Some(t),
            forall|j: int|
                old(self).valid(j) && j != i ==> final(self).thunk_of(j) == old(self).thunk_of(j),
            forall|j: int|
                old(self).valid(j) ==> final(self).memo_of(j) == old(self).memo_of(j) && final(self).is_clean(j) == old(self).is_clean(j) && final(self).subs_of(j) == old(self).subs_of(j) && final(self).supers_of(j) == old(self).supers_of(j) && final(self).dirtied_of(j) == old(self).dirtied_of(j),
    {
        self.athunks[i].thunk = Some(t);
        proof {
            let g0 = *old(self);
            let g1 = *self;
            assert(forall|j: int|
                g0.valid(j) && j != i ==> g1.athunks@[j] == g0.athunks@[j]);
            assert forall|j: int| g1.valid(j) implies #[trigger] g1.node_inv(j) by {
                assert(g0.node_inv(j));
            }
            assert forall|a: int, b: int|
                g1.valid(a) && g1.valid(b) implies (#[trigger] g1.subs_of(a).contains(b)
                <==> #[trigger] g1.supers_of(b).contains(a)) by {
                assert(g0.subs_of(a).contains(b) <==> g0.supers_of(b).contains(a));
                assert(g1.subs_of(a) == g0.subs_of(a));
                assert(g1.supers_of(b) == g0.supers_of(b));
            }
            assert forall|a: int, b: int|
                g1.valid(a) && #[trigger] g1.subs_of(a).contains(b) implies g1.valid(b) by {
                assert(g1.subs_of(a) == g0.subs_of(a));
            }
            assert forall|a: int, b: int|
                g1.valid(a) && #[trigger] g1.supers_of(a).contains(b) implies g1.valid(b) by {
                assert(g1.supers_of(a) == g0.supers_of(a));
            }
            assert forall|j: int|
                g1.valid(j) && !g1.is_clean(j) implies #[trigger] g1.memo_of(j) == Map::<
                Seq<u64>,
                V,
            >::empty() by {
                assert(g1.memo_of(j) == g0.memo_of(j));
            }
            assert forall|j: int, k: Seq<u64>|
                g1.valid(j) && #[trigger] g1.memo_of(j).contains_key(k) implies (g1.thunk_of(
                j,
            ) matches Some(Thunk::Leaf(w)) ==> g1.memo_of(j)[k] == w) by {
                assert(g1.memo_of(j) == g0.memo_of(j));
                if j != i {
                    assert(g1.thunk_of(j) == g0.thunk_of(j));
                }
            }
        }
    }

    /// Memoize `v` on a clean node under the key `ks`; a leaf may only
    /// memoize its constant.
    fn memo_write(&mut self, i: usize, ks: Vec<u64>, v: V)
        requires
            old(self).wf(),
            old(self).valid(i as int),
            old(self).is_clean(i as int),
            (old(self).thunk_of(i as int) matches Some(Thunk::Leaf(w)) ==> v == w),
        ensures
            final(self).wf(),
            final(self).node_count() == old(self).node_count(),
            final(self).memo_of(i as int) == old(self).memo_of(i as int).insert(ks@, v),
            forall|j: int|
                old(self).valid(j) && j != i ==> final(self).memo_of(j) == old(self).memo_of(j),
            forall|j: int|
                old(self).valid(j) ==> final(self).thunk_of(j) == old(self).thunk_of(j) && final(self).is_clean(j) == old(self).is_clean(j) && final(self).subs_of(j) == old(self).subs_of(j) && final(self).supers_of(j) == old(self).supers_of(j) && final(self).dirtied_of(j) == old(self).dirtied_of(j),
    {
        proof {
            assert(old(self).node_inv(i as int));
        }
        memo_insert(&mut self.athunks[i].result, ks, v);
        proof {
            let g0 = *old(self);
            let g1 = *self;
            assert(forall|j: int|
                g0.valid(j) && j != i ==> g1.athunks@[j] == g0.athunks@[j]);
            assert forall|j: int| g1.valid(j) implies #[trigger] g1.node_inv(j) by {
                assert(g0.node_inv(j));
            }
            assert forall|a: int, b: int|
                g1.valid(a) && g1.valid(b) implies (#[trigger] g1.subs_of(a).contains(b)
                <==> #[trigger] g1.supers_of(b).contains(a)) by {
                assert(g0.subs_of(a).contains(b) <==> g0.supers_of(b).contains(a));
                assert(g1.subs_of(a) == g0.subs_of(a));
                assert(g1.supers_of(b) == g0.supers_of(b));
            }
            assert forall|a: int, b: int|
                g1.valid(a) && #[trigger] g1.subs_of(a).contains(b) implies g1.valid(b) by {
                assert(g1.subs_of(a) == g0.subs_of(a));
            }
            assert forall|a: int, b: int|
                g1.valid(a) && #[trigger] g1.supers_of(a).contains(b) implies g1.valid(b) by {
                assert(g1.supers_of(a) == g0.supers_of(a));
            }
            assert forall|j: int|
                g1.valid(j) && !g1.is_clean(j) implies #[trigger] g1.memo_of(j) == Map::<
                Seq<u64>,
                V,
            >::empty() by {
                assert(j != i);
                assert(g1.memo_of(j) == g0.memo_of(j));
            }
            assert forall|j: int, k: Seq<u64>|
                g1.valid(j) && #[trigger] g1.memo_of(j).contains_key(k) implies (g1.thunk_of(
                j,
            ) matches Some(Thunk::Leaf(w)) ==> g1.memo_of(j)[k] == w) by {
                if j != i {
                    assert(g1.memo_of(j) == g0.memo_of(j));
                } else {
                    if k != ks@ {
                        assert(g0.memo_of(j).contains_key(k));
                    }
                }
            }
        }
    }
}


impl<V: ArgKey, C: ThunkFn<V>> Handle<V, C> {
    /// Record that the node being derived depends on `sub_id`: the edge is
    /// inserted on both sides.  Declaring the same dependency twice in one
    /// evaluation is idempotent.
    pub fn add_edge(&mut self, sub_id: AThunkID)
        requires
            old(self).wf(),
            old(self).store().valid(sub_id@),
        ensures
            final(self).wf(),
            final(self).id_of() == old(self).id_of(),
            final(self).args_of() == old(self).args_of(),
            add_edge_post(old(self).store(), final(self).store(), old(self).id_of(), sub_id@),
    {
        let ghost g0 = self.graph;
        let own = self.id;
        proof {
            assert(g0.node_inv(sub_id@));
            assert(g0.node_inv(own@));
        }
        id_insert(&mut self.graph.athunks[sub_id.0].super_computations, own);
        let ghost gm = self.graph;
        proof {
            assert(gm.supers_of(sub_id@) == g0.supers_of(sub_id@).insert(own@));
            assert(forall|j: int|
                0 <= j < g0.athunks@.len() && j != sub_id@ ==> gm.athunks@[j] == g0.athunks@[j]);
            assert(gm.node_inv(own@)) by {
                assert(gm.athunks@[own@].sub_computations == g0.athunks@[own@].sub_computations);
                assert(gm.athunks@[own@].id == g0.athunks@[own@].id);
                assert(distinct_ids(gm.athunks@[own@].super_computations@));
                assert(memo_distinct(gm.athunks@[own@].result@)) by {
                    assert(gm.athunks@[own@].result == g0.athunks@[own@].result);
                }
            }
        }
        id_insert(&mut self.graph.athunks[own.0].sub_computations, sub_id);
        proof {
            let g1 = self.graph;
            let i = own@;
            let s = sub_id@;
            assert(g1.subs_of(i) == gm.subs_of(i).insert(s));
            assert(forall|j: int|
                0 <= j < g0.athunks@.len() && j != i ==> g1.athunks@[j] == gm.athunks@[j]);
            assert forall|j: int| g0.valid(j) && j != i implies g1.subs_of(j) == g0.subs_of(
                j,
            ) by {
                assert(g1.athunks@[j].sub_computations == g0.athunks@[j].sub_computations);
            }
            assert forall|j: int| g0.valid(j) && j != s implies g1.supers_of(j) == g0.supers_of(
                j,
            ) by {
                assert(g1.athunks@[j].super_computations == g0.athunks@[j].super_computations);
            }
            assert forall|j: int|
                g0.valid(j) implies #[trigger] g1.thunk_of(j) == g0.thunk_of(j) && g1.memo_of(j)
                == g0.memo_of(j) && g1.is_clean(j) == g0.is_clean(j) && g1.dirtied_of(j)
                == g0.dirtied_of(j) by {
                assert(g1.athunks@[j].thunk == g0.athunks@[j].thunk);
                assert(g1.athunks@[j].result == g0.athunks@[j].result);
                assert(g1.athunks@[j].clean == g0.athunks@[j].clean);
                assert(g1.athunks@[j].dirtied == g0.athunks@[j].dirtied);
            }
            assert(g1.supers_of(s) == g0.supers_of(s).insert(i)) by {
                if s != i {
                    assert(g1.athunks@[s].super_computations == gm.athunks@[s].super_computations);
                }
            }
            assert(g1.subs_of(i) == g0.subs_of(i).insert(s)) by {
                assert(gm.athunks@[i].sub_computations == g0.athunks@[i].sub_computations);
            }
            assert(add_edge_post(g0, g1, i, s));
            assert forall|j: int| g1.valid(j) implies #[trigger] g1.node_inv(j) by {
                assert(g0.node_inv(j));
                if j != i {
                    assert(g1.athunks@[j].sub_computations == g0.athunks@[j].sub_computations);
                }
                if j != s {
                    assert(g1.athunks@[j].super_computations == g0.athunks@[j].super_computations);
                }
                assert(g1.athunks@[j].result == g0.athunks@[j].result);
                assert(g1.athunks@[j].id == g0.athunks@[j].id);
            }
            assert forall|a: int, b: int|
                g1.valid(a) && g1.valid(b) implies (#[trigger] g1.subs_of(a).contains(b)
                <==> #[trigger] g1.supers_of(b).contains(a)) by {
                assert(g0.subs_of(a).contains(b) <==> g0.supers_of(b).contains(a));
            }
            assert forall|a: int, b: int|
                g1.valid(a) && #[trigger] g1.subs_of(a).contains(b) implies g1.valid(b) by {
                if a == i && b != s {
                    assert(g0.subs_of(a).contains(b));
                }
            }
            assert forall|a: int, b: int|
                g1.valid(a) && #[trigger] g1.supers_of(a).contains(b) implies g1.valid(b) by {
                if a == s && b != i {
                    assert(g0.supers_of(a).contains(b));
                }
            }
            assert forall|j: int|
                g1.valid(j) && !g1.is_clean(j) implies #[trigger] g1.memo_of(j) == Map::<
                Seq<u64>,
                V,
            >::empty() by {
                assert(g1.memo_of(j) == g0.memo_of(j));
            }
            assert forall|j: int, k: Seq<u64>|
                g1.valid(j) && #[trigger] g1.memo_of(j).contains_key(k) implies (g1.thunk_of(
                j,
            ) matches Some(Thunk::Leaf(w)) ==> g1.memo_of(j)[k] == w) by {
                assert(g1.memo_of(j) == g0.memo_of(j));
                assert(g0.memo_of(j).contains_key(k));
                assert(g1.thunk_of(j) == g0.thunk_of(j));
            }
        }
    }

    /// Recursively request another node's value, through the graph's own
    /// evaluation algorithm.  A computation is expected to pair this with
    /// [`Handle::add_edge`] for every node it reads; reading without
    /// declaring the edge silently goes stale after later invalidations.
    pub fn compute(&mut self, id: AThunkID, args: &[V]) -> (r: Option<V>)
        requires
            old(self).wf(),
        ensures
            final(self).wf(),
            final(self).id_of() == old(self).id_of(),
            final(self).args_of() == old(self).args_of(),
            compute_post(old(self).store(), final(self).store(), id@, keys_of(args@), r),
    {
        self.graph.compute(id, args)
    }
}


/// A path along dependent edges all of whose nodes are clean in `g`.
pub open spec fn clean_path<V, C>(g: Graph<V, C>, p: Seq<int>, s: int, t: int) -> bool {
    &&& p.len() > 0
    &&& p[0] == s
    &&& p[p.len() - 1] == t
    &&& forall|x: int| 0 <= x < p.len() ==> g.valid(#[trigger] p[x]) && g.is_clean(p[x])
    &&& forall|x: int| 0 <= x < p.len() - 1 ==> g.supers_of(#[trigger] p[x]).contains(p[x + 1])
}

/// Whether an invalidation wave started at `s` reaches `t`: some clean
/// dependent path leads from `s` to `t` (a node alone is a path, so a clean
/// `s` always reaches itself).
pub open spec fn clean_reach<V, C>(g: Graph<V, C>, s: int, t: int) -> bool {
    exists|p: Seq<int>| clean_path(g, p, s, t)
}

/// What one invalidation wave started at `s` does to everything but the
/// computation units: exactly the nodes with a clean dependent path from `s`
/// lose their clean flag and their whole cache and count one more dirtying;
/// every edge and every other node's state stays as it was.
pub open spec fn dirty_shape<V, C>(g0: Graph<V, C>, g1: Graph<V, C>, s: int) -> bool {
    &&& g1.node_count() == g0.node_count()
    &&& forall|j: int| g0.valid(j) ==> #[trigger] g1.subs_of(j) == g0.subs_of(j)
    &&& forall|j: int| g0.valid(j) ==> #[trigger] g1.supers_of(j) == g0.supers_of(j)
    &&& forall|j: int|
        g0.valid(j) ==> (#[trigger] g1.is_clean(j) <==> g0.is_clean(j) && !clean_reach(g0, s, j))
    &&& forall|j: int|
        g0.valid(j) && #[trigger] clean_reach(g0, s, j) ==> g1.memo_of(j) == Map::<
            Seq<u64>,
            V,
        >::empty() && g1.dirtied_of(j) == bump(g0.dirtied_of(j))
    &&& forall|j: int|
        g0.valid(j) && !(#[trigger] clean_reach(g0, s, j)) ==> g1.memo_of(j) == g0.memo_of(j)
            && g1.dirtied_of(j) == g0.dirtied_of(j)
}

/// What invalidating node `s` does: [`dirty_shape`], with every computation
/// unit untouched.
pub open spec fn dirty_post<V, C>(g0: Graph<V, C>, g1: Graph<V, C>, s: int) -> bool {
    &&& dirty_shape(g0, g1, s)
    &&& forall|j: int| g0.valid(j) ==> #[trigger] g1.thunk_of(j) == g0.thunk_of(j)
}

/// What overwriting node `s` with the constant `val` does: the node's
/// computation becomes the new leaf and an invalidation wave starts at `s`,
/// as [`dirty_shape`] says; every other computation unit is untouched.
pub open spec fn update_post<V, C>(g0: Graph<V, C>, g1: Graph<V, C>, s: int, val: V) -> bool {
    &&& dirty_shape(g0, g1, s)
    &&& g1.thunk_of(s) == Some(Thunk::<V, C>::Leaf(val))
    &&& forall|j: int| g0.valid(j) && j != s ==> #[trigger] g1.thunk_of(j) == g0.thunk_of(j)
}

/// Whether the worklist holds the node index `j`.
spec fn in_stack(st: Seq<AThunkID>, j: int) -> bool {
    exists|x: int| 0 <= x < st.len() && st[x]@ == j
}

/// The record `b` is the record `a` right after its dirtying: flag down,
/// cache gone, one more dirtying counted, everything else untouched.
spec fn dirtied_version<V, C>(a: AThunk<V, C>, b: AThunk<V, C>) -> bool {
    &&& b.id == a.id
    &&& b.thunk == a.thunk
    &&& b.sub_computations == a.sub_computations
    &&& b.super_computations == a.super_computations
    &&& a.clean
    &&& !b.clean
    &&& b.result@.len() == 0
    &&& b.dirtied == bump(a.dirtied)
}

/// How many of the first `n` nodes are clean; the invalidation loop's
/// termination measure.
spec fn clean_count<V, C>(g: Graph<V, C>, n: int) -> nat
    decreases n,
{
    if n <= 0 {
        0
    } else {
        clean_count(g, n - 1) + (if g.is_clean(n - 1) {
            1nat
        } else {
            0nat
        })
    }
}

proof fn lemma_clean_count_agree<V, C>(g0: Graph<V, C>, g1: Graph<V, C>, n: int)
    requires
        forall|x: int| 0 <= x < n ==> g1.is_clean(x) == g0.is_clean(x),
    ensures
        clean_count(g1, n) == clean_count(g0, n),
    decreases n,
{
    if n > 0 {
        lemma_clean_count_agree(g0, g1, n - 1);
    }
}

proof fn lemma_clean_count_drop<V, C>(g0: Graph<V, C>, g1: Graph<V, C>, n: int, j: int)
    requires
        0 <= j < n,
        g0.is_clean(j),
        !g1.is_clean(j),
        forall|x: int| 0 <= x < n && x != j ==> g1.is_clean(x) == g0.is_clean(x),
    ensures
        clean_count(g1, n) < clean_count(g0, n),
    decreases n,
{
    if j == n - 1 {
        lemma_clean_count_agree(g0, g1, n - 1);
    } else {
        lemma_clean_count_drop(g0, g1, n - 1, j);
    }
}

/// A reached node, and the wave's start, are both live and clean.
pub proof fn lemma_reach_clean<V, C>(g: Graph<V, C>, s: int, t: int)
    requires
        clean_reach(g, s, t),
    ensures
        g.valid(t) && g.is_clean(t),
        g.valid(s) && g.is_clean(s),
{
    let p = choose|p: Seq<int>| clean_path(g, p, s, t);
    assert(g.valid(p[0]) && g.is_clean(p[0]));
    assert(g.valid(p[p.len() - 1]) && g.is_clean(p[p.len() - 1]));
}

/// A clean node starts its own wave.
pub proof fn lemma_reach_self<V, C>(g: Graph<V, C>, s: int)
    requires
        g.valid(s),
        g.is_clean(s),
    ensures
        clean_reach(g, s, s),
{
    let p = seq![s];
    assert(clean_path(g, p, s, s));
}

/// A wave that reached `u` reaches every clean dependent of `u`.
pub proof fn lemma_reach_extend<V, C>(g: Graph<V, C>, s: int, u: int, t: int)
    requires
        clean_reach(g, s, u),
        g.supers_of(u).contains(t),
        g.valid(t),
        g.is_clean(t),
    ensures
        clean_reach(g, s, t),
{
    let p = choose|p: Seq<int>| clean_path(g, p, s, u);
    let q = p.push(t);
    assert(clean_path(g, q, s, t)) by {
        assert(q[q.len() - 1] == t);
        assert forall|x: int| 0 <= x < q.len() implies g.valid(#[trigger] q[x]) && g.is_clean(
            q[x],
        ) by {
            if x < p.len() {
                assert(q[x] == p[x]);
            }
        }
        assert forall|x: int| 0 <= x < q.len() - 1 implies g.supers_of(#[trigger] q[x]).contains(
            q[x + 1],
        ) by {
            if x < p.len() - 1 {
                assert(q[x] == p[x] && q[x + 1] == p[x + 1]);
            } else {
                assert(q[x] == p[p.len() - 1]);
            }
        }
    }
}

/// Once no dirtied node has a clean dependent left, every node a clean path
/// from a dirtied start can reach is itself dirty.
proof fn lemma_path_dirty<V, C>(g0: Graph<V, C>, g1: Graph<V, C>, p: Seq<int>, s: int, t: int)
    requires
        clean_path(g0, p, s, t),
        !g1.is_clean(s),
        forall|a: int, b: int|
            g0.valid(a) && g0.is_clean(a) && !g1.is_clean(a) && #[trigger] g0.supers_of(
                a,
            ).contains(b) && g0.valid(b) ==> !g1.is_clean(b),
    ensures
        !g1.is_clean(t),
    decreases p.len(),
{
    if p.len() > 1 {
        let q = p.drop_last();
        let u = p[p.len() - 2];
        assert(clean_path(g0, q, s, u)) by {
            assert forall|x: int| 0 <= x < q.len() implies g0.valid(#[trigger] q[x])
                && g0.is_clean(q[x]) by {
                assert(q[x] == p[x]);
            }
            assert forall|x: int|
                0 <= x < q.len() - 1 implies g0.supers_of(#[trigger] q[x]).contains(q[x + 1]) by {
                assert(q[x] == p[x] && q[x + 1] == p[x + 1]);
            }
        }
        lemma_path_dirty(g0, g1, q, s, u);
        assert(g0.supers_of(u).contains(t));
    }
}

impl<V, C> Graph<V, C> {
    /// Propagate dirtiness from `id`: if the node is clean, mark it dirty,
    /// discard its cache, and continue through every node that depends on
    /// it; a node that is already dirty stops the wave, which is what keeps
    /// one invalidation from walking a diamond-shaped graph more than once.
    #[verifier::loop_isolation(false)]
    fn dirty(&mut self, id: AThunkID)
        requires
            old(self).wf(),
            old(self).valid(id@),
        ensures
            final(self).wf(),
            dirty_post(*old(self), *final(self), id@),
    {
        let ghost g0 = *old(self);
        let mut stack: Vec<AThunkID> = Vec::new();
        stack.push(id);
        proof {
            assert(stack@[0] == id);
            assert(in_stack(stack@, id@));
        }
        while stack.len() > 0
            invariant
                self.athunks@.len() == g0.athunks@.len(),
                forall|j: int|
                    0 <= j < g0.athunks@.len() ==> (#[trigger] self.athunks@[j]
                        == g0.athunks@[j] || (dirtied_version(g0.athunks@[j], self.athunks@[j])
                        && clean_reach(g0, id@, j))),
                forall|x: int|
                    0 <= x < stack@.len() ==> g0.valid(#[trigger] stack@[x]@) && (stack@[x]@
                        == id@ || exists|u: int|
                        0 <= u < g0.athunks@.len() && g0.athunks@[u].clean
                            && !self.athunks@[u].clean && #[trigger] g0.supers_of(u).contains(
                            stack@[x]@,
                        )),
                forall|a: int, b: int|
                    0 <= a < g0.athunks@.len() && g0.valid(b) && g0.athunks@[a].clean
                        && !self.athunks@[a].clean && #[trigger] g0.supers_of(a).contains(b)
                        && self.athunks@[b].clean ==> in_stack(stack@, b),
                (g0.athunks@[id@].clean && self.athunks@[id@].clean ==> in_stack(stack@, id@)),
            decreases clean_count(*self, g0.athunks@.len() as int), stack@.len(),
        {
            let ghost gprev = *self;
            let ghost st_prev = stack@;
            let s = stack.pop().unwrap();
            proof {
                assert(st_prev[st_prev.len() - 1] == s);
                assert(g0.valid(s@));
            }
            if self.athunks[s.0].clean {
                proof {
                    assert(self.athunks@[s@] == g0.athunks@[s@]);
                    assert(g0.is_clean(s@));
                    if s@ == id@ {
                        lemma_reach_self(g0, id@);
                    } else {
                        let u = choose|u: int|
                            0 <= u < g0.athunks@.len() && g0.athunks@[u].clean
                                && !gprev.athunks@[u].clean && #[trigger] g0.supers_of(u).contains(
                                s@,
                            );
                        assert(dirtied_version(g0.athunks@[u], gprev.athunks@[u]));
                        assert(clean_reach(g0, id@, u));
                        lemma_reach_extend(g0, id@, u, s@);
                    }
                    assert(clean_reach(g0, id@, s@));
                }
                self.athunks[s.0].clean = false;
                self.athunks[s.0].result.clear();
                let d = self.athunks[s.0].dirtied;
                self.athunks[s.0].dirtied = if d == u64::MAX {
                    d
                } else {
                    d + 1
                };
                proof {
                    assert(dirtied_version(g0.athunks@[s@], self.athunks@[s@]));
                    lemma_clean_count_drop(gprev, *self, g0.athunks@.len() as int, s@);
                }
                push_all(&mut stack, &self.athunks[s.0].super_computations);
                proof {
                    let st_new = stack@;
                    let sup = self.athunks@[s@].super_computations@;
                    assert(sup == g0.athunks@[s@].super_computations@);
                    assert(st_new == st_prev.drop_last() + sup);
                    assert forall|x: int|
                        0 <= x < st_new.len() implies g0.valid(#[trigger] st_new[x]@) && (
                    st_new[x]@ == id@ || exists|u: int|
                        0 <= u < g0.athunks@.len() && g0.athunks@[u].clean
                            && !self.athunks@[u].clean && #[trigger] g0.supers_of(u).contains(
                            st_new[x]@,
                        )) by {
                        if x < st_prev.len() - 1 {
                            assert(st_new[x] == st_prev[x]);
                            if st_prev[x]@ != id@ {
                                let u = choose|u: int|
                                    0 <= u < g0.athunks@.len() && g0.athunks@[u].clean
                                        && !gprev.athunks@[u].clean && #[trigger] g0.supers_of(
                                        u,
                                    ).contains(st_prev[x]@);
                                assert(!self.athunks@[u].clean);
                                assert(g0.supers_of(u).contains(st_new[x]@));
                            }
                        } else {
                            let y = x - (st_prev.len() - 1);
                            assert(st_new[x] == sup[y]);
                            assert(g0.supers_of(s@).contains(sup[y]@));
                            assert(g0.valid(sup[y]@));
                            assert(g0.athunks@[s@].clean && !self.athunks@[s@].clean);
                        }
                    }
                    assert forall|a: int, b: int|
                        0 <= a < g0.athunks@.len() && g0.valid(b) && g0.athunks@[a].clean
                            && !self.athunks@[a].clean && #[trigger] g0.supers_of(a).contains(b)
                            && self.athunks@[b].clean implies in_stack(st_new, b) by {
                        if a == s@ {
                            let y = choose|y: int| 0 <= y < sup.len() && sup[y]@ == b;
                            assert(st_new[st_prev.len() - 1 + y]@ == b);
                        } else {
                            assert(gprev.athunks@[a].clean == g0.athunks@[a].clean
                                || !gprev.athunks@[a].clean);
                            assert(!gprev.athunks@[a].clean) by {
                                if gprev.athunks@[a].clean {
                                    assert(self.athunks@[a] == gprev.athunks@[a]);
                                }
                            }
                            assert(gprev.athunks@[b].clean);
                            assert(in_stack(st_prev, b));
                            let x = choose|x: int| 0 <= x < st_prev.len() && st_prev[x]@ == b;
                            assert(x < st_prev.len() - 1 || st_prev[x]@ == s@);
                            assert(b != s@);
                            assert(st_new[x]@ == b);
                        }
                    }
                    assert((g0.athunks@[id@].clean && self.athunks@[id@].clean ==> in_stack(
                        st_new,
                        id@,
                    ))) by {
                        if g0.athunks@[id@].clean && self.athunks@[id@].clean {
                            assert(id@ != s@);
                            assert(in_stack(st_prev, id@));
                            let x = choose|x: int| 0 <= x < st_prev.len() && st_prev[x]@ == id@;
                            assert(x < st_prev.len() - 1);
                            assert(st_new[x]@ == id@);
                        }
                    }
                }
            } else {
                proof {
                    let st_new = stack@;
                    assert(st_new == st_prev.drop_last());
                    assert forall|a: int, b: int|
                        0 <= a < g0.athunks@.len() && g0.valid(b) && g0.athunks@[a].clean
                            && !self.athunks@[a].clean && #[trigger] g0.supers_of(a).contains(b)
                            && self.athunks@[b].clean implies in_stack(st_new, b) by {
                        assert(in_stack(st_prev, b));
                        let x = choose|x: int| 0 <= x < st_prev.len() && st_prev[x]@ == b;
                        assert(b != s@);
                        assert(x < st_prev.len() - 1);
                        assert(st_new[x]@ == b);
                    }
                    assert((g0.athunks@[id@].clean && self.athunks@[id@].clean ==> in_stack(
                        st_new,
                        id@,
                    ))) by {
                        if g0.athunks@[id@].clean && self.athunks@[id@].clean {
                            assert(in_stack(st_prev, id@));
                            let x = choose|x: int| 0 <= x < st_prev.len() && st_prev[x]@ == id@;
                            assert(id@ != s@);
                            assert(x < st_prev.len() - 1);
                            assert(st_new[x]@ == id@);
                        }
                    }
                }
            }
        }
        proof {
            let g1 = *self;
            assert forall|a: int, b: int|
                g0.valid(a) && g0.is_clean(a) && !g1.is_clean(a) && #[trigger] g0.supers_of(
                    a,
                ).contains(b) && g0.valid(b) implies !g1.is_clean(b) by {
                if g1.is_clean(b) {
                    assert(in_stack(stack@, b));
                }
            }
            assert forall|j: int|
                g0.valid(j) && #[trigger] clean_reach(g0, id@, j) implies !g1.is_clean(j) by {
                lemma_reach_clean(g0, id@, j);
                assert(!g1.is_clean(id@)) by {
                    if g1.is_clean(id@) {
                        assert(g1.athunks@[id@].clean);
                        assert(g0.athunks@[id@].clean);
                        assert(in_stack(stack@, id@));
                    }
                }
                let p = choose|p: Seq<int>| clean_path(g0, p, id@, j);
                lemma_path_dirty(g0, g1, p, id@, j);
            }
            assert forall|j: int|
                g0.valid(j) implies (#[trigger] g1.is_clean(j) <==> g0.is_clean(j) && !clean_reach(
                g0,
                id@,
                j,
            )) by {
                if g1.is_clean(j) {
                    assert(g1.athunks@[j] == g0.athunks@[j]);
                }
                if g0.is_clean(j) && !clean_reach(g0, id@, j) {
                    assert(g1.athunks@[j] == g0.athunks@[j]);
                }
            }
            assert forall|j: int|
                g0.valid(j) && #[trigger] clean_reach(g0, id@, j) implies g1.memo_of(j) == Map::<
                Seq<u64>,
                V,
            >::empty() && g1.dirtied_of(j) == bump(g0.dirtied_of(j)) by {
                lemma_reach_clean(g0, id@, j);
                assert(!g1.is_clean(j));
                assert(dirtied_version(g0.athunks@[j], g1.athunks@[j]));
                assert(g1.athunks@[j].result@ =~= Seq::<(Vec<u64>, V)>::empty());
                assert(g1.memo_of(j) =~= Map::<Seq<u64>, V>::empty());
            }
            assert forall|j: int|
                g0.valid(j) && !(#[trigger] clean_reach(g0, id@, j)) implies g1.memo_of(j)
                == g0.memo_of(j) && g1.dirtied_of(j) == g0.dirtied_of(j) by {
                assert(g1.athunks@[j] == g0.athunks@[j]);
            }
            assert forall|j: int|
                g0.valid(j) implies #[trigger] g1.subs_of(j) == g0.subs_of(j) && g1.supers_of(j)
                == g0.supers_of(j) && g1.thunk_of(j) == g0.thunk_of(j) by {
                if g1.athunks@[j] != g0.athunks@[j] {
                    assert(dirtied_version(g0.athunks@[j], g1.athunks@[j]));
                }
            }
            assert(dirty_post(g0, g1, id@));
            assert forall|j: int| g1.valid(j) implies #[trigger] g1.node_inv(j) by {
                assert(g0.node_inv(j));
                if g1.athunks@[j] != g0.athunks@[j] {
                    assert(dirtied_version(g0.athunks@[j], g1.athunks@[j]));
                    assert(g1.athunks@[j].result@.len() == 0);
                }
            }
            assert forall|a: int, b: int|
                g1.valid(a) && g1.valid(b) implies (#[trigger] g1.subs_of(a).contains(b)
                <==> #[trigger] g1.supers_of(b).contains(a)) by {
                assert(g0.subs_of(a).contains(b) <==> g0.supers_of(b).contains(a));
            }
            assert forall|a: int, b: int|
                g1.valid(a) && #[trigger] g1.subs_of(a).contains(b) implies g1.valid(b) by {
                assert(g0.subs_of(a).contains(b));
            }
            assert forall|a: int, b: int|
                g1.valid(a) && #[trigger] g1.supers_of(a).contains(b) implies g1.valid(b) by {
                assert(g0.supers_of(a).contains(b));
            }
            assert forall|j: int|
                g1.valid(j) && !g1.is_clean(j) implies #[trigger] g1.memo_of(j) == Map::<
                Seq<u64>,
                V,
            >::empty() by {
                if g1.athunks@[j] == g0.athunks@[j] {
                    assert(g0.memo_of(j) == Map::<Seq<u64>, V>::empty());
                    assert(g1.memo_of(j) == g0.memo_of(j));
                } else {
                    assert(dirtied_version(g0.athunks@[j], g1.athunks@[j]));
                    assert(g1.athunks@[j].result@ =~= Seq::<(Vec<u64>, V)>::empty());
                    assert(g1.memo_of(j) =~= Map::<Seq<u64>, V>::empty());
                }
            }
            assert forall|j: int, k: Seq<u64>|
                g1.valid(j) && #[trigger] g1.memo_of(j).contains_key(k) implies (g1.thunk_of(
                j,
            ) matches Some(Thunk::Leaf(w)) ==> g1.memo_of(j)[k] == w) by {
                if g1.athunks@[j] == g0.athunks@[j] {
                    assert(g1.memo_of(j) == g0.memo_of(j));
                    assert(g0.memo_of(j).contains_key(k));
                    assert(g1.thunk_of(j) == g0.thunk_of(j));
                } else {
                    assert(dirtied_version(g0.athunks@[j], g1.athunks@[j]));
                    assert(g1.athunks@[j].result@ =~= Seq::<(Vec<u64>, V)>::empty());
                    assert(g1.memo_of(j) =~= Map::<Seq<u64>, V>::empty());
                }
            }
            assert(g1.wf());
        }
    }

    /// Replace the node's computation with a leaf returning `val`, then
    /// invalidate the node and everything transitively depending on it.
    /// Does not itself evaluate anything, and always counts as a change.
    pub fn update_aref(&mut self, id: AThunkID, val: V)
        requires
            old(self).wf(),
            old(self).valid(id@),
        ensures
            final(self).wf(),
            update_post(*old(self), *final(self), id@, val),
    {
        let ghost g0 = *old(self);
        self.dirty(id);
        let ghost gm = *self;
        proof {
            assert(gm.memo_of(id@) == Map::<Seq<u64>, V>::empty()) by {
                if g0.is_clean(id@) {
                    lemma_reach_self(g0, id@);
                } else {
                    assert(!clean_reach(g0, id@, id@)) by {
                        if clean_reach(g0, id@, id@) {
                            lemma_reach_clean(g0, id@, id@);
                        }
                    }
                    assert(gm.memo_of(id@) == g0.memo_of(id@));
                }
            }
        }
        self.athunks[id.0].thunk = Some(Thunk::Leaf(val));
        proof {
            let g1 = *self;
            assert(forall|j: int|
                0 <= j < gm.athunks@.len() && j != id@ ==> g1.athunks@[j] == gm.athunks@[j]);
            assert forall|j: int|
                #![trigger g1.subs_of(j)]
                #![trigger g1.supers_of(j)]
                #![trigger g1.memo_of(j)]
                #![trigger g1.is_clean(j)]
                #![trigger g1.dirtied_of(j)]
                gm.valid(j) implies g1.subs_of(j) == gm.subs_of(j) && g1.supers_of(j)
                == gm.supers_of(j) && g1.memo_of(j) == gm.memo_of(j) && g1.is_clean(j)
                == gm.is_clean(j) && g1.dirtied_of(j) == gm.dirtied_of(j) by {
                assert(g1.athunks@[j].sub_computations == gm.athunks@[j].sub_computations);
                assert(g1.athunks@[j].super_computations == gm.athunks@[j].super_computations);
                assert(g1.athunks@[j].result == gm.athunks@[j].result);
                assert(g1.athunks@[j].clean == gm.athunks@[j].clean);
                assert(g1.athunks@[j].dirtied == gm.athunks@[j].dirtied);
            }
            assert forall|j: int|
                gm.valid(j) && j != id@ implies #[trigger] g1.thunk_of(j) == gm.thunk_of(j) by {}
            assert(dirty_shape(g0, g1, id@));
            assert(update_post(g0, g1, id@, val));
            assert forall|j: int| g1.valid(j) implies #[trigger] g1.node_inv(j) by {
                assert(gm.node_inv(j));
                assert(g1.athunks@[j].sub_computations == gm.athunks@[j].sub_computations);
                assert(g1.athunks@[j].super_computations == gm.athunks@[j].super_computations);
                assert(g1.athunks@[j].result == gm.athunks@[j].result);
                assert(g1.athunks@[j].id == gm.athunks@[j].id);
            }
            assert forall|a: int, b: int|
                g1.valid(a) && g1.valid(b) implies (#[trigger] g1.subs_of(a).contains(b)
                <==> #[trigger] g1.supers_of(b).contains(a)) by {
                assert(gm.subs_of(a).contains(b) <==> gm.supers_of(b).contains(a));
            }
            assert forall|a: int, b: int|
                g1.valid(a) && #[trigger] g1.subs_of(a).contains(b) implies g1.valid(b) by {
                assert(gm.subs_of(a).contains(b));
            }
            assert forall|a: int, b: int|
                g1.valid(a) && #[trigger] g1.supers_of(a).contains(b) implies g1.valid(b) by {
                assert(gm.supers_of(a).contains(b));
            }
            assert forall|j: int|
                g1.valid(j) && !g1.is_clean(j) implies #[trigger] g1.memo_of(j) == Map::<
                Seq<u64>,
                V,
            >::empty() by {
                assert(gm.memo_of(j) == Map::<Seq<u64>, V>::empty());
            }
            assert forall|j: int, k: Seq<u64>|
                g1.valid(j) && #[trigger] g1.memo_of(j).contains_key(k) implies (g1.thunk_of(
                j,
            ) matches Some(Thunk::Leaf(w)) ==> g1.memo_of(j)[k] == w) by {
                assert(g1.memo_of(j) == gm.memo_of(j));
                assert(gm.memo_of(j).contains_key(k));
                if j != id@ {
                    assert(g1.thunk_of(j) == gm.thunk_of(j));
                } else {
                    assert(gm.memo_of(id@) == Map::<Seq<u64>, V>::empty());
                }
            }
            assert(g1.wf());
        }
    }
}

} // verus!
