//! Node identities and argument fingerprinting.

use vstd::prelude::*;

verus! {

/// Identifies a node within one [`crate::graph::Graph`].
///
/// An identity is handed out at node creation, stays stable for the graph's
/// lifetime and is never reused.  Its view is the index of the node in the
/// graph's store.
#[derive(Clone, Copy, PartialEq, Eq, Structural, Hash, Debug)]
pub struct AThunkID(pub usize);

impl View for AThunkID {
    type V = int;

    open spec fn view(&self) -> int {
        self.0 as int
    }
}

/// An argument value that can be fingerprinted for memoization.
///
/// `evaluate` keys a node's cache by the fingerprints of its arguments, one
/// `u64` component per argument.  The fingerprint is deliberately allowed to
/// be lossy (distinct values may share a key and then share one cache
/// entry); what matters is that the key is a function of the value alone,
/// which is what `key`'s contract states.  Integers are their own exact
/// keys; a value the library cannot inspect rides in a [`Keyed`] pair.
pub trait ArgKey: Copy + Sized {
    /// The key component this value collapses to.
    spec fn key_spec(self) -> u64;

    /// Produce the key component; equal values always produce equal keys.
    fn key(self) -> (k: u64)
        ensures
            k == self.key_spec(),
    ;
}

impl ArgKey for u64 {
    open spec fn key_spec(self) -> u64 {
        self
    }

    fn key(self) -> (k: u64) {
        self
    }
}

/// A value paired once, at construction, with its cache-key component.
///
/// This is how value types the verified library cannot inspect -- machine
/// reals above all -- take part in argument keying: the code that makes the
/// value computes its fingerprint there (the baseline policy for reals is
/// truncation to an integral key, so values differing only in fractional
/// part collide), and the pairing keeps the key a function of the pair from
/// then on.
#[derive(Clone, Copy, PartialEq, Debug)]
pub struct Keyed<T> {
    /// The carried value.
    pub value: T,
    /// The value's fingerprint component.
    pub key: u64,
}

impl<T: Copy> ArgKey for Keyed<T> {
    open spec fn key_spec(self) -> u64 {
        self.key
    }

    fn key(self) -> (k: u64) {
        self.key
    }
}

/// The cache key of an argument vector: its values' fingerprints, in order.
pub open spec fn keys_of<V: ArgKey>(args: Seq<V>) -> Seq<u64> {
    args.map_values(|a: V| a.key_spec())
}

/// Compute the cache key of an argument slice.
pub fn key_vec<V: ArgKey>(args: &[V]) -> (ks: Vec<u64>)
    ensures
        ks@ == keys_of(args@),
{
    let mut ks: Vec<u64> = Vec::new();
    let mut j: usize = 0;
    while j < args.len()
        invariant
            j <= args@.len(),
            ks@.len() == j as int,
            forall|t: int| 0 <= t < j ==> ks@[t] == args@[t].key_spec(),
        decreases args@.len() - j,
    {
        ks.push(args[j].key());
        j = j + 1;
    }
    assert(ks@ =~= keys_of(args@));
    ks
}

/// Copy an argument slice into an owned vector.
pub fn copy_args<V: Copy>(args: &[V]) -> (v: Vec<V>)
    ensures
        v@ == args@,
{
    let mut v: Vec<V> = Vec::new();
    let mut j: usize = 0;
    while j < args.len()
        invariant
            j <= args@.len(),
            v@.len() == j as int,
            forall|t: int| 0 <= t < j ==> v@[t] == args@[t],
        decreases args@.len() - j,
    {
        v.push(args[j]);
        j = j + 1;
    }
    assert(v@ =~= args@);
    v
}

} // verus!
