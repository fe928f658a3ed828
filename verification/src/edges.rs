//! Dependency-edge bookkeeping.
//!
//! A node's dependency and dependent edges are each a duplicate-free vector
//! of node identities, viewed as the set of node indices it holds.

use vstd::prelude::*;

use crate::ids::AThunkID;

verus! {

/// The set of node indices held by an edge vector.
pub open spec fn id_set(s: Seq<AThunkID>) -> Set<int> {
    Set::new(|j: int| exists|k: int| 0 <= k < s.len() && s[k]@ == j)
}

/// No node occurs twice in an edge vector.
pub open spec fn distinct_ids(s: Seq<AThunkID>) -> bool {
    forall|a: int, b: int| 0 <= a < b < s.len() ==> s[a]@ != s[b]@
}

/// Whether the edge vector holds `x`.
pub(crate) fn id_contains(v: &Vec<AThunkID>, x: AThunkID) -> (r: bool)
    ensures
        r == id_set(v@).contains(x@),
{
    let mut j: usize = 0;
    while j < v.len()
        invariant
            j <= v@.len(),
            forall|t: int| 0 <= t < j ==> v@[t]@ != x@,
        decreases v@.len() - j,
    {
        if v[j] == x {
            assert(id_set(v@).contains(x@));
            return true;
        }
        j = j + 1;
    }
    assert(!id_set(v@).contains(x@));
    false
}

/// Add `x` to the edge vector; adding a member again changes nothing.
pub(crate) fn id_insert(v: &mut Vec<AThunkID>, x: AThunkID)
    requires
        distinct_ids(old(v)@),
    ensures
        distinct_ids(final(v)@),
        id_set(final(v)@) == id_set(old(v)@).insert(x@),
{
    let present = id_contains(v, x);
    if !present {
        v.push(x);
        assert forall|t: int| 0 <= t < v@.len() - 1 implies v@[t]@ != x@ by {
            assert(id_set(old(v)@).contains(v@[t]@));
        }
    }
    assert(id_set(v@) =~= id_set(old(v)@).insert(x@)) by {
        assert forall|j: int| id_set(old(v)@).insert(x@).contains(j) implies id_set(
            v@,
        ).contains(j) by {
            if j == x@ {
                assert(v@[v@.len() - 1]@ == x@ || id_set(old(v)@).contains(x@));
            } else {
                let k = choose|k: int| 0 <= k < old(v)@.len() && old(v)@[k]@ == j;
                assert(v@[k]@ == j);
            }
        }
    }
}

/// Take `x` out of the edge vector; taking a non-member out changes nothing.
pub(crate) fn id_remove(v: &mut Vec<AThunkID>, x: AThunkID)
    requires
        distinct_ids(old(v)@),
    ensures
        distinct_ids(final(v)@),
        id_set(final(v)@) == id_set(old(v)@).remove(x@),
{
    let mut j: usize = 0;
    while j < v.len()
        invariant
            distinct_ids(v@),
            v@ == old(v)@,
            j <= v@.len(),
            forall|t: int| 0 <= t < j ==> v@[t]@ != x@,
        decreases v@.len() - j,
    {
        if v[j] == x {
            v.remove(j);
            assert(id_set(v@) =~= id_set(old(v)@).remove(x@)) by {
                assert forall|t: int| 0 <= t < v@.len() implies v@[t]@ != x@ && id_set(
                    old(v)@,
                ).contains(v@[t]@) by {
                    if t < j {
                        assert(v@[t] == old(v)@[t]);
                    } else {
                        assert(v@[t] == old(v)@[t + 1]);
                    }
                }
                assert forall|i: int|
                    0 <= i < old(v)@.len() && old(v)@[i]@ != x@ implies id_set(v@).contains(
                    old(v)@[i]@,
                ) by {
                    if i < j {
                        assert(v@[i] == old(v)@[i]);
                    } else {
                        assert(i != j);
                        assert(v@[i - 1] == old(v)@[i]);
                    }
                }
            }
            return ;
        }
        j = j + 1;
    }
    assert(id_set(v@) =~= id_set(old(v)@).remove(x@));
}

/// Append every identity of `items` to `stack`.
pub(crate) fn push_all(stack: &mut Vec<AThunkID>, items: &Vec<AThunkID>)
    ensures
        final(stack)@ == old(stack)@ + items@,
{
    let mut x: usize = 0;
    while x < items.len()
        invariant
            x <= items@.len(),
            stack@ == old(stack)@ + items@.take(x as int),
        decreases items@.len() - x,
    {
        stack.push(items[x]);
        proof {
            assert(old(stack)@ + items@.take(x as int + 1) =~= (old(stack)@ + items@.take(
                x as int,
            )).push(items@[x as int]));
        }
        x = x + 1;
    }
    assert(items@.take(items@.len() as int) =~= items@);
}

} // verus!
