//! A node's memo table: cached results keyed by argument fingerprints.
//!
//! The table is a vector of key/value entries with pairwise-distinct keys,
//! viewed as the map from each cache key to the value memoized under it.

use vstd::prelude::*;

verus! {

/// The map a memo vector stands for; a later entry would win over an
/// earlier one, though well-formed tables never hold a key twice.
pub open spec fn kv_map<V>(s: Seq<(Vec<u64>, V)>) -> Map<Seq<u64>, V>
    decreases s.len(),
{
    if s.len() == 0 {
        Map::empty()
    } else {
        kv_map(s.drop_last()).insert(s.last().0@, s.last().1)
    }
}

/// No cache key occurs twice in the memo vector.
pub open spec fn memo_distinct<V>(s: Seq<(Vec<u64>, V)>) -> bool {
    forall|a: int, b: int| 0 <= a < b < s.len() ==> s[a].0@ != s[b].0@
}

/// A key is in the memo map exactly when some entry holds it.
pub proof fn lemma_kv_contains<V>(s: Seq<(Vec<u64>, V)>, k: Seq<u64>)
    ensures
        kv_map(s).contains_key(k) <==> exists|a: int| 0 <= a < s.len() && s[a].0@ == k,
    decreases s.len(),
{
    if s.len() > 0 {
        lemma_kv_contains(s.drop_last(), k);
        if kv_map(s).contains_key(k) {
            if k == s.last().0@ {
                assert(s[s.len() - 1].0@ == k);
            } else {
                let a = choose|a: int| 0 <= a < s.drop_last().len() && s.drop_last()[a].0@ == k;
                assert(s[a].0@ == k);
            }
        }
        if exists|a: int| 0 <= a < s.len() && s[a].0@ == k {
            let a = choose|a: int| 0 <= a < s.len() && s[a].0@ == k;
            if a < s.len() - 1 {
                assert(s.drop_last()[a].0@ == k);
            }
        }
    }
}

/// In a well-formed memo vector, each entry's key maps to its value.
pub proof fn lemma_kv_value<V>(s: Seq<(Vec<u64>, V)>, a: int)
    requires
        memo_distinct(s),
        0 <= a < s.len(),
    ensures
        kv_map(s).contains_key(s[a].0@),
        kv_map(s)[s[a].0@] == s[a].1,
    decreases s.len(),
{
    if a < s.len() - 1 {
        assert(memo_distinct(s.drop_last())) by {
            assert forall|x: int, y: int|
                0 <= x < y < s.drop_last().len() implies s.drop_last()[x].0@ != s.drop_last()[y].0@
            by {
                assert(s[x].0@ != s[y].0@);
            }
        }
        lemma_kv_value(s.drop_last(), a);
        assert(s.drop_last()[a] == s[a]);
        assert(s[a].0@ != s.last().0@);
    }
}

/// Whether two cache keys are the same key.
pub(crate) fn keys_eq(a: &Vec<u64>, b: &Vec<u64>) -> (r: bool)
    ensures
        r == (a@ == b@),
{
    if a.len() != b.len() {
        assert(a@ !~= b@);
        return false;
    }
    let mut j: usize = 0;
    while j < a.len()
        invariant
            a@.len() == b@.len(),
            j <= a@.len(),
            forall|t: int| 0 <= t < j ==> a@[t] == b@[t],
        decreases a@.len() - j,
    {
        if a[j] != b[j] {
            return false;
        }
        j = j + 1;
    }
    assert(a@ =~= b@);
    true
}

/// Look a cache key up in the memo vector.
pub(crate) fn memo_lookup<V: Copy>(m: &Vec<(Vec<u64>, V)>, k: &Vec<u64>) -> (r: Option<V>)
    requires
        memo_distinct(m@),
    ensures
        r == if kv_map(m@).contains_key(k@) {
            Some(kv_map(m@)[k@])
        } else {
            None::<V>
        },
{
    let mut j: usize = 0;
    while j < m.len()
        invariant
            memo_distinct(m@),
            j <= m@.len(),
            forall|t: int| 0 <= t < j ==> m@[t].0@ != k@,
        decreases m@.len() - j,
    {
        if keys_eq(&m[j].0, k) {
            proof {
                lemma_kv_value(m@, j as int);
            }
            return Some(m[j].1);
        }
        j = j + 1;
    }
    proof {
        lemma_kv_contains(m@, k@);
    }
    None
}

/// Drop whatever the memo vector holds under the key `k`.
pub(crate) fn memo_remove<V: Copy>(m: &mut Vec<(Vec<u64>, V)>, k: &Vec<u64>)
    requires
        memo_distinct(old(m)@),
    ensures
        memo_distinct(final(m)@),
        kv_map(final(m)@) == kv_map(old(m)@).remove(k@),
{
    let mut j: usize = 0;
    while j < m.len()
        invariant
            memo_distinct(m@),
            m@ == old(m)@,
            j <= m@.len(),
            forall|t: int| 0 <= t < j ==> m@[t].0@ != k@,
        decreases m@.len() - j,
    {
        if keys_eq(&m[j].0, k) {
            let ghost before = m@;
            m.remove(j);
            proof {
                lemma_removed_entry(before, m@, j as int, k@);
            }
            return ;
        }
        j = j + 1;
    }
    proof {
        lemma_kv_contains(m@, k@);
        assert(kv_map(m@) =~= kv_map(m@).remove(k@));
    }
}

/// Memoize `v` under the key `k`, replacing any value the key held.
pub(crate) fn memo_insert<V: Copy>(m: &mut Vec<(Vec<u64>, V)>, k: Vec<u64>, v: V)
    requires
        memo_distinct(old(m)@),
    ensures
        memo_distinct(final(m)@),
        kv_map(final(m)@) == kv_map(old(m)@).insert(k@, v),
{
    memo_remove(m, &k);
    let ghost s1 = m@;
    m.push((k, v));
    proof {
        assert(m@.drop_last() =~= s1);
        assert(m@.last().0@ == k@);
        assert(kv_map(m@) == kv_map(s1).insert(k@, v));
        lemma_kv_contains(s1, k@);
        assert forall|t: int, u: int| 0 <= t < u < m@.len() implies m@[t].0@ != m@[u].0@ by {
            if u < m@.len() - 1 {
                assert(m@[t] == s1[t] && m@[u] == s1[u]);
            } else {
                assert(m@[t] == s1[t]);
                assert(!kv_map(s1).contains_key(k@));
            }
        }
        assert(kv_map(m@) =~= kv_map(old(m)@).insert(k@, v));
    }
}

/// Taking one entry out takes exactly its key out of the memo map.
proof fn lemma_removed_entry<V>(s: Seq<(Vec<u64>, V)>, t: Seq<(Vec<u64>, V)>, j: int, k: Seq<u64>)
    requires
        memo_distinct(s),
        0 <= j < s.len(),
        s[j].0@ == k,
        t == s.remove(j),
    ensures
        memo_distinct(t),
        kv_map(t) == kv_map(s).remove(k),
{
    assert forall|a: int, b: int| 0 <= a < b < t.len() implies t[a].0@ != t[b].0@ by {
        let a2: int = if a < j {
            a
        } else {
            a + 1
        };
        let b2: int = if b < j {
            b
        } else {
            b + 1
        };
        assert(t[a] == s[a2] && t[b] == s[b2]);
        assert(s[a2].0@ != s[b2].0@);
    }
    assert(kv_map(t) =~= kv_map(s).remove(k)) by {
        assert forall|q: Seq<u64>| #[trigger]
            kv_map(t).contains_key(q) implies kv_map(s).remove(k).contains_key(q) && kv_map(t)[q]
            == kv_map(s)[q] by {
            lemma_kv_contains(t, q);
            let a = choose|a: int| 0 <= a < t.len() && t[a].0@ == q;
            let a2: int = if a < j {
                a
            } else {
                a + 1
            };
            assert(t[a] == s[a2]);
            assert(a2 != j ==> s[a2].0@ != s[j].0@);
            assert(q != k);
            lemma_kv_value(t, a);
            lemma_kv_value(s, a2);
        }
        assert forall|q: Seq<u64>| #[trigger]
            kv_map(s).remove(k).contains_key(q) implies kv_map(t).contains_key(q) by {
            lemma_kv_contains(s, q);
            lemma_kv_contains(t, q);
            let a = choose|a: int| 0 <= a < s.len() && s[a].0@ == q;
            assert(a != j);
            if a < j {
                assert(t[a] == s[a]);
            } else {
                assert(t[a - 1] == s[a]);
            }
        }
    }
}

} // verus!
