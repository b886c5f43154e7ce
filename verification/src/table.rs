//! Ordered tables keyed by name, as resource tables keep their entries:
//! lookup by key, and insertion that replaces a present key in place or
//! appends a new one.
use vstd::prelude::*;

verus! {

/// The index of the first entry with key `k`.
pub open spec fn key_index<K, V>(t: Seq<(K, V)>, k: K) -> Option<int>
    decreases t.len(),
{
    if t.len() == 0 {
        None
    } else if t[0].0 == k {
        Some(0)
    } else {
        match key_index(t.drop_first(), k) {
            Some(i) => Some(i + 1),
            None => None,
        }
    }
}

/// The value stored under `k`.
pub open spec fn lookup<K, V>(t: Seq<(K, V)>, k: K) -> Option<V> {
    match key_index(t, k) {
        Some(i) => Some(t[i].1),
        None => None,
    }
}

/// The table with `k` mapped to `v`: replaced in place when present,
/// appended otherwise.
pub open spec fn put<K, V>(t: Seq<(K, V)>, k: K, v: V) -> Seq<(K, V)> {
    match key_index(t, k) {
        Some(i) => t.update(i, (k, v)),
        None => t.push((k, v)),
    }
}

/// What `key_index` finds: the first entry with the key, or no entry at all.
pub proof fn lemma_key_index<K, V>(t: Seq<(K, V)>, k: K)
    ensures
        match key_index(t, k) {
            Some(i) => 0 <= i < t.len() && t[i].0 == k && forall|j: int|
                0 <= j < i ==> #[trigger] t[j].0 != k,
            None => forall|j: int| 0 <= j < t.len() ==> #[trigger] t[j].0 != k,
        },
    decreases t.len(),
{
    if t.len() > 0 && t[0].0 != k {
        let rest = t.drop_first();
        lemma_key_index(rest, k);
        match key_index(rest, k) {
            Some(i) => {
                assert forall|j: int| 0 <= j < i + 1 implies #[trigger] t[j].0 != k by {
                    if j > 0 {
                        assert(t[j] == rest[j - 1]);
                    }
                }
            },
            None => {
                assert forall|j: int| 0 <= j < t.len() implies #[trigger] t[j].0 != k by {
                    if j > 0 {
                        assert(t[j] == rest[j - 1]);
                    }
                }
            },
        }
    }
}

/// The first index with the key, given by its characterization.
pub proof fn lemma_key_index_is<K, V>(t: Seq<(K, V)>, k: K, i: int)
    requires
        0 <= i < t.len(),
        t[i].0 == k,
        forall|j: int| 0 <= j < i ==> #[trigger] t[j].0 != k,
    ensures
        key_index(t, k) == Some(i),
{
    lemma_key_index(t, k);
    match key_index(t, k) {
        Some(i2) => {
            if i2 < i {
                assert(t[i2].0 != k);
            } else if i2 > i {
                assert(t[i].0 != k);
            }
        },
        None => {
            assert(t[i].0 != k);
        },
    }
}

/// After `put`, the key maps to the new value and every other key to what
/// it mapped to before.
pub proof fn lemma_put<K, V>(t: Seq<(K, V)>, k: K, v: V)
    ensures
        lookup(put(t, k, v), k) == Some(v),
        forall|k2: K| k2 != k ==> #[trigger] lookup(put(t, k, v), k2) == lookup(t, k2),
        key_index(t, k) is Some ==> put(t, k, v).len() == t.len(),
        key_index(t, k) is None ==> put(t, k, v).len() == t.len() + 1,
{
    let t2 = put(t, k, v);
    lemma_key_index(t, k);
    match key_index(t, k) {
        Some(i) => {
            assert forall|j: int| 0 <= j < i implies #[trigger] t2[j].0 != k by {
                assert(t2[j] == t[j]);
            }
            lemma_key_index_is(t2, k, i);
        },
        None => {
            assert forall|j: int| 0 <= j < t.len() implies #[trigger] t2[j].0 != k by {
                assert(t2[j] == t[j]);
            }
            lemma_key_index_is(t2, k, t.len() as int);
        },
    }
    assert forall|k2: K| k2 != k implies #[trigger] lookup(put(t, k, v), k2) == lookup(t, k2) by {
        lemma_key_index(t, k2);
        lemma_key_index(t2, k2);
        match key_index(t, k2) {
            Some(i2) => {
                assert forall|j: int| 0 <= j < i2 implies #[trigger] t2[j].0 != k2 by {
                    if j < t.len() && t2[j] != t[j] {
                        assert(t2[j].0 == k);
                    }
                }
                assert(t2[i2].0 == k2);
                lemma_key_index_is(t2, k2, i2);
            },
            None => {
                assert forall|j: int| 0 <= j < t2.len() implies #[trigger] t2[j].0 != k2 by {
                    if j < t.len() && t2[j] != t[j] {
                        assert(t2[j].0 == k);
                    } else if j >= t.len() {
                        assert(t2[j].0 == k);
                    }
                }
            },
        }
    }
}

/// A second `put` under the same key overrides the first.
pub proof fn lemma_put_put<K, V>(t: Seq<(K, V)>, k: K, v: V, w: V)
    ensures
        put(put(t, k, v), k, w) == put(t, k, w),
{
    lemma_key_index(t, k);
    let t1 = put(t, k, v);
    match key_index(t, k) {
        Some(i) => {
            assert forall|j: int| 0 <= j < i implies #[trigger] t1[j].0 != k by {
                assert(t1[j] == t[j]);
            }
            lemma_key_index_is(t1, k, i);
            assert(t1.update(i, (k, w)) =~= t.update(i, (k, w)));
        },
        None => {
            assert forall|j: int| 0 <= j < t.len() implies #[trigger] t1[j].0 != k by {
                assert(t1[j] == t[j]);
            }
            lemma_key_index_is(t1, k, t.len() as int);
            assert(t1.update(t.len() as int, (k, w)) =~= t.push((k, w)));
        },
    }
}

} // verus!
