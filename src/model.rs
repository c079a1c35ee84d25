//! The abstract behaviour of the cache: a sequence of entries, most recently used first.
use vstd::prelude::*;

verus! {

/// Whether some entry of `s` has key `k`.
pub open spec fn has_key<K, V>(s: Seq<(K, V)>, k: K) -> bool {
    exists|i: int| 0 <= i < s.len() && (#[trigger] s[i]).0 == k
}

/// No two entries of `s` share a key.
pub open spec fn keys_distinct<K, V>(s: Seq<(K, V)>) -> bool {
    forall|i: int, j: int|
        0 <= i < s.len() && 0 <= j < s.len() && i != j ==> (#[trigger] s[i]).0 != (#[trigger] s[j]).0
}

/// The position of the entry with key `k` (meaningful when `has_key(s, k)`).
pub open spec fn index_of<K, V>(s: Seq<(K, V)>, k: K) -> int {
    choose|i: int| 0 <= i < s.len() && (#[trigger] s[i]).0 == k
}

/// The value stored under `k`, if any.
pub open spec fn lookup<K, V>(s: Seq<(K, V)>, k: K) -> Option<V> {
    if has_key(s, k) {
        Some(s[index_of(s, k)].1)
    } else {
        None
    }
}

/// `s` with its entry at position `i` moved to the front.
pub open spec fn promote<K, V>(s: Seq<(K, V)>, i: int) -> Seq<(K, V)> {
    seq![s[i]] + s.remove(i)
}

/// The entries after a lookup with promotion of `k`.
pub open spec fn touched<K, V>(s: Seq<(K, V)>, k: K) -> Seq<(K, V)> {
    if has_key(s, k) {
        promote(s, index_of(s, k))
    } else {
        s
    }
}

/// The entries after removing `k`.
pub open spec fn removed<K, V>(s: Seq<(K, V)>, k: K) -> Seq<(K, V)> {
    if has_key(s, k) {
        s.remove(index_of(s, k))
    } else {
        s
    }
}

/// The entries after `add(k, v)` on a cache of capacity `cap`: an existing entry is
/// replaced and moved to the front; a new one goes to the front, and the last entry
/// is dropped when that makes the cache hold more than `cap` entries.
pub open spec fn added<K, V>(s: Seq<(K, V)>, cap: nat, k: K, v: V) -> Seq<(K, V)> {
    if has_key(s, k) {
        seq![(k, v)] + s.remove(index_of(s, k))
    } else if s.len() + 1 > cap {
        (seq![(k, v)] + s).drop_last()
    } else {
        seq![(k, v)] + s
    }
}

/// The entry that `add(k, v)` evicts, if any.
pub open spec fn evicted<K, V>(s: Seq<(K, V)>, cap: nat, k: K, v: V) -> Option<(K, V)> {
    if !has_key(s, k) && s.len() + 1 > cap {
        Some((seq![(k, v)] + s).last())
    } else {
        None
    }
}

/// The value of the most recently used entry, if any.
pub open spec fn first_value<K, V>(s: Seq<(K, V)>) -> Option<V> {
    if s.len() == 0 {
        None
    } else {
        Some(s[0].1)
    }
}

/// The value of the least recently used entry, if any.
pub open spec fn last_value<K, V>(s: Seq<(K, V)>) -> Option<V> {
    if s.len() == 0 {
        None
    } else {
        Some(s.last().1)
    }
}

/// The keys of the entries of `s`.
pub open spec fn keys_of<K, V>(s: Seq<(K, V)>) -> Set<K> {
    Set::new(|k: K| has_key(s, k))
}

/// The entries of a cache of capacity `cap`: distinct keys, and no more than `cap` of them.
pub open spec fn valid_entries<K, V>(s: Seq<(K, V)>, cap: nat) -> bool {
    keys_distinct(s) && s.len() <= cap
}

/// With distinct keys, `index_of` finds the one entry with key `k`.
pub proof fn lemma_index_of<K, V>(s: Seq<(K, V)>, k: K)
    requires
        keys_distinct(s),
        has_key(s, k),
    ensures
        0 <= index_of(s, k) < s.len(),
        s[index_of(s, k)].0 == k,
        forall|j: int| 0 <= j < s.len() && j != index_of(s, k) ==> (#[trigger] s[j]).0 != k,
{
}

/// Removing an entry keeps the keys distinct and drops exactly that entry's key.
pub proof fn lemma_remove_keys<K, V>(s: Seq<(K, V)>, i: int)
    requires
        keys_distinct(s),
        0 <= i < s.len(),
    ensures
        keys_distinct(s.remove(i)),
        forall|k: K| has_key(s.remove(i), k) <==> (has_key(s, k) && k != s[i].0),
{
    let r = s.remove(i);
    assert forall|a: int, b: int|
        0 <= a < r.len() && 0 <= b < r.len() && a != b implies (#[trigger] r[a]).0 != (
        #[trigger] r[b]).0 by {
        let a1 = if a < i { a } else { a + 1 };
        let b1 = if b < i { b } else { b + 1 };
        assert(r[a] == s[a1] && r[b] == s[b1]);
    }
    assert forall|k: K| has_key(r, k) <==> (has_key(s, k) && k != s[i].0) by {
        if has_key(r, k) {
            let a = choose|a: int| 0 <= a < r.len() && (#[trigger] r[a]).0 == k;
            let a1 = if a < i { a } else { a + 1 };
            assert(r[a] == s[a1]);
        }
        if has_key(s, k) && k != s[i].0 {
            let a = choose|a: int| 0 <= a < s.len() && (#[trigger] s[a]).0 == k;
            if a < i {
                assert(r[a] == s[a]);
            } else {
                assert(r[a - 1] == s[a]);
            }
        }
    }
}

/// Putting an entry with a key not yet present in front keeps the keys distinct.
pub proof fn lemma_push_front_keys<K, V>(s: Seq<(K, V)>, e: (K, V))
    requires
        keys_distinct(s),
        !has_key(s, e.0),
    ensures
        keys_distinct(seq![e] + s),
        forall|k: K| has_key(seq![e] + s, k) <==> (has_key(s, k) || k == e.0),
{
    let r = seq![e] + s;
    assert forall|a: int, b: int|
        0 <= a < r.len() && 0 <= b < r.len() && a != b implies (#[trigger] r[a]).0 != (
        #[trigger] r[b]).0 by {
        if a > 0 && b > 0 {
            assert(r[a] == s[a - 1] && r[b] == s[b - 1]);
        } else if a > 0 {
            assert(r[a] == s[a - 1]);
        } else {
            assert(r[b] == s[b - 1]);
        }
    }
    assert forall|k: K| has_key(r, k) <==> (has_key(s, k) || k == e.0) by {
        if has_key(r, k) {
            let a = choose|a: int| 0 <= a < r.len() && (#[trigger] r[a]).0 == k;
            if a > 0 {
                assert(r[a] == s[a - 1]);
            }
        }
        if has_key(s, k) {
            let a = choose|a: int| 0 <= a < s.len() && (#[trigger] s[a]).0 == k;
            assert(r[a + 1] == s[a]);
        }
        if k == e.0 {
            assert(r[0].0 == k);
        }
    }
}

} // verus!
