//! Laws that relate the operations of the cache, stated over its entries (most recently
//! used first), as the contracts in `lru` give them.
use vstd::prelude::*;
use crate::model::{
    added, evicted, first_value, has_key, index_of, keys_of, lemma_index_of, lemma_push_front_keys,
    lemma_remove_keys, lookup, removed, touched, valid_entries,
};

verus! {

/// `add`, `get` and `remove` keep the entries within the capacity with distinct keys
/// (`peek` leaves them as they are), and the number of entries is the number of keys
/// for which a lookup finds a value.
pub proof fn law_len_within_capacity<K, V>(s: Seq<(K, V)>, cap: nat, k: K, v: V)
    requires
        valid_entries(s, cap),
    ensures
        s.len() <= cap,
        s.len() == keys_of(s).len(),
        forall|q: K| keys_of(s).contains(q) <==> lookup(s, q) is Some,
        valid_entries(added(s, cap, k, v), cap),
        valid_entries(touched(s, k), cap),
        valid_entries(removed(s, k), cap),
{
    let ks = s.map_values(|e: (K, V)| e.0);
    assert(ks.no_duplicates());
    ks.unique_seq_to_set();
    assert forall|q: K| ks.to_set().contains(q) <==> keys_of(s).contains(q) by {
        if ks.to_set().contains(q) {
            let i = choose|i: int| 0 <= i < ks.len() && ks[i] == q;
            assert(s[i].0 == q);
        }
        if has_key(s, q) {
            let i = choose|i: int| 0 <= i < s.len() && (#[trigger] s[i]).0 == q;
            assert(ks[i] == q);
        }
    }
    assert(ks.to_set() =~= keys_of(s));
    if has_key(s, k) {
        lemma_index_of(s, k);
        let i = index_of(s, k);
        lemma_remove_keys(s, i);
        lemma_push_front_keys(s.remove(i), (k, v));
        lemma_push_front_keys(s.remove(i), s[i]);
    } else {
        lemma_push_front_keys(s, (k, v));
        let t = seq![(k, v)] + s;
        if s.len() + 1 > cap {
            assert(t.drop_last() =~= t.remove(t.len() - 1));
            lemma_remove_keys(t, t.len() - 1);
        }
    }
}

/// Adding a new key to a full cache evicts exactly one entry, the least recently used
/// one (the last), and the cache stays full. With capacity 0 the new entry itself is
/// evicted.
pub proof fn law_full_add_evicts_last<K, V>(s: Seq<(K, V)>, cap: nat, k: K, v: V)
    requires
        valid_entries(s, cap),
        !has_key(s, k),
        s.len() == cap,
    ensures
        added(s, cap, k, v).len() == cap,
        cap > 0 ==> evicted(s, cap, k, v) == Some(s.last()),
        cap > 0 ==> added(s, cap, k, v) == seq![(k, v)] + s.drop_last(),
        cap > 0 ==> !has_key(added(s, cap, k, v), s.last().0),
        cap == 0 ==> evicted(s, cap, k, v) == Some((k, v)),
        cap == 0 ==> added(s, cap, k, v) == s,
{
    let t = seq![(k, v)] + s;
    assert(t.drop_last() =~= t.remove(t.len() - 1));
    if cap > 0 {
        assert(added(s, cap, k, v) =~= seq![(k, v)] + s.drop_last());
        lemma_push_front_keys(s, (k, v));
        lemma_remove_keys(t, t.len() - 1);
    } else {
        assert(added(s, cap, k, v) =~= s);
    }
}

/// A lookup with promotion, or an `add` of a key already present, makes that key the
/// most recently used: the first entry then holds its value, and the key in front
/// changes whenever it was not that key before.
pub proof fn law_promotion_moves_to_front<K, V>(s: Seq<(K, V)>, cap: nat, k: K, v: V)
    requires
        valid_entries(s, cap),
        has_key(s, k),
    ensures
        touched(s, k)[0].0 == k,
        first_value(touched(s, k)) == lookup(s, k),
        added(s, cap, k, v)[0] == (k, v),
        first_value(added(s, cap, k, v)) == Some(v),
        s[0].0 != k ==> touched(s, k)[0].0 != s[0].0,
        s[0].0 != k ==> added(s, cap, k, v)[0].0 != s[0].0,
{
    lemma_index_of(s, k);
}

/// An `add` followed at once by a lookup of the same key finds the value just added,
/// on any cache that can hold an entry.
pub proof fn law_add_then_get<K, V>(s: Seq<(K, V)>, cap: nat, k: K, v: V)
    requires
        valid_entries(s, cap),
        cap > 0,
    ensures
        lookup(added(s, cap, k, v), k) == Some(v),
{
    let a = added(s, cap, k, v);
    assert(a[0] == (k, v));
    assert(has_key(a, k));
    law_len_within_capacity(s, cap, k, v);
    lemma_index_of(a, k);
}

} // verus!
