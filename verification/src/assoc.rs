//! Association lists with distinct keys, read as maps.

use vstd::prelude::*;

verus! {

/// No key occurs twice.
pub open spec fn keys_distinct<K, V>(s: Seq<(K, V)>) -> bool {
    forall|i: int, j: int| 0 <= i < j < s.len() ==> s[i].0 != s[j].0
}

/// Some entry of the list has the key.
pub open spec fn has_key<K, V>(s: Seq<(K, V)>, k: K) -> bool {
    exists|i: int| 0 <= i < s.len() && (#[trigger] s[i]).0 == k
}

/// The map that the list stands for.
pub open spec fn assoc_map<K, V>(s: Seq<(K, V)>) -> Map<K, V> {
    Map::new(
        |k: K| has_key(s, k),
        |k: K| s[choose|i: int| 0 <= i < s.len() && (#[trigger] s[i]).0 == k].1,
    )
}

/// Each entry of a list with distinct keys is found in its map.
pub proof fn lemma_assoc_at<K, V>(s: Seq<(K, V)>, i: int)
    requires
        keys_distinct(s),
        0 <= i < s.len(),
    ensures
        assoc_map(s).dom().contains(s[i].0),
        assoc_map(s)[s[i].0] == s[i].1,
{
    let k = s[i].0;
    assert(has_key(s, k));
    let j = choose|j: int| 0 <= j < s.len() && (#[trigger] s[j]).0 == k;
    if i < j {
        assert(s[i].0 != s[j].0);
    } else if j < i {
        assert(s[j].0 != s[i].0);
    }
}

/// A key that no entry has is not in the map.
pub proof fn lemma_assoc_absent<K, V>(s: Seq<(K, V)>, k: K)
    requires
        forall|i: int| 0 <= i < s.len() ==> (#[trigger] s[i]).0 != k,
    ensures
        !assoc_map(s).dom().contains(k),
{
}

/// The empty list stands for the empty map.
pub proof fn lemma_assoc_empty<K, V>()
    ensures
        assoc_map(Seq::<(K, V)>::empty()) == Map::<K, V>::empty(),
{
    assert(assoc_map(Seq::<(K, V)>::empty()) =~= Map::<K, V>::empty());
}

/// Inserting an entry under a new key, at any place, inserts it in the map.
pub proof fn lemma_assoc_insert<K, V>(s: Seq<(K, V)>, p: int, k: K, v: V)
    requires
        keys_distinct(s),
        0 <= p <= s.len(),
        forall|i: int| 0 <= i < s.len() ==> (#[trigger] s[i]).0 != k,
    ensures
        keys_distinct(s.insert(p, (k, v))),
        assoc_map(s.insert(p, (k, v))) == assoc_map(s).insert(k, v),
{
    let t = s.insert(p, (k, v));
    assert forall|i: int, j: int| 0 <= i < j < t.len() implies t[i].0 != t[j].0 by {
        let a = if i < p { i } else { i - 1 };
        let b = if j < p { j } else { j - 1 };
        if i != p && j != p {
            assert(t[i] == s[a] && t[j] == s[b]);
            assert(s[a].0 != s[b].0);
        } else if i == p {
            assert(t[j] == s[b]);
        } else {
            assert(t[i] == s[a]);
        }
    }
    assert forall|x: K| assoc_map(t).dom().contains(x) <==> assoc_map(s).insert(k, v).dom().contains(
        x,
    ) by {
        if has_key(t, x) {
            let i = choose|i: int| 0 <= i < t.len() && (#[trigger] t[i]).0 == x;
            if i != p {
                let a = if i < p { i } else { i - 1 };
                assert(t[i] == s[a]);
                assert(has_key(s, x));
            }
        }
        if x == k {
            assert(t[p].0 == k);
        } else if has_key(s, x) {
            let a = choose|a: int| 0 <= a < s.len() && (#[trigger] s[a]).0 == x;
            let i = if a < p { a } else { a + 1 };
            assert(t[i] == s[a]);
        }
    }
    assert forall|x: K| assoc_map(t).dom().contains(x) implies assoc_map(t)[x] == assoc_map(s).insert(
        k,
        v,
    )[x] by {
        let i = choose|i: int| 0 <= i < t.len() && (#[trigger] t[i]).0 == x;
        lemma_assoc_at(t, i);
        if i != p {
            let a = if i < p { i } else { i - 1 };
            assert(t[i] == s[a]);
            lemma_assoc_at(s, a);
        }
    }
    assert(assoc_map(t) =~= assoc_map(s).insert(k, v));
}

/// Removing an entry removes its key from the map.
pub proof fn lemma_assoc_remove<K, V>(s: Seq<(K, V)>, p: int)
    requires
        keys_distinct(s),
        0 <= p < s.len(),
    ensures
        keys_distinct(s.remove(p)),
        assoc_map(s.remove(p)) == assoc_map(s).remove(s[p].0),
{
    let t = s.remove(p);
    let k = s[p].0;
    assert forall|i: int, j: int| 0 <= i < j < t.len() implies t[i].0 != t[j].0 by {
        let a = if i < p { i } else { i + 1 };
        let b = if j < p { j } else { j + 1 };
        assert(t[i] == s[a] && t[j] == s[b]);
        assert(s[a].0 != s[b].0);
    }
    assert forall|x: K| assoc_map(t).dom().contains(x) <==> assoc_map(s).remove(k).dom().contains(
        x,
    ) by {
        if has_key(t, x) {
            let i = choose|i: int| 0 <= i < t.len() && (#[trigger] t[i]).0 == x;
            let a = if i < p { i } else { i + 1 };
            assert(t[i] == s[a]);
            assert(has_key(s, x));
            if a < p {
                assert(s[a].0 != s[p].0);
            } else {
                assert(s[p].0 != s[a].0);
            }
        }
        if x != k && has_key(s, x) {
            let a = choose|a: int| 0 <= a < s.len() && (#[trigger] s[a]).0 == x;
            let i = if a < p { a } else { a - 1 };
            assert(t[i] == s[a]);
        }
    }
    assert forall|x: K| assoc_map(t).dom().contains(x) implies assoc_map(t)[x] == assoc_map(s).remove(
        k,
    )[x] by {
        let i = choose|i: int| 0 <= i < t.len() && (#[trigger] t[i]).0 == x;
        let a = if i < p { i } else { i + 1 };
        assert(t[i] == s[a]);
        lemma_assoc_at(t, i);
        lemma_assoc_at(s, a);
    }
    assert(assoc_map(t) =~= assoc_map(s).remove(k));
}

/// Replacing the value of an entry replaces it in the map.
pub proof fn lemma_assoc_update<K, V>(s: Seq<(K, V)>, p: int, v: V)
    requires
        keys_distinct(s),
        0 <= p < s.len(),
    ensures
        keys_distinct(s.update(p, (s[p].0, v))),
        assoc_map(s.update(p, (s[p].0, v))) == assoc_map(s).insert(s[p].0, v),
{
    let k = s[p].0;
    let t = s.update(p, (k, v));
    assert forall|i: int, j: int| 0 <= i < j < t.len() implies t[i].0 != t[j].0 by {
        assert(t[i].0 == s[i].0 && t[j].0 == s[j].0);
    }
    assert forall|x: K| assoc_map(t).dom().contains(x) <==> assoc_map(s).insert(k, v).dom().contains(
        x,
    ) by {
        if has_key(t, x) {
            let i = choose|i: int| 0 <= i < t.len() && (#[trigger] t[i]).0 == x;
            assert(s[i].0 == x);
        }
        if x == k {
            assert(t[p].0 == k);
        } else if has_key(s, x) {
            let a = choose|a: int| 0 <= a < s.len() && (#[trigger] s[a]).0 == x;
            assert(t[a].0 == x);
        }
    }
    assert forall|x: K| assoc_map(t).dom().contains(x) implies assoc_map(t)[x] == assoc_map(s).insert(
        k,
        v,
    )[x] by {
        let i = choose|i: int| 0 <= i < t.len() && (#[trigger] t[i]).0 == x;
        lemma_assoc_at(t, i);
        if i != p {
            assert(t[i] == s[i]);
            lemma_assoc_at(s, i);
        }
    }
    assert(assoc_map(t) =~= assoc_map(s).insert(k, v));
}

} // verus!
