//! Lists of key/value pairs with distinct keys, read as maps.
use vstd::prelude::*;

verus! {

/// No key occurs twice.
pub open spec fn unique_keys<K, V>(s: Seq<(K, V)>) -> bool {
    forall|i: int, j: int|
        0 <= i < s.len() && 0 <= j < s.len() && i != j ==> #[trigger] s[i].0 != #[trigger] s[j].0
}

/// Some pair has key `k`.
pub open spec fn has_key<K, V>(s: Seq<(K, V)>, k: K) -> bool {
    exists|i: int| 0 <= i < s.len() && #[trigger] s[i].0 == k
}

/// The map from each key of the list to the value paired with it.
pub open spec fn keyed_map<K, V>(s: Seq<(K, V)>) -> Map<K, V> {
    Map::new(
        |k: K| has_key(s, k),
        |k: K| s[choose|i: int| 0 <= i < s.len() && #[trigger] s[i].0 == k].1,
    )
}

/// Each pair of the list is an entry of its map.
pub proof fn lemma_keyed_index<K, V>(s: Seq<(K, V)>, i: int)
    requires
        unique_keys(s),
        0 <= i < s.len(),
    ensures
        keyed_map(s).contains_key(s[i].0),
        keyed_map(s)[s[i].0] == s[i].1,
{
    assert(has_key(s, s[i].0));
    let j = choose|j: int| 0 <= j < s.len() && #[trigger] s[j].0 == s[i].0;
    assert(j == i);
}

/// A key that no pair has is not in the map.
pub proof fn lemma_keyed_absent<K, V>(s: Seq<(K, V)>, k: K)
    requires
        !has_key(s, k),
    ensures
        !keyed_map(s).contains_key(k),
{
}

/// The empty list is the empty map.
pub proof fn lemma_keyed_empty<K, V>(s: Seq<(K, V)>)
    requires
        s.len() == 0,
    ensures
        unique_keys(s),
        keyed_map(s) == Map::<K, V>::empty(),
{
    assert(keyed_map(s) =~= Map::<K, V>::empty());
}

/// Two lists with distinct keys whose pairs are the same up to order give one map.
proof fn lemma_keyed_same<K, V>(s: Seq<(K, V)>, t: Seq<(K, V)>, m: Map<K, V>)
    requires
        unique_keys(s),
        forall|k: K| has_key(s, k) <==> m.contains_key(k),
        forall|i: int| 0 <= i < s.len() ==> m[#[trigger] s[i].0] == s[i].1,
        t == s,
    ensures
        keyed_map(t) == m,
{
    assert forall|k: K| #[trigger] keyed_map(s).contains_key(k) implies keyed_map(s)[k] == m[k] by {
        let i = choose|i: int| 0 <= i < s.len() && #[trigger] s[i].0 == k;
        lemma_keyed_index(s, i);
    }
    assert(keyed_map(s) =~= m);
}

/// Adding a pair with a new key adds an entry.
pub proof fn lemma_keyed_push<K, V>(s: Seq<(K, V)>, k: K, v: V)
    requires
        unique_keys(s),
        !has_key(s, k),
    ensures
        unique_keys(s.push((k, v))),
        keyed_map(s.push((k, v))) == keyed_map(s).insert(k, v),
{
    let t = s.push((k, v));
    let m = keyed_map(s).insert(k, v);
    assert(unique_keys(t)) by {
        assert forall|i: int, j: int|
            0 <= i < t.len() && 0 <= j < t.len() && i != j implies #[trigger] t[i].0
            != #[trigger] t[j].0 by {
            if i < s.len() && j < s.len() {
                assert(t[i] == s[i] && t[j] == s[j]);
            } else if i < s.len() {
                assert(t[i] == s[i]);
            } else {
                assert(t[j] == s[j]);
            }
        }
    }
    assert forall|x: K| has_key(t, x) <==> m.contains_key(x) by {
        if has_key(t, x) {
            let i = choose|i: int| 0 <= i < t.len() && #[trigger] t[i].0 == x;
            if i < s.len() {
                assert(t[i] == s[i]);
                assert(has_key(s, x));
            }
        }
        if m.contains_key(x) && x != k {
            let i = choose|i: int| 0 <= i < s.len() && #[trigger] s[i].0 == x;
            assert(t[i] == s[i]);
        }
        if x == k {
            assert(t[s.len() as int].0 == k);
        }
    }
    assert forall|i: int| 0 <= i < t.len() implies m[#[trigger] t[i].0] == t[i].1 by {
        if i < s.len() {
            assert(t[i] == s[i]);
            lemma_keyed_index(s, i);
        }
    }
    lemma_keyed_same(t, t, m);
}

/// Replacing the value of the pair at `i` replaces that entry.
pub proof fn lemma_keyed_update<K, V>(s: Seq<(K, V)>, i: int, v: V)
    requires
        unique_keys(s),
        0 <= i < s.len(),
    ensures
        unique_keys(s.update(i, (s[i].0, v))),
        keyed_map(s.update(i, (s[i].0, v))) == keyed_map(s).insert(s[i].0, v),
{
    let k = s[i].0;
    let t = s.update(i, (k, v));
    let m = keyed_map(s).insert(k, v);
    assert(unique_keys(t)) by {
        assert forall|a: int, b: int|
            0 <= a < t.len() && 0 <= b < t.len() && a != b implies #[trigger] t[a].0
            != #[trigger] t[b].0 by {
            assert(t[a].0 == s[a].0 && t[b].0 == s[b].0);
        }
    }
    assert forall|x: K| has_key(t, x) <==> m.contains_key(x) by {
        if has_key(t, x) {
            let j = choose|j: int| 0 <= j < t.len() && #[trigger] t[j].0 == x;
            assert(s[j].0 == x);
        }
        if m.contains_key(x) && x != k {
            let j = choose|j: int| 0 <= j < s.len() && #[trigger] s[j].0 == x;
            assert(t[j].0 == x);
        }
        if x == k {
            assert(t[i].0 == k);
        }
    }
    assert forall|j: int| 0 <= j < t.len() implies m[#[trigger] t[j].0] == t[j].1 by {
        if j != i {
            assert(t[j] == s[j]);
            lemma_keyed_index(s, j);
        }
    }
    lemma_keyed_same(t, t, m);
}

/// Inserting a pair with a new key anywhere in the list adds an entry.
pub proof fn lemma_keyed_insert<K, V>(s: Seq<(K, V)>, pos: int, k: K, v: V)
    requires
        unique_keys(s),
        !has_key(s, k),
        0 <= pos <= s.len(),
    ensures
        unique_keys(s.insert(pos, (k, v))),
        keyed_map(s.insert(pos, (k, v))) == keyed_map(s).insert(k, v),
{
    let t = s.insert(pos, (k, v));
    let m = keyed_map(s).insert(k, v);
    // index in `s` of the pair at index `j` of `t`, for `j != pos`
    assert forall|j: int| 0 <= j < t.len() && j != pos implies #[trigger] t[j] == (if j < pos {
        s[j]
    } else {
        s[j - 1]
    }) by {}
    assert(unique_keys(t)) by {
        assert forall|a: int, b: int|
            0 <= a < t.len() && 0 <= b < t.len() && a != b implies #[trigger] t[a].0
            != #[trigger] t[b].0 by {
            if a != pos && b != pos {
                let sa = if a < pos { a } else { a - 1 };
                let sb = if b < pos { b } else { b - 1 };
                assert(t[a] == s[sa] && t[b] == s[sb]);
            } else if a == pos {
                let sb = if b < pos { b } else { b - 1 };
                assert(t[b] == s[sb]);
            } else {
                let sa = if a < pos { a } else { a - 1 };
                assert(t[a] == s[sa]);
            }
        }
    }
    assert forall|x: K| has_key(t, x) <==> m.contains_key(x) by {
        if has_key(t, x) {
            let j = choose|j: int| 0 <= j < t.len() && #[trigger] t[j].0 == x;
            if j != pos {
                let sj = if j < pos { j } else { j - 1 };
                assert(t[j] == s[sj]);
                assert(has_key(s, x));
            }
        }
        if m.contains_key(x) && x != k {
            let j = choose|j: int| 0 <= j < s.len() && #[trigger] s[j].0 == x;
            let tj = if j < pos { j } else { j + 1 };
            assert(t[tj] == s[j]);
        }
        if x == k {
            assert(t[pos].0 == k);
        }
    }
    assert forall|j: int| 0 <= j < t.len() implies m[#[trigger] t[j].0] == t[j].1 by {
        if j != pos {
            let sj = if j < pos { j } else { j - 1 };
            assert(t[j] == s[sj]);
            lemma_keyed_index(s, sj);
        }
    }
    lemma_keyed_same(t, t, m);
}

} // verus!
