//! Finite maps stored as sequences of `(key, value)` entries with distinct keys.
use vstd::prelude::*;

verus! {

/// Every key occurs in at most one entry.
pub open spec fn unique_keys<K, T>(e: Seq<(K, T)>) -> bool {
    forall|i: int, j: int|
        0 <= i < e.len() && 0 <= j < e.len() && #[trigger] e[i].0 == #[trigger] e[j].0 ==> i == j
}

/// Some entry has key `k`.
pub open spec fn has_key<K, T>(e: Seq<(K, T)>, k: K) -> bool {
    exists|i: int| 0 <= i < e.len() && #[trigger] e[i].0 == k
}

/// The map that the entries describe.
pub open spec fn keyed_map<K, T>(e: Seq<(K, T)>) -> Map<K, T> {
    Map::new(
        |k: K| has_key(e, k),
        |k: K| e[choose|i: int| 0 <= i < e.len() && #[trigger] e[i].0 == k].1,
    )
}

pub proof fn lemma_lookup<K, T>(e: Seq<(K, T)>, i: int)
    requires
        unique_keys(e),
        0 <= i < e.len(),
    ensures
        keyed_map(e).contains_key(e[i].0),
        keyed_map(e)[e[i].0] == e[i].1,
{
    let k = e[i].0;
    assert(has_key(e, k));
    let j = choose|j: int| 0 <= j < e.len() && #[trigger] e[j].0 == k;
    assert(e[j].0 == e[i].0);
}

pub proof fn lemma_update<K, T>(e: Seq<(K, T)>, i: int, t: T)
    requires
        unique_keys(e),
        0 <= i < e.len(),
    ensures
        unique_keys(e.update(i, (e[i].0, t))),
        keyed_map(e.update(i, (e[i].0, t))) == keyed_map(e).insert(e[i].0, t),
{
    let e2 = e.update(i, (e[i].0, t));
    assert forall|a: int, b: int|
        0 <= a < e2.len() && 0 <= b < e2.len() && #[trigger] e2[a].0 == #[trigger] e2[b].0 implies a
            == b by {
        assert(e2[a].0 == e[a].0 && e2[b].0 == e[b].0);
    }
    let m = keyed_map(e).insert(e[i].0, t);
    assert forall|k: K| #[trigger] has_key(e2, k) == m.contains_key(k) by {
        if has_key(e, k) {
            let j = choose|j: int| 0 <= j < e.len() && #[trigger] e[j].0 == k;
            assert(e2[j].0 == k);
        }
        if has_key(e2, k) {
            let j = choose|j: int| 0 <= j < e2.len() && #[trigger] e2[j].0 == k;
            assert(e[j].0 == k);
        }
    }
    assert forall|k: K| #[trigger] m.contains_key(k) implies keyed_map(e2)[k] == m[k] by {
        assert(has_key(e2, k));
        let j = choose|j: int| 0 <= j < e2.len() && #[trigger] e2[j].0 == k;
        lemma_lookup(e2, j);
        lemma_lookup(e, j);
    }
    assert(keyed_map(e2) =~= m);
}

pub proof fn lemma_push<K, T>(e: Seq<(K, T)>, k: K, t: T)
    requires
        unique_keys(e),
        !has_key(e, k),
    ensures
        unique_keys(e.push((k, t))),
        keyed_map(e.push((k, t))) == keyed_map(e).insert(k, t),
{
    let e2 = e.push((k, t));
    assert forall|a: int, b: int|
        0 <= a < e2.len() && 0 <= b < e2.len() && #[trigger] e2[a].0 == #[trigger] e2[b].0 implies a
            == b by {
        if a < e.len() {
            assert(e2[a] == e[a]);
        }
        if b < e.len() {
            assert(e2[b] == e[b]);
        }
    }
    let m = keyed_map(e).insert(k, t);
    assert forall|x: K| #[trigger] has_key(e2, x) == m.contains_key(x) by {
        if has_key(e, x) {
            let j = choose|j: int| 0 <= j < e.len() && #[trigger] e[j].0 == x;
            assert(e2[j].0 == x);
        }
        if has_key(e2, x) {
            let j = choose|j: int| 0 <= j < e2.len() && #[trigger] e2[j].0 == x;
            if j < e.len() {
                assert(e[j].0 == x);
            }
        }
        assert(e2[e.len() as int].0 == k);
    }
    assert forall|x: K| #[trigger] m.contains_key(x) implies keyed_map(e2)[x] == m[x] by {
        assert(has_key(e2, x));
        let j = choose|j: int| 0 <= j < e2.len() && #[trigger] e2[j].0 == x;
        lemma_lookup(e2, j);
        if j < e.len() {
            assert(e2[j] == e[j]);
            lemma_lookup(e, j);
        }
    }
    assert(keyed_map(e2) =~= m);
}

/// Changing every entry's value by `f`, keys kept, changes every value of the map by `f`.
pub proof fn lemma_map_values<K, T>(e: Seq<(K, T)>, e2: Seq<(K, T)>, f: spec_fn(T) -> T)
    requires
        unique_keys(e),
        e2.len() == e.len(),
        forall|i: int| 0 <= i < e.len() ==> #[trigger] e2[i] == (e[i].0, f(e[i].1)),
    ensures
        unique_keys(e2),
        keyed_map(e2) == Map::new(
            |k: K| keyed_map(e).contains_key(k),
            |k: K| f(keyed_map(e)[k]),
        ),
{
    assert forall|a: int, b: int|
        0 <= a < e2.len() && 0 <= b < e2.len() && #[trigger] e2[a].0 == #[trigger] e2[b].0 implies a
            == b by {
        assert(e2[a].0 == e[a].0 && e2[b].0 == e[b].0);
    }
    let m = Map::new(|k: K| keyed_map(e).contains_key(k), |k: K| f(keyed_map(e)[k]));
    assert forall|x: K| #[trigger] has_key(e2, x) == m.contains_key(x) by {
        if has_key(e, x) {
            let j = choose|j: int| 0 <= j < e.len() && #[trigger] e[j].0 == x;
            assert(e2[j].0 == x);
        }
        if has_key(e2, x) {
            let j = choose|j: int| 0 <= j < e2.len() && #[trigger] e2[j].0 == x;
            assert(e[j].0 == x);
        }
    }
    assert forall|x: K| #[trigger] m.contains_key(x) implies keyed_map(e2)[x] == m[x] by {
        assert(has_key(e2, x));
        let j = choose|j: int| 0 <= j < e2.len() && #[trigger] e2[j].0 == x;
        assert(e[j].0 == x);
        lemma_lookup(e2, j);
        lemma_lookup(e, j);
    }
    assert(keyed_map(e2) =~= m);
}

} // verus!
