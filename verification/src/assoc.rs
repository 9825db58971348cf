//! Association lists: sequences of key/value pairs with distinct keys, and
//! the maps they stand for.

use vstd::prelude::*;

verus! {

/// No key occurs twice.
pub open spec fn distinct_keys<K, V>(es: Seq<(K, V)>) -> bool {
    forall|i: int, j: int| 0 <= i < j < es.len() ==> es[i].0 != es[j].0
}

/// Whether `k` is a key of the list.
pub open spec fn assoc_has<K, V>(es: Seq<(K, V)>, k: K) -> bool {
    exists|i: int| 0 <= i < es.len() && es[i].0 == k
}

/// The map that the list stands for.
pub open spec fn assoc_map<K, V>(es: Seq<(K, V)>) -> Map<K, V> {
    Map::new(
        |k: K| assoc_has(es, k),
        |k: K| es[choose|i: int| 0 <= i < es.len() && es[i].0 == k].1,
    )
}

pub proof fn lemma_assoc_at<K, V>(es: Seq<(K, V)>, i: int)
    requires
        distinct_keys(es),
        0 <= i < es.len(),
    ensures
        assoc_map(es).contains_key(es[i].0),
        assoc_map(es)[es[i].0] == es[i].1,
{
    let k = es[i].0;
    assert(assoc_has(es, k));
    let j = choose|j: int| 0 <= j < es.len() && es[j].0 == k;
    if j != i {
        if j < i {
            assert(es[j].0 != es[i].0);
        } else {
            assert(es[i].0 != es[j].0);
        }
    }
}

/// Replacing the value at `i` updates the map at that key.
pub proof fn lemma_assoc_update<K, V>(es: Seq<(K, V)>, i: int, v: V)
    requires
        distinct_keys(es),
        0 <= i < es.len(),
    ensures
        distinct_keys(es.update(i, (es[i].0, v))),
        assoc_map(es.update(i, (es[i].0, v))) == assoc_map(es).insert(es[i].0, v),
{
    let k = es[i].0;
    let es2 = es.update(i, (k, v));
    assert(distinct_keys(es2));
    assert forall|x: K| #[trigger] assoc_map(es2).contains_key(x) == assoc_map(es).insert(
        k,
        v,
    ).contains_key(x) by {
        if assoc_has(es2, x) {
            let j = choose|j: int| 0 <= j < es2.len() && es2[j].0 == x;
            assert(es[j].0 == x);
        }
        if assoc_has(es, x) {
            let j = choose|j: int| 0 <= j < es.len() && es[j].0 == x;
            assert(es2[j].0 == x);
        }
        if x == k {
            assert(es2[i].0 == x);
        }
    }
    assert forall|x: K| #[trigger] assoc_map(es2).contains_key(x) implies assoc_map(es2)[x]
        == assoc_map(es).insert(k, v)[x] by {
        let j = choose|j: int| 0 <= j < es2.len() && es2[j].0 == x;
        lemma_assoc_at(es2, j);
        if j != i {
            lemma_assoc_at(es, j);
        }
    }
    assert(assoc_map(es2) =~= assoc_map(es).insert(k, v));
}

/// Appending a pair with a new key adds it to the map.
pub proof fn lemma_assoc_push<K, V>(es: Seq<(K, V)>, k: K, v: V)
    requires
        distinct_keys(es),
        !assoc_has(es, k),
    ensures
        distinct_keys(es.push((k, v))),
        assoc_map(es.push((k, v))) == assoc_map(es).insert(k, v),
{
    let es2 = es.push((k, v));
    assert forall|a: int, b: int| 0 <= a < b < es2.len() implies es2[a].0 != es2[b].0 by {
        if b == es.len() {
            assert(es[a].0 != k);
        }
    }
    assert forall|x: K| #[trigger] assoc_map(es2).contains_key(x) == assoc_map(es).insert(
        k,
        v,
    ).contains_key(x) by {
        if assoc_has(es2, x) && x != k {
            let j = choose|j: int| 0 <= j < es2.len() && es2[j].0 == x;
            assert(es[j].0 == x);
        }
        if assoc_has(es, x) {
            let j = choose|j: int| 0 <= j < es.len() && es[j].0 == x;
            assert(es2[j].0 == x);
        }
        if x == k {
            assert(es2[es.len() as int].0 == x);
        }
    }
    assert forall|x: K| #[trigger] assoc_map(es2).contains_key(x) implies assoc_map(es2)[x]
        == assoc_map(es).insert(k, v)[x] by {
        let j = choose|j: int| 0 <= j < es2.len() && es2[j].0 == x;
        lemma_assoc_at(es2, j);
        if j < es.len() {
            lemma_assoc_at(es, j);
        }
    }
    assert(assoc_map(es2) =~= assoc_map(es).insert(k, v));
}

pub proof fn lemma_assoc_empty<K, V>(es: Seq<(K, V)>)
    requires
        es.len() == 0,
    ensures
        distinct_keys(es),
        assoc_map(es) == Map::<K, V>::empty(),
{
    assert(assoc_map(es) =~= Map::<K, V>::empty());
}

/// Inserting a pair with a new key at any position adds it to the map.
pub proof fn lemma_assoc_insert<K, V>(es: Seq<(K, V)>, i: int, k: K, v: V)
    requires
        distinct_keys(es),
        !assoc_has(es, k),
        0 <= i <= es.len(),
    ensures
        distinct_keys(es.insert(i, (k, v))),
        assoc_map(es.insert(i, (k, v))) == assoc_map(es).insert(k, v),
{
    let es2 = es.insert(i, (k, v));
    assert forall|a: int, b: int| 0 <= a < b < es2.len() implies es2[a].0 != es2[b].0 by {
        if a == i {
            assert(es[b - 1].0 != k) by {
                assert(!(0 <= b - 1 < es.len() && es[b - 1].0 == k));
            }
        } else if b == i {
            assert(!(0 <= a < es.len() && es[a].0 == k));
        } else {
            let a0 = if a < i { a } else { a - 1 };
            let b0 = if b < i { b } else { b - 1 };
            assert(es2[a] == es[a0] && es2[b] == es[b0]);
        }
    }
    assert forall|x: K| #[trigger] assoc_map(es2).contains_key(x) == assoc_map(es).insert(
        k,
        v,
    ).contains_key(x) by {
        if assoc_has(es2, x) && x != k {
            let j = choose|j: int| 0 <= j < es2.len() && es2[j].0 == x;
            if j < i {
                assert(es[j].0 == x);
            } else {
                assert(es[j - 1].0 == x);
            }
        }
        if assoc_has(es, x) {
            let j = choose|j: int| 0 <= j < es.len() && es[j].0 == x;
            if j < i {
                assert(es2[j].0 == x);
            } else {
                assert(es2[j + 1].0 == x);
            }
        }
        if x == k {
            assert(es2[i].0 == x);
        }
    }
    assert forall|x: K| #[trigger] assoc_map(es2).contains_key(x) implies assoc_map(es2)[x]
        == assoc_map(es).insert(k, v)[x] by {
        let j = choose|j: int| 0 <= j < es2.len() && es2[j].0 == x;
        lemma_assoc_at(es2, j);
        if j < i {
            lemma_assoc_at(es, j);
        } else if j > i {
            lemma_assoc_at(es, j - 1);
        }
    }
    assert(assoc_map(es2) =~= assoc_map(es).insert(k, v));
}

} // verus!
