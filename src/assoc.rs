//! Association lists: parallel vectors of distinct byte-string keys and their
//! values, seen as a map.
use vstd::prelude::*;
use crate::bytes::bytes_eq;

verus! {

/// The views of a sequence of byte vectors.
pub open spec fn keys_view(ks: Seq<Vec<u8>>) -> Seq<Seq<u8>> {
    ks.map_values(|k: Vec<u8>| k@)
}

/// No key occurs twice.
pub open spec fn distinct(ks: Seq<Seq<u8>>) -> bool {
    forall|i: int, j: int| 0 <= i < ks.len() && 0 <= j < ks.len() && i != j ==> ks[i] != ks[j]
}

/// The map from each key to the value at the same position.
pub open spec fn assoc_map<V>(ks: Seq<Seq<u8>>, vs: Seq<V>) -> Map<Seq<u8>, V> {
    Map::new(
        |k: Seq<u8>| exists|i: int| 0 <= i < ks.len() && ks[i] == k,
        |k: Seq<u8>| vs[choose|i: int| 0 <= i < ks.len() && ks[i] == k],
    )
}

pub proof fn lemma_assoc_index<V>(ks: Seq<Seq<u8>>, vs: Seq<V>, i: int)
    requires
        distinct(ks),
        0 <= i < ks.len(),
    ensures
        assoc_map(ks, vs).contains_key(ks[i]),
        assoc_map(ks, vs)[ks[i]] == vs[i],
{
    let k = ks[i];
    assert(0 <= i < ks.len() && ks[i] == k);
    let j = choose|j: int| 0 <= j < ks.len() && ks[j] == k;
    assert(j == i);
}

pub proof fn lemma_assoc_absent<V>(ks: Seq<Seq<u8>>, vs: Seq<V>, k: Seq<u8>)
    requires
        forall|i: int| 0 <= i < ks.len() ==> ks[i] != k,
    ensures
        !assoc_map(ks, vs).contains_key(k),
{
}

pub proof fn lemma_assoc_push<V>(ks: Seq<Seq<u8>>, vs: Seq<V>, k: Seq<u8>, v: V)
    requires
        distinct(ks),
        ks.len() == vs.len(),
        forall|i: int| 0 <= i < ks.len() ==> ks[i] != k,
    ensures
        distinct(ks.push(k)),
        assoc_map(ks.push(k), vs.push(v)) == assoc_map(ks, vs).insert(k, v),
{
    let m1 = assoc_map(ks.push(k), vs.push(v));
    let m0 = assoc_map(ks, vs).insert(k, v);
    assert forall|x: Seq<u8>| #[trigger] m1.contains_key(x) == m0.contains_key(x) by {
        if x == k {
            assert(ks.push(k)[ks.len() as int] == k);
        } else if m0.contains_key(x) {
            let i = choose|i: int| 0 <= i < ks.len() && ks[i] == x;
            assert(ks.push(k)[i] == x);
        }
    }
    assert forall|x: Seq<u8>| #[trigger] m1.contains_key(x) implies m1[x] == m0[x] by {
        if x == k {
            lemma_assoc_index(ks.push(k), vs.push(v), ks.len() as int);
        } else {
            let i = choose|i: int| 0 <= i < ks.len() && ks[i] == x;
            lemma_assoc_index(ks.push(k), vs.push(v), i);
            lemma_assoc_index(ks, vs, i);
        }
    }
    assert(m1 =~= m0);
}

pub proof fn lemma_assoc_update<V>(ks: Seq<Seq<u8>>, vs: Seq<V>, i: int, v: V)
    requires
        distinct(ks),
        ks.len() == vs.len(),
        0 <= i < ks.len(),
    ensures
        assoc_map(ks, vs.update(i, v)) == assoc_map(ks, vs).insert(ks[i], v),
{
    let m1 = assoc_map(ks, vs.update(i, v));
    let m0 = assoc_map(ks, vs).insert(ks[i], v);
    lemma_assoc_index(ks, vs, i);
    assert forall|x: Seq<u8>| #[trigger] m1.contains_key(x) == m0.contains_key(x) by {}
    assert forall|x: Seq<u8>| #[trigger] m1.contains_key(x) implies m1[x] == m0[x] by {
        let j = choose|j: int| 0 <= j < ks.len() && ks[j] == x;
        lemma_assoc_index(ks, vs.update(i, v), j);
        lemma_assoc_index(ks, vs, j);
    }
    assert(m1 =~= m0);
}

pub proof fn lemma_assoc_remove<V>(ks: Seq<Seq<u8>>, vs: Seq<V>, i: int)
    requires
        distinct(ks),
        ks.len() == vs.len(),
        0 <= i < ks.len(),
    ensures
        distinct(ks.remove(i)),
        assoc_map(ks.remove(i), vs.remove(i)) == assoc_map(ks, vs).remove(ks[i]),
{
    let ks2 = ks.remove(i);
    let vs2 = vs.remove(i);
    assert forall|a: int| 0 <= a < ks2.len() implies #[trigger] ks2[a] == ks[if a < i { a } else { a + 1 }] by {}
    assert forall|a: int| 0 <= a < vs2.len() implies #[trigger] vs2[a] == vs[if a < i { a } else { a + 1 }] by {}
    assert(distinct(ks2)) by {
        assert forall|a: int, b: int| 0 <= a < ks2.len() && 0 <= b < ks2.len() && a != b implies ks2[a] != ks2[b] by {
            assert(ks2[a] == ks[if a < i { a } else { a + 1 }]);
            assert(ks2[b] == ks[if b < i { b } else { b + 1 }]);
        }
    }
    let m1 = assoc_map(ks2, vs2);
    let m0 = assoc_map(ks, vs).remove(ks[i]);
    assert forall|x: Seq<u8>| #[trigger] m1.contains_key(x) == m0.contains_key(x) by {
        if m1.contains_key(x) {
            let a = choose|a: int| 0 <= a < ks2.len() && ks2[a] == x;
            assert(ks2[a] == ks[if a < i { a } else { a + 1 }]);
        }
        if m0.contains_key(x) {
            let b = choose|b: int| 0 <= b < ks.len() && ks[b] == x;
            let a = if b < i { b } else { b - 1 };
            assert(ks2[a] == ks[if a < i { a } else { a + 1 }]);
        }
    }
    assert forall|x: Seq<u8>| #[trigger] m1.contains_key(x) implies m1[x] == m0[x] by {
        let a = choose|a: int| 0 <= a < ks2.len() && ks2[a] == x;
        let b = if a < i { a } else { a + 1 };
        assert(ks2[a] == ks[b]);
        assert(vs2[a] == vs[b]);
        lemma_assoc_index(ks2, vs2, a);
        lemma_assoc_index(ks, vs, b);
    }
    assert(m1 =~= m0);
}

pub proof fn lemma_assoc_len<V>(ks: Seq<Seq<u8>>, vs: Seq<V>)
    requires
        distinct(ks),
        ks.len() == vs.len(),
    ensures
        assoc_map(ks, vs).dom().finite(),
        assoc_map(ks, vs).len() == ks.len(),
    decreases ks.len(),
{
    if ks.len() == 0 {
        assert(assoc_map(ks, vs) =~= Map::<Seq<u8>, V>::empty());
    } else {
        let n = ks.len() - 1;
        let ks0 = ks.subrange(0, n);
        let vs0 = vs.subrange(0, n);
        assert(distinct(ks0));
        lemma_assoc_len(ks0, vs0);
        assert forall|i: int| 0 <= i < ks0.len() implies ks0[i] != ks[n] by {
            assert(ks0[i] == ks[i]);
        }
        lemma_assoc_push(ks0, vs0, ks[n], vs[n]);
        assert(ks0.push(ks[n]) =~= ks);
        assert(vs0.push(vs[n]) =~= vs);
    }
}

/// The position of `k` among `keys`, if it is there.
pub fn find_key(keys: &Vec<Vec<u8>>, k: &[u8]) -> (r: Option<usize>)
    ensures
        match r {
            Some(i) => i < keys@.len() && keys@[i as int]@ == k@,
            None => forall|i: int| 0 <= i < keys@.len() ==> keys@[i]@ != k@,
        },
{
    let mut i: usize = 0;
    while i < keys.len()
        invariant
            i <= keys@.len(),
            forall|j: int| 0 <= j < i ==> keys@[j]@ != k@,
        decreases keys@.len() - i,
    {
        if bytes_eq(keys[i].as_slice(), k) {
            return Some(i);
        }
        i = i + 1;
    }
    None
}

} // verus!
