//! Lists of named values, as JSON objects and small tables keep them: the
//! first entry with a name is the one that counts.
use vstd::prelude::*;

use crate::text::text_eq;

verus! {

/// Where the first member named `k` stands in `kvs`, or -1 when none is.
pub open spec fn key_pos<A>(kvs: Seq<(Seq<char>, A)>, k: Seq<char>) -> int
    decreases kvs.len(),
{
    if kvs.len() == 0 {
        -1
    } else {
        let p = key_pos(kvs.drop_last(), k);
        if p >= 0 {
            p
        } else if kvs.last().0 == k {
            kvs.len() - 1
        } else {
            -1
        }
    }
}

/// The value of the first member named `k`, if there is one.
pub open spec fn lookup<A>(kvs: Seq<(Seq<char>, A)>, k: Seq<char>) -> Option<A> {
    let p = key_pos(kvs, k);
    if p >= 0 {
        Some(kvs[p].1)
    } else {
        None
    }
}

/// `kvs` with the first member named `k` given the value `v`, or with the
/// member appended when there is none.
pub open spec fn assign<A>(kvs: Seq<(Seq<char>, A)>, k: Seq<char>, v: A) -> Seq<(Seq<char>, A)> {
    let p = key_pos(kvs, k);
    if p >= 0 {
        kvs.update(p, (k, v))
    } else {
        kvs.push((k, v))
    }
}

/// `key_pos` is the first index whose name is `k`, or -1 when no name is.
pub proof fn lemma_key_pos<A>(kvs: Seq<(Seq<char>, A)>, k: Seq<char>)
    ensures
        -1 <= key_pos(kvs, k) < kvs.len(),
        key_pos(kvs, k) == -1 <==> (forall|i: int| 0 <= i < kvs.len() ==> kvs[i].0 != k),
        key_pos(kvs, k) >= 0 ==> kvs[key_pos(kvs, k)].0 == k,
        forall|j: int| 0 <= j < key_pos(kvs, k) ==> kvs[j].0 != k,
    decreases kvs.len(),
{
    if kvs.len() > 0 {
        let init = kvs.drop_last();
        lemma_key_pos(init, k);
        assert forall|i: int| 0 <= i < init.len() implies init[i] == kvs[i] by {}
        if key_pos(init, k) < 0 {
            assert forall|i: int| 0 <= i < kvs.len() - 1 implies kvs[i].0 != k by {
                assert(init[i] == kvs[i]);
            }
        }
    }
}

/// The first index whose name is `k` is `key_pos`.
pub proof fn lemma_key_pos_is<A>(kvs: Seq<(Seq<char>, A)>, k: Seq<char>, p: int)
    requires
        0 <= p < kvs.len(),
        kvs[p].0 == k,
        forall|j: int| 0 <= j < p ==> kvs[j].0 != k,
    ensures
        key_pos(kvs, k) == p,
{
    lemma_key_pos(kvs, k);
    let q = key_pos(kvs, k);
    if q != p {
        if q < p {
            assert(kvs[q].0 != k);
        } else if q > p {
            assert(kvs[p].0 != k);
        }
    }
}

/// `key_pos` reads only the names.
pub proof fn lemma_key_pos_names<A, B>(a: Seq<(Seq<char>, A)>, b: Seq<(Seq<char>, B)>, k: Seq<char>)
    requires
        a.len() == b.len(),
        forall|i: int| 0 <= i < a.len() ==> a[i].0 == b[i].0,
    ensures
        key_pos(a, k) == key_pos(b, k),
{
    lemma_key_pos(a, k);
    lemma_key_pos(b, k);
    if key_pos(a, k) >= 0 {
        lemma_key_pos_is(b, k, key_pos(a, k));
    } else if key_pos(b, k) >= 0 {
        lemma_key_pos_is(a, k, key_pos(b, k));
    }
}

/// After `assign`, the member named `k` has the value given, and every other
/// member keeps its value.
pub proof fn lemma_assign<A>(kvs: Seq<(Seq<char>, A)>, k: Seq<char>, v: A, k2: Seq<char>)
    ensures
        lookup(assign(kvs, k, v), k) == Some(v),
        k2 != k ==> lookup(assign(kvs, k, v), k2) == lookup(kvs, k2),
{
    let w = assign(kvs, k, v);
    let p = key_pos(kvs, k);
    lemma_key_pos(kvs, k);
    lemma_key_pos(kvs, k2);
    if p >= 0 {
        lemma_key_pos_names(kvs, w, k);
        lemma_key_pos_names(kvs, w, k2);
    } else {
        lemma_key_pos_is(w, k, kvs.len() as int);
        if k2 != k {
            lemma_key_pos(w, k2);
            let q = key_pos(kvs, k2);
            if q >= 0 {
                lemma_key_pos_is(w, k2, q);
            } else {
                assert forall|i: int| 0 <= i < w.len() implies w[i].0 != k2 by {
                    if i < kvs.len() {
                        assert(w[i] == kvs[i]);
                    }
                }
            }
        }
    }
}

/// Giving the first member named `k` the value it has changes nothing.
pub proof fn lemma_assign_same<A>(kvs: Seq<(Seq<char>, A)>, k: Seq<char>, v: A)
    requires
        lookup(kvs, k) == Some(v),
    ensures
        assign(kvs, k, v) == kvs,
{
    lemma_key_pos(kvs, k);
    assert(assign(kvs, k, v) =~= kvs);
}

/// The index of the first member of `kvs` named `key`, if there is one.
pub fn find_key<V>(kvs: &Vec<(String, V)>, key: &str) -> (r: Option<usize>)
    ensures
        match r {
            Some(i) => i < kvs.len() && kvs@[i as int].0@ == key@ && forall|j: int|
                0 <= j < i ==> kvs@[j].0@ != key@,
            None => forall|j: int| 0 <= j < kvs.len() ==> kvs@[j].0@ != key@,
        },
{
    let mut i: usize = 0;
    while i < kvs.len()
        invariant
            i <= kvs.len(),
            forall|j: int| 0 <= j < i ==> kvs@[j].0@ != key@,
        decreases kvs.len() - i,
    {
        if text_eq(kvs[i].0.as_str(), key) {
            return Some(i);
        }
        i = i + 1;
    }
    None
}

/// No two members share a name.
pub open spec fn unique_names<A>(kvs: Seq<(Seq<char>, A)>) -> bool {
    forall|i: int, j: int|
        #![trigger kvs[i], kvs[j]]
        0 <= i < j < kvs.len() ==> kvs[i].0 != kvs[j].0
}

/// `kvs` without its first member named `k`.
pub open spec fn unassign<A>(kvs: Seq<(Seq<char>, A)>, k: Seq<char>) -> Seq<(Seq<char>, A)> {
    let p = key_pos(kvs, k);
    if p >= 0 {
        kvs.remove(p)
    } else {
        kvs
    }
}

/// `assign` keeps the names unique.
pub proof fn lemma_assign_unique<A>(kvs: Seq<(Seq<char>, A)>, k: Seq<char>, v: A)
    requires
        unique_names(kvs),
    ensures
        unique_names(assign(kvs, k, v)),
{
    lemma_key_pos(kvs, k);
    let w = assign(kvs, k, v);
    assert forall|i: int, j: int| 0 <= i < j < w.len() implies w[i].0 != w[j].0 by {
        if key_pos(kvs, k) < 0 && j == kvs.len() {
            assert(kvs[i].0 != k);
        } else {
            assert(w[i].0 == kvs[i].0 && w[j].0 == kvs[j].0);
        }
    }
}

/// With unique names, `unassign` leaves no member named `k`, keeps every other
/// member's value, and keeps the names unique.
pub proof fn lemma_unassign<A>(kvs: Seq<(Seq<char>, A)>, k: Seq<char>, k2: Seq<char>)
    requires
        unique_names(kvs),
    ensures
        unique_names(unassign(kvs, k)),
        lookup(unassign(kvs, k), k) is None,
        k2 != k ==> lookup(unassign(kvs, k), k2) == lookup(kvs, k2),
{
    let p = key_pos(kvs, k);
    lemma_key_pos(kvs, k);
    lemma_key_pos(kvs, k2);
    if p >= 0 {
        let r = kvs.remove(p);
        assert forall|i: int| 0 <= i < r.len() implies r[i] == (if i < p {
            kvs[i]
        } else {
            kvs[i + 1]
        }) by {}
        assert forall|i: int, j: int| 0 <= i < j < r.len() implies r[i].0 != r[j].0 by {
            let a = if i < p { i } else { i + 1 };
            let b = if j < p { j } else { j + 1 };
            assert(r[i] == kvs[a] && r[j] == kvs[b]);
        }
        assert forall|i: int| 0 <= i < r.len() implies r[i].0 != k by {
            let a = if i < p { i } else { i + 1 };
            assert(r[i] == kvs[a]);
            assert(kvs[a].0 != kvs[p].0);
        }
        lemma_key_pos(r, k);
        if k2 != k {
            let q = key_pos(kvs, k2);
            if q < 0 {
                assert forall|i: int| 0 <= i < r.len() implies r[i].0 != k2 by {
                    let a = if i < p { i } else { i + 1 };
                    assert(r[i] == kvs[a]);
                }
                lemma_key_pos(r, k2);
            } else if q < p {
                lemma_key_pos_is(r, k2, q);
            } else {
                assert(q != p);
                assert forall|j: int| 0 <= j < q - 1 implies r[j].0 != k2 by {
                    let a = if j < p { j } else { j + 1 };
                    assert(r[j] == kvs[a]);
                }
                lemma_key_pos_is(r, k2, q - 1);
            }
        }
    }
}

} // verus!
