//! Model of an association list keyed by character sequences: ordered entries,
//! lookup by first occurrence, and insert-or-overwrite. The INI document and
//! the airport table both keep their entries in this shape.

use vstd::prelude::*;

verus! {

/// Whether some entry of `m` has key `k`.
pub open spec fn assoc_has<V>(m: Seq<(Seq<char>, V)>, k: Seq<char>) -> bool {
    exists|i: int| 0 <= i < m.len() && m[i].0 == k
}

/// Index of the first entry of `m` with key `k` (meaningful only when present).
pub open spec fn assoc_index<V>(m: Seq<(Seq<char>, V)>, k: Seq<char>) -> int
    decreases m.len(),
{
    if m.len() == 0 {
        0
    } else if m[0].0 == k {
        0
    } else {
        1 + assoc_index(m.skip(1), k)
    }
}

/// The value stored under `k`, if any.
pub open spec fn assoc_get<V>(m: Seq<(Seq<char>, V)>, k: Seq<char>) -> Option<V> {
    if assoc_has(m, k) {
        Some(m[assoc_index(m, k)].1)
    } else {
        None
    }
}

/// Overwrites the first entry with key `k`, or appends a new entry at the end.
pub open spec fn assoc_upsert<V>(m: Seq<(Seq<char>, V)>, k: Seq<char>, v: V) -> Seq<
    (Seq<char>, V),
> {
    if assoc_has(m, k) {
        m.update(assoc_index(m, k), (k, v))
    } else {
        m.push((k, v))
    }
}

pub proof fn lemma_assoc_index<V>(m: Seq<(Seq<char>, V)>, k: Seq<char>)
    requires
        assoc_has(m, k),
    ensures
        0 <= assoc_index(m, k) < m.len(),
        m[assoc_index(m, k)].0 == k,
        forall|j: int| 0 <= j < assoc_index(m, k) ==> m[j].0 != k,
    decreases m.len(),
{
    if m[0].0 == k {
    } else {
        let i = choose|i: int| 0 <= i < m.len() && m[i].0 == k;
        assert(m.skip(1)[i - 1].0 == k);
        lemma_assoc_index(m.skip(1), k);
        assert(forall|j: int|
            0 <= j < assoc_index(m.skip(1), k) ==> m.skip(1)[j].0 != k);
        assert(forall|j: int|
            1 <= j < assoc_index(m, k) ==> m[j].0 == m.skip(1)[j - 1].0);
    }
}

/// After an insert-or-overwrite of `k`, looking `k` up yields exactly the
/// value just written.
pub proof fn lemma_assoc_upsert_get<V>(m: Seq<(Seq<char>, V)>, k: Seq<char>, v: V)
    ensures
        assoc_get(assoc_upsert(m, k, v), k) == Some(v),
        assoc_has(assoc_upsert(m, k, v), k),
{
    let m2 = assoc_upsert(m, k, v);
    if assoc_has(m, k) {
        lemma_assoc_index(m, k);
        let i = assoc_index(m, k);
        assert(m2[i].0 == k);
        assert(assoc_has(m2, k));
        lemma_assoc_index(m2, k);
        let i2 = assoc_index(m2, k);
        if i2 < i {
            assert(m2[i2] == m[i2]);
        }
    } else {
        let i = m.len() as int;
        assert(m2[i].0 == k);
        assert(assoc_has(m2, k));
        lemma_assoc_index(m2, k);
        let i2 = assoc_index(m2, k);
        if i2 < i {
            assert(m2[i2] == m[i2]);
            assert(assoc_has(m, k));
        }
    }
}

} // verus!
