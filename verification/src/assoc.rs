use vstd::prelude::*;

verus! {

// ------------------------------------------------------------------
// Association sequences
// ------------------------------------------------------------------
//
// A directory is modelled as a sequence of (name, contents) pairs with
// pairwise distinct names. Lookup finds the first pair with the wanted name;
// upsert replaces it or appends a new pair; remove drops it.

/// The first value stored under `k`, if any.
pub open spec fn assoc_lookup<V>(m: Seq<(Seq<char>, V)>, k: Seq<char>) -> Option<V>
    decreases m.len(),
{
    if m.len() == 0 {
        None
    } else if m[0].0 == k {
        Some(m[0].1)
    } else {
        assoc_lookup(m.drop_first(), k)
    }
}

pub open spec fn has_key<V>(m: Seq<(Seq<char>, V)>, k: Seq<char>) -> bool {
    assoc_lookup(m, k) is Some
}

/// All names pairwise distinct.
pub open spec fn keys_unique<V>(m: Seq<(Seq<char>, V)>) -> bool
    decreases m.len(),
{
    m.len() == 0 || (!has_key(m.drop_first(), m[0].0) && keys_unique(m.drop_first()))
}

/// `m` with `v` stored under `k`: the first pair named `k` replaced in place,
/// or a new pair appended.
pub open spec fn assoc_upsert<V>(m: Seq<(Seq<char>, V)>, k: Seq<char>, v: V) -> Seq<(Seq<char>, V)>
    decreases m.len(),
{
    if m.len() == 0 {
        seq![(k, v)]
    } else if m[0].0 == k {
        seq![(k, v)] + m.drop_first()
    } else {
        seq![m[0]] + assoc_upsert(m.drop_first(), k, v)
    }
}

/// `m` without the first pair named `k`.
pub open spec fn assoc_remove<V>(m: Seq<(Seq<char>, V)>, k: Seq<char>) -> Seq<(Seq<char>, V)>
    decreases m.len(),
{
    if m.len() == 0 {
        m
    } else if m[0].0 == k {
        m.drop_first()
    } else {
        seq![m[0]] + assoc_remove(m.drop_first(), k)
    }
}

// ------------------------------------------------------------------
// Where upsert and remove act
// ------------------------------------------------------------------

/// When `k` first occurs at `i`, upsert updates position `i`.
pub proof fn lemma_upsert_at<V>(m: Seq<(Seq<char>, V)>, k: Seq<char>, v: V, i: int)
    requires
        0 <= i < m.len(),
        m[i].0 == k,
        forall|j: int| 0 <= j < i ==> (#[trigger] m[j]).0 != k,
    ensures
        assoc_upsert(m, k, v) == m.update(i, (k, v)),
    decreases i,
{
    if i == 0 {
        assert(assoc_upsert(m, k, v) =~= m.update(0, (k, v)));
    } else {
        assert(m[0].0 != k);
        assert forall|j: int| 0 <= j < i - 1 implies (#[trigger] m.drop_first()[j]).0 != k by {
            assert(m.drop_first()[j] == m[j + 1]);
        }
        lemma_upsert_at(m.drop_first(), k, v, i - 1);
        assert(seq![m[0]] + m.drop_first().update(i - 1, (k, v)) =~= m.update(i, (k, v)));
    }
}

/// When `k` does not occur, upsert appends.
pub proof fn lemma_upsert_absent<V>(m: Seq<(Seq<char>, V)>, k: Seq<char>, v: V)
    requires
        forall|j: int| 0 <= j < m.len() ==> (#[trigger] m[j]).0 != k,
    ensures
        assoc_upsert(m, k, v) == m.push((k, v)),
    decreases m.len(),
{
    if m.len() == 0 {
        assert(assoc_upsert(m, k, v) =~= m.push((k, v)));
    } else {
        assert forall|j: int| 0 <= j < m.drop_first().len() implies
            (#[trigger] m.drop_first()[j]).0 != k by {
            assert(m.drop_first()[j] == m[j + 1]);
        }
        lemma_upsert_absent(m.drop_first(), k, v);
        assert(seq![m[0]] + m.drop_first().push((k, v)) =~= m.push((k, v)));
    }
}

/// When `k` first occurs at `i`, remove drops position `i`.
pub proof fn lemma_remove_at<V>(m: Seq<(Seq<char>, V)>, k: Seq<char>, i: int)
    requires
        0 <= i < m.len(),
        m[i].0 == k,
        forall|j: int| 0 <= j < i ==> (#[trigger] m[j]).0 != k,
    ensures
        assoc_remove(m, k) == m.remove(i),
    decreases i,
{
    if i == 0 {
        assert(assoc_remove(m, k) =~= m.remove(0));
    } else {
        assert(m[0].0 != k);
        assert forall|j: int| 0 <= j < i - 1 implies (#[trigger] m.drop_first()[j]).0 != k by {
            assert(m.drop_first()[j] == m[j + 1]);
        }
        lemma_remove_at(m.drop_first(), k, i - 1);
        assert(seq![m[0]] + m.drop_first().remove(i - 1) =~= m.remove(i));
    }
}

/// When `k` does not occur, remove does nothing.
pub proof fn lemma_remove_absent_keys<V>(m: Seq<(Seq<char>, V)>, k: Seq<char>)
    requires
        forall|j: int| 0 <= j < m.len() ==> (#[trigger] m[j]).0 != k,
    ensures
        assoc_remove(m, k) == m,
    decreases m.len(),
{
    if m.len() > 0 {
        assert forall|j: int| 0 <= j < m.drop_first().len() implies
            (#[trigger] m.drop_first()[j]).0 != k by {
            assert(m.drop_first()[j] == m[j + 1]);
        }
        lemma_remove_absent_keys(m.drop_first(), k);
        assert(seq![m[0]] + m.drop_first() =~= m);
    }
}

/// A lookup that fails means no pair carries the name.
pub proof fn lemma_lookup_none_no_key<V>(m: Seq<(Seq<char>, V)>, k: Seq<char>)
    requires
        assoc_lookup(m, k) is None,
    ensures
        forall|j: int| 0 <= j < m.len() ==> (#[trigger] m[j]).0 != k,
    decreases m.len(),
{
    if m.len() > 0 {
        lemma_lookup_none_no_key(m.drop_first(), k);
        assert forall|j: int| 0 <= j < m.len() implies (#[trigger] m[j]).0 != k by {
            if j > 0 {
                assert(m.drop_first()[j - 1] == m[j]);
            }
        }
    }
}

// ------------------------------------------------------------------
// Lookup after upsert and remove
// ------------------------------------------------------------------

pub proof fn lemma_lookup_upsert_same<V>(m: Seq<(Seq<char>, V)>, k: Seq<char>, v: V)
    ensures
        assoc_lookup(assoc_upsert(m, k, v), k) == Some(v),
    decreases m.len(),
{
    if m.len() == 0 {
    } else if m[0].0 == k {
        assert((seq![(k, v)] + m.drop_first())[0] == (k, v));
    } else {
        lemma_lookup_upsert_same(m.drop_first(), k, v);
        let r = seq![m[0]] + assoc_upsert(m.drop_first(), k, v);
        assert(r[0] == m[0]);
        assert(r.drop_first() =~= assoc_upsert(m.drop_first(), k, v));
    }
}

pub proof fn lemma_lookup_upsert_other<V>(m: Seq<(Seq<char>, V)>, k: Seq<char>, v: V, k2: Seq<char>)
    requires
        k2 != k,
    ensures
        assoc_lookup(assoc_upsert(m, k, v), k2) == assoc_lookup(m, k2),
    decreases m.len(),
{
    if m.len() == 0 {
        let r = seq![(k, v)];
        assert(r[0] == (k, v));
        assert(r.drop_first() =~= Seq::<(Seq<char>, V)>::empty());
        assert(assoc_lookup(r.drop_first(), k2) is None);
    } else if m[0].0 == k {
        let r = seq![(k, v)] + m.drop_first();
        assert(r[0] == (k, v));
        assert(r.drop_first() =~= m.drop_first());
    } else {
        lemma_lookup_upsert_other(m.drop_first(), k, v, k2);
        let r = seq![m[0]] + assoc_upsert(m.drop_first(), k, v);
        assert(r[0] == m[0]);
        assert(r.drop_first() =~= assoc_upsert(m.drop_first(), k, v));
    }
}

pub proof fn lemma_lookup_remove_same<V>(m: Seq<(Seq<char>, V)>, k: Seq<char>)
    requires
        keys_unique(m),
    ensures
        assoc_lookup(assoc_remove(m, k), k) is None,
    decreases m.len(),
{
    if m.len() == 0 {
    } else if m[0].0 == k {
        assert(!has_key(m.drop_first(), k));
    } else {
        lemma_lookup_remove_same(m.drop_first(), k);
        let r = seq![m[0]] + assoc_remove(m.drop_first(), k);
        assert(r[0] == m[0]);
        assert(r.drop_first() =~= assoc_remove(m.drop_first(), k));
    }
}

pub proof fn lemma_lookup_remove_other<V>(m: Seq<(Seq<char>, V)>, k: Seq<char>, k2: Seq<char>)
    requires
        k2 != k,
    ensures
        assoc_lookup(assoc_remove(m, k), k2) == assoc_lookup(m, k2),
    decreases m.len(),
{
    if m.len() == 0 {
    } else if m[0].0 == k {
    } else {
        lemma_lookup_remove_other(m.drop_first(), k, k2);
        let r = seq![m[0]] + assoc_remove(m.drop_first(), k);
        assert(r[0] == m[0]);
        assert(r.drop_first() =~= assoc_remove(m.drop_first(), k));
    }
}

// ------------------------------------------------------------------
// Uniqueness is preserved
// ------------------------------------------------------------------

pub proof fn lemma_has_key_upsert<V>(m: Seq<(Seq<char>, V)>, k: Seq<char>, v: V, k2: Seq<char>)
    ensures
        has_key(assoc_upsert(m, k, v), k2) == (k2 == k || has_key(m, k2)),
{
    if k2 == k {
        lemma_lookup_upsert_same(m, k, v);
    } else {
        lemma_lookup_upsert_other(m, k, v, k2);
    }
}

pub proof fn lemma_has_key_remove<V>(m: Seq<(Seq<char>, V)>, k: Seq<char>, k2: Seq<char>)
    requires
        has_key(assoc_remove(m, k), k2),
    ensures
        has_key(m, k2),
    decreases m.len(),
{
    if m.len() == 0 {
    } else if m[0].0 == k {
        if k2 != m[0].0 {
            lemma_lookup_drop_first(m, k2);
        }
    } else {
        let r = seq![m[0]] + assoc_remove(m.drop_first(), k);
        assert(r[0] == m[0]);
        assert(r.drop_first() =~= assoc_remove(m.drop_first(), k));
        if m[0].0 != k2 {
            lemma_has_key_remove(m.drop_first(), k, k2);
        }
    }
}

/// A name found past the head is found in the whole sequence.
pub proof fn lemma_lookup_drop_first<V>(m: Seq<(Seq<char>, V)>, k: Seq<char>)
    requires
        m.len() > 0,
        m[0].0 != k,
    ensures
        assoc_lookup(m, k) == assoc_lookup(m.drop_first(), k),
{
}

pub proof fn lemma_unique_upsert<V>(m: Seq<(Seq<char>, V)>, k: Seq<char>, v: V)
    requires
        keys_unique(m),
    ensures
        keys_unique(assoc_upsert(m, k, v)),
    decreases m.len(),
{
    if m.len() == 0 {
        let r = seq![(k, v)];
        assert(r[0] == (k, v));
        assert(r.drop_first() =~= Seq::<(Seq<char>, V)>::empty());
        assert(assoc_lookup(r.drop_first(), k) is None);
        assert(keys_unique(r.drop_first()));
    } else if m[0].0 == k {
        let r = seq![(k, v)] + m.drop_first();
        assert(r[0] == (k, v));
        assert(r.drop_first() =~= m.drop_first());
    } else {
        lemma_unique_upsert(m.drop_first(), k, v);
        let r = seq![m[0]] + assoc_upsert(m.drop_first(), k, v);
        assert(r[0] == m[0]);
        assert(r.drop_first() =~= assoc_upsert(m.drop_first(), k, v));
        lemma_has_key_upsert(m.drop_first(), k, v, m[0].0);
        assert(!has_key(r.drop_first(), r[0].0));
    }
}

pub proof fn lemma_unique_remove<V>(m: Seq<(Seq<char>, V)>, k: Seq<char>)
    requires
        keys_unique(m),
    ensures
        keys_unique(assoc_remove(m, k)),
    decreases m.len(),
{
    if m.len() == 0 {
    } else if m[0].0 == k {
    } else {
        lemma_unique_remove(m.drop_first(), k);
        let r = seq![m[0]] + assoc_remove(m.drop_first(), k);
        assert(r[0] == m[0]);
        assert(r.drop_first() =~= assoc_remove(m.drop_first(), k));
        if has_key(assoc_remove(m.drop_first(), k), m[0].0) {
            lemma_has_key_remove(m.drop_first(), k, m[0].0);
        }
    }
}

/// Removing a name twice is the same as removing it once.
pub proof fn lemma_remove_twice<V>(m: Seq<(Seq<char>, V)>, k: Seq<char>)
    requires
        keys_unique(m),
    ensures
        assoc_remove(assoc_remove(m, k), k) == assoc_remove(m, k),
{
    lemma_lookup_remove_same(m, k);
    lemma_lookup_none_no_key(assoc_remove(m, k), k);
    lemma_remove_absent_keys(assoc_remove(m, k), k);
}


/// A successful lookup names a first position holding the key.
pub proof fn lemma_lookup_first_index<V>(m: Seq<(Seq<char>, V)>, k: Seq<char>)
    requires
        assoc_lookup(m, k) is Some,
    ensures
        exists|i: int| 0 <= i < m.len() && (#[trigger] m[i]).0 == k
            && (forall|j: int| 0 <= j < i ==> (#[trigger] m[j]).0 != k),
    decreases m.len(),
{
    if m.len() > 0 {
        if m[0].0 == k {
            assert(m[0].0 == k && (forall|j: int| 0 <= j < 0 ==> (#[trigger] m[j]).0 != k));
        } else {
            lemma_lookup_first_index(m.drop_first(), k);
            let i0 = choose|i: int| 0 <= i < m.drop_first().len()
                && (#[trigger] m.drop_first()[i]).0 == k
                && (forall|j: int| 0 <= j < i ==> (#[trigger] m.drop_first()[j]).0 != k);
            assert(m.drop_first()[i0] == m[i0 + 1]);
            assert forall|j: int| 0 <= j < i0 + 1 implies (#[trigger] m[j]).0 != k by {
                if j > 0 {
                    assert(m.drop_first()[j - 1] == m[j]);
                }
            }
            assert(m[i0 + 1].0 == k);
        }
    }
}

} // verus!
