//! Ordered association lists at the specification level.
//!
//! The library's trie nodes and output objects keep their entries as
//! ordered key-value sequences with unique keys; these spec functions give
//! them map-like lookup and update, and the lemmas connect the recursive
//! definitions to positional reasoning about the underlying sequences.

use vstd::prelude::*;

verus! {

/// The value at the first entry of `s` whose key is `k`, if any.
pub open spec fn assoc_get<K, V>(s: Seq<(K, V)>, k: K) -> Option<V>
    decreases s.len(),
{
    if s.len() == 0 {
        None
    } else if s[0].0 == k {
        Some(s[0].1)
    } else {
        assoc_get(s.drop_first(), k)
    }
}

/// `s` with the first entry keyed `k` replaced by `(k, v)`, or with
/// `(k, v)` appended when no entry has that key.
pub open spec fn assoc_set<K, V>(s: Seq<(K, V)>, k: K, v: V) -> Seq<(K, V)>
    decreases s.len(),
{
    if s.len() == 0 {
        seq![(k, v)]
    } else if s[0].0 == k {
        seq![(k, v)] + s.drop_first()
    } else {
        seq![s[0]] + assoc_set(s.drop_first(), k, v)
    }
}

/// A lookup that hits position `i`, the first position carrying `k`.
pub proof fn lemma_assoc_get_at<K, V>(s: Seq<(K, V)>, k: K, i: int)
    requires
        0 <= i < s.len(),
        s[i].0 == k,
        forall|j: int| 0 <= j < i ==> s[j].0 != k,
    ensures
        assoc_get(s, k) == Some(s[i].1),
    decreases i,
{
    if i > 0 {
        lemma_assoc_get_at(s.drop_first(), k, i - 1);
    }
}

/// A lookup misses when no entry carries `k`.
pub proof fn lemma_assoc_get_none<K, V>(s: Seq<(K, V)>, k: K)
    requires
        forall|j: int| 0 <= j < s.len() ==> s[j].0 != k,
    ensures
        assoc_get(s, k) is None,
    decreases s.len(),
{
    if s.len() > 0 {
        lemma_assoc_get_none(s.drop_first(), k);
    }
}

/// An update that hits position `i`, the first position carrying `k`,
/// rewrites exactly that position.
pub proof fn lemma_assoc_set_at<K, V>(s: Seq<(K, V)>, k: K, v: V, i: int)
    requires
        0 <= i < s.len(),
        s[i].0 == k,
        forall|j: int| 0 <= j < i ==> s[j].0 != k,
    ensures
        assoc_set(s, k, v) == s.update(i, (k, v)),
    decreases i,
{
    if i == 0 {
        assert(assoc_set(s, k, v) =~= s.update(0, (k, v)));
    } else {
        lemma_assoc_set_at(s.drop_first(), k, v, i - 1);
        assert(assoc_set(s, k, v) =~= s.update(i, (k, v)));
    }
}

/// An update misses when no entry carries `k`, and appends.
pub proof fn lemma_assoc_set_none<K, V>(s: Seq<(K, V)>, k: K, v: V)
    requires
        forall|j: int| 0 <= j < s.len() ==> s[j].0 != k,
    ensures
        assoc_set(s, k, v) == s.push((k, v)),
    decreases s.len(),
{
    if s.len() == 0 {
        assert(assoc_set(s, k, v) =~= s.push((k, v)));
    } else {
        lemma_assoc_set_none(s.drop_first(), k, v);
        assert(assoc_set(s, k, v) =~= s.push((k, v)));
    }
}

/// A lookup after an update with the same key yields the new value.
pub proof fn lemma_assoc_get_set<K, V>(s: Seq<(K, V)>, k: K, v: V)
    ensures
        assoc_get(assoc_set(s, k, v), k) == Some(v),
    decreases s.len(),
{
    if s.len() == 0 {
    } else if s[0].0 == k {
    } else {
        lemma_assoc_get_set(s.drop_first(), k, v);
        assert((seq![s[0]] + assoc_set(s.drop_first(), k, v)).drop_first() =~= assoc_set(
            s.drop_first(),
            k,
            v,
        ));
    }
}

/// Two updates with the same key collapse to the second.
pub proof fn lemma_assoc_set_set<K, V>(s: Seq<(K, V)>, k: K, v: V, w: V)
    ensures
        assoc_set(assoc_set(s, k, v), k, w) == assoc_set(s, k, w),
    decreases s.len(),
{
    if s.len() == 0 {
        assert(assoc_set(assoc_set(s, k, v), k, w) =~= assoc_set(s, k, w));
    } else if s[0].0 == k {
        assert((seq![(k, v)] + s.drop_first()).drop_first() =~= s.drop_first());
        assert(assoc_set(assoc_set(s, k, v), k, w) =~= assoc_set(s, k, w));
    } else {
        lemma_assoc_set_set(s.drop_first(), k, v, w);
        assert((seq![s[0]] + assoc_set(s.drop_first(), k, v)).drop_first() =~= assoc_set(
            s.drop_first(),
            k,
            v,
        ));
        assert(assoc_set(assoc_set(s, k, v), k, w) =~= assoc_set(s, k, w));
    }
}

/// A lookup after appending a key that was absent yields the appended
/// value.
pub proof fn lemma_assoc_get_push<K, V>(s: Seq<(K, V)>, k: K, v: V)
    requires
        assoc_get(s, k) is None,
    ensures
        assoc_get(s.push((k, v)), k) == Some(v),
    decreases s.len(),
{
    if s.len() == 0 {
        assert(s.push((k, v))[0] == (k, v));
    } else {
        assert(s.push((k, v))[0] == s[0]);
        lemma_assoc_get_push(s.drop_first(), k, v);
        assert(s.push((k, v)).drop_first() =~= s.drop_first().push((k, v)));
    }
}

/// Updating a key with the value it already carries changes nothing.
pub proof fn lemma_assoc_set_same<K, V>(s: Seq<(K, V)>, k: K, v: V)
    requires
        assoc_get(s, k) == Some(v),
    ensures
        assoc_set(s, k, v) == s,
    decreases s.len(),
{
    if s.len() == 0 {
    } else if s[0].0 == k {
        assert(s[0] == (k, v));
        assert(assoc_set(s, k, v) =~= s);
    } else {
        lemma_assoc_set_same(s.drop_first(), k, v);
        assert(assoc_set(s, k, v) =~= s);
    }
}

/// Updating a key just appended rewrites the appended entry.
pub proof fn lemma_assoc_set_push<K, V>(s: Seq<(K, V)>, k: K, v: V, w: V)
    requires
        assoc_get(s, k) is None,
    ensures
        assoc_set(s.push((k, v)), k, w) == s.push((k, w)),
    decreases s.len(),
{
    if s.len() == 0 {
        assert(s.push((k, v))[0] == (k, v));
        assert(assoc_set(s.push((k, v)), k, w) =~= s.push((k, w)));
    } else {
        assert(s.push((k, v))[0] == s[0]);
        lemma_assoc_set_push(s.drop_first(), k, v, w);
        assert(s.push((k, v)).drop_first() =~= s.drop_first().push((k, v)));
        assert(assoc_set(s.push((k, v)), k, w) =~= s.push((k, w)));
    }
}

/// Appending an entry with another key leaves a lookup unchanged.
pub proof fn lemma_assoc_get_push_other<K, V>(s: Seq<(K, V)>, k: K, v: V, q: K)
    requires
        q != k,
    ensures
        assoc_get(s.push((k, v)), q) == assoc_get(s, q),
    decreases s.len(),
{
    if s.len() == 0 {
        assert(s.push((k, v))[0] == (k, v));
        assert(s.push((k, v)).drop_first() =~= s);
        assert(assoc_get(s.push((k, v)), q) == assoc_get(s, q));
    } else {
        assert(s.push((k, v))[0] == s[0]);
        lemma_assoc_get_push_other(s.drop_first(), k, v, q);
        assert(s.push((k, v)).drop_first() =~= s.drop_first().push((k, v)));
    }
}

/// An update under one key leaves lookups of other keys unchanged.
pub proof fn lemma_assoc_get_set_other<K, V>(s: Seq<(K, V)>, k: K, v: V, q: K)
    requires
        q != k,
    ensures
        assoc_get(assoc_set(s, k, v), q) == assoc_get(s, q),
    decreases s.len(),
{
    if s.len() == 0 {
        assert(assoc_set(s, k, v) =~= seq![(k, v)]);
        assert(assoc_get(assoc_set(s, k, v), q) == assoc_get(seq![(k, v)].drop_first(), q));
        assert(seq![(k, v)].drop_first() =~= s);
    } else if s[0].0 == k {
        assert(assoc_set(s, k, v) == seq![(k, v)] + s.drop_first());
        assert((seq![(k, v)] + s.drop_first())[0] == (k, v));
        assert((seq![(k, v)] + s.drop_first()).drop_first() =~= s.drop_first());
    } else {
        lemma_assoc_get_set_other(s.drop_first(), k, v, q);
        assert((seq![s[0]] + assoc_set(s.drop_first(), k, v))[0] == s[0]);
        assert((seq![s[0]] + assoc_set(s.drop_first(), k, v)).drop_first() =~= assoc_set(
            s.drop_first(),
            k,
            v,
        ));
    }
}

/// A successful lookup names the first entry carrying its key.
pub proof fn lemma_assoc_get_first<K, V>(s: Seq<(K, V)>, k: K, v: V)
    requires
        assoc_get(s, k) == Some(v),
    ensures
        exists|m: int|
            0 <= m < s.len() && s[m] == (k, v) && (forall|g: int| 0 <= g < m ==> s[g].0 != k),
    decreases s.len(),
{
    if s.len() == 0 {
    } else if s[0].0 == k {
        assert(s[0] == (k, v));
        assert(0 <= 0 < s.len() && s[0] == (k, v) && (forall|g: int| 0 <= g < 0 ==> s[g].0 != k));
    } else {
        lemma_assoc_get_first(s.drop_first(), k, v);
        let m = choose|m: int|
            0 <= m < s.drop_first().len() && s.drop_first()[m] == (k, v) && (forall|g: int|
                0 <= g < m ==> s.drop_first()[g].0 != k);
        assert(s[m + 1] == (k, v));
        assert(forall|g: int| 0 <= g < m + 1 ==> s[g].0 != k) by {
            assert(forall|g: int| 1 <= g < m + 1 ==> s[g] == s.drop_first()[g - 1]);
        }
    }
}

} // verus!
