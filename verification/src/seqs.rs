//! Association lists over sequences: lookup, update and removal by key, with
//! the lemmas that connect them to positional updates, plus small helpers on
//! `Seq::filter`.
//!
//! Every table of the store is a `Vec` of key/value pairs with pairwise
//! distinct keys; contracts speak of these spec functions.

use vstd::prelude::*;

verus! {

/// All keys of the association list are pairwise distinct.
pub open spec fn unique_keys<K, V>(s: Seq<(K, V)>) -> bool {
    forall|i: int, j: int| 0 <= i < j < s.len() ==> (#[trigger] s[i]).0 != (#[trigger] s[j]).0
}

/// The value bound to `k`: the first pair with that key, if any.
pub open spec fn spec_get<K, V>(s: Seq<(K, V)>, k: K) -> Option<V>
    decreases s.len(),
{
    if s.len() == 0 {
        None
    } else if s[0].0 == k {
        Some(s[0].1)
    } else {
        spec_get(s.drop_first(), k)
    }
}

/// Binds `k` to `v`: replaces the first pair with that key, or appends a new
/// pair at the end.
pub open spec fn assoc_set<K, V>(s: Seq<(K, V)>, k: K, v: V) -> Seq<(K, V)>
    decreases s.len(),
{
    if s.len() == 0 {
        seq![(k, v)]
    } else if s[0].0 == k {
        seq![(k, v)] + s.drop_first()
    } else {
        seq![s[0]] + assoc_set(s.drop_first(), k, v)
    }
}

/// Drops every pair whose key is `k`.
pub open spec fn assoc_remove<K, V>(s: Seq<(K, V)>, k: K) -> Seq<(K, V)> {
    s.filter(|p: (K, V)| p.0 != k)
}

/// When `i` is the first position holding key `k`, lookup returns that value.
pub proof fn lemma_spec_get_at<K, V>(s: Seq<(K, V)>, k: K, i: int)
    requires
        0 <= i < s.len(),
        s[i].0 == k,
        forall|j: int| 0 <= j < i ==> (#[trigger] s[j]).0 != k,
    ensures
        spec_get(s, k) == Some(s[i].1),
    decreases i,
{
    if i > 0 {
        assert(s[0].0 != k);
        let t = s.drop_first();
        assert forall|j: int| 0 <= j < i - 1 implies (#[trigger] t[j]).0 != k by {
            assert(t[j] == s[j + 1]);
        }
        lemma_spec_get_at(t, k, i - 1);
    }
}

/// When no pair holds key `k`, lookup returns nothing.
pub proof fn lemma_spec_get_none<K, V>(s: Seq<(K, V)>, k: K)
    requires
        forall|j: int| 0 <= j < s.len() ==> (#[trigger] s[j]).0 != k,
    ensures
        spec_get(s, k) is None,
    decreases s.len(),
{
    if s.len() > 0 {
        let t = s.drop_first();
        assert forall|j: int| 0 <= j < t.len() implies (#[trigger] t[j]).0 != k by {
            assert(t[j] == s[j + 1]);
        }
        lemma_spec_get_none(t, k);
    }
}

/// When `i` is the first position holding key `k`, binding `k` updates there.
pub proof fn lemma_assoc_set_updates<K, V>(s: Seq<(K, V)>, k: K, v: V, i: int)
    requires
        0 <= i < s.len(),
        s[i].0 == k,
        forall|j: int| 0 <= j < i ==> (#[trigger] s[j]).0 != k,
    ensures
        assoc_set(s, k, v) == s.update(i, (k, v)),
    decreases i,
{
    if i == 0 {
        assert(assoc_set(s, k, v) =~= s.update(0, (k, v)));
    } else {
        assert(s[0].0 != k);
        let t = s.drop_first();
        assert forall|j: int| 0 <= j < i - 1 implies (#[trigger] t[j]).0 != k by {
            assert(t[j] == s[j + 1]);
        }
        assert(t[i - 1] == s[i]);
        lemma_assoc_set_updates(t, k, v, i - 1);
        assert(assoc_set(s, k, v) =~= s.update(i, (k, v)));
    }
}

/// When no pair holds key `k`, binding `k` appends at the end.
pub proof fn lemma_assoc_set_appends<K, V>(s: Seq<(K, V)>, k: K, v: V)
    requires
        forall|j: int| 0 <= j < s.len() ==> (#[trigger] s[j]).0 != k,
    ensures
        assoc_set(s, k, v) == s.push((k, v)),
    decreases s.len(),
{
    if s.len() == 0 {
        assert(assoc_set(s, k, v) =~= s.push((k, v)));
    } else {
        let t = s.drop_first();
        assert forall|j: int| 0 <= j < t.len() implies (#[trigger] t[j]).0 != k by {
            assert(t[j] == s[j + 1]);
        }
        lemma_assoc_set_appends(t, k, v);
        assert(assoc_set(s, k, v) =~= s.push((k, v)));
    }
}

/// With distinct keys, removing key `k` found at position `i` removes exactly
/// that pair.
pub proof fn lemma_assoc_remove_at<K, V>(s: Seq<(K, V)>, k: K, i: int)
    requires
        0 <= i < s.len(),
        s[i].0 == k,
        forall|j: int| 0 <= j < s.len() && j != i ==> (#[trigger] s[j]).0 != k,
    ensures
        assoc_remove(s, k) == s.remove(i),
    decreases s.len(),
{
    reveal(Seq::filter);
    let pred = |p: (K, V)| p.0 != k;
    if i + 1 == s.len() {
        assert(!pred(s.last()));
        assert forall|j: int| 0 <= j < s.drop_last().len() implies pred(
            #[trigger] s.drop_last()[j],
        ) by {
            assert(s.drop_last()[j] == s[j]);
        }
        lemma_filter_keeps_all(s.drop_last(), pred);
        assert(assoc_remove(s, k) =~= s.remove(i));
    } else {
        let t = s.drop_last();
        assert forall|j: int| 0 <= j < t.len() && j != i implies (#[trigger] t[j]).0 != k by {
            assert(0 <= j < s.len());
        }
        assert(t[i] == s[i]);
        lemma_assoc_remove_at(t, k, i);
        assert(pred(s.last()));
        assert(s.filter(pred) == t.filter(pred).push(s.last()));
        assert(assoc_remove(s, k) =~= s.remove(i));
    }
}

/// When no pair holds key `k`, removing `k` changes nothing.
pub proof fn lemma_assoc_remove_absent<K, V>(s: Seq<(K, V)>, k: K)
    requires
        forall|j: int| 0 <= j < s.len() ==> (#[trigger] s[j]).0 != k,
    ensures
        assoc_remove(s, k) == s,
{
    lemma_filter_keeps_all(s, |p: (K, V)| p.0 != k);
}

/// After binding `k`, looking `k` up finds the new value.
pub proof fn lemma_assoc_set_get_same<K, V>(s: Seq<(K, V)>, k: K, v: V)
    ensures
        spec_get(assoc_set(s, k, v), k) == Some(v),
    decreases s.len(),
{
    if s.len() == 0 {
    } else if s[0].0 == k {
    } else {
        lemma_assoc_set_get_same(s.drop_first(), k, v);
        let r = seq![s[0]] + assoc_set(s.drop_first(), k, v);
        assert(r.drop_first() =~= assoc_set(s.drop_first(), k, v));
    }
}

/// Binding `k` leaves every other key's binding unchanged.
pub proof fn lemma_assoc_set_get_other<K, V>(s: Seq<(K, V)>, k: K, v: V, k2: K)
    requires
        k2 != k,
    ensures
        spec_get(assoc_set(s, k, v), k2) == spec_get(s, k2),
    decreases s.len(),
{
    if s.len() == 0 {
        let r = assoc_set(s, k, v);
        assert(r =~= seq![(k, v)]);
        assert(r[0].0 != k2);
        assert(r.drop_first() =~= Seq::<(K, V)>::empty());
        assert(spec_get(r.drop_first(), k2) is None);
    } else if s[0].0 == k {
        let r = seq![(k, v)] + s.drop_first();
        assert(r[0].0 != k2);
        assert(r.drop_first() =~= s.drop_first());
    } else {
        lemma_assoc_set_get_other(s.drop_first(), k, v, k2);
        let r = seq![s[0]] + assoc_set(s.drop_first(), k, v);
        assert(r[0] == s[0]);
        assert(r.drop_first() =~= assoc_set(s.drop_first(), k, v));
    }
}

/// Removing a pair keeps the keys pairwise distinct.
pub proof fn lemma_remove_unique<K, V>(s: Seq<(K, V)>, i: int)
    requires
        unique_keys(s),
        0 <= i < s.len(),
    ensures
        unique_keys(s.remove(i)),
{
    let r = s.remove(i);
    assert forall|p: int, q: int| 0 <= p < q < r.len() implies (#[trigger] r[p]).0 != (
    #[trigger] r[q]).0 by {
        let p0 = if p < i {
            p
        } else {
            p + 1
        };
        let q0 = if q < i {
            q
        } else {
            q + 1
        };
        assert(r[p] == s[p0]);
        assert(r[q] == s[q0]);
    }
}

/// A filter whose predicate holds everywhere keeps the sequence unchanged.
pub proof fn lemma_filter_keeps_all<A>(s: Seq<A>, pred: spec_fn(A) -> bool)
    requires
        forall|j: int| 0 <= j < s.len() ==> pred(#[trigger] s[j]),
    ensures
        s.filter(pred) == s,
    decreases s.len(),
{
    reveal(Seq::filter);
    if s.len() > 0 {
        lemma_filter_keeps_all(s.drop_last(), pred);
        assert(s.filter(pred) =~= s);
    } else {
        assert(s.filter(pred) =~= s);
    }
}

/// Filtering a single element keeps it exactly when it passes.
pub proof fn lemma_filter_singleton<A>(x: A, pred: spec_fn(A) -> bool)
    ensures
        seq![x].filter(pred) == if pred(x) {
            seq![x]
        } else {
            Seq::<A>::empty()
        },
{
    reveal(Seq::filter);
    let s = seq![x];
    assert(s.drop_last() =~= Seq::<A>::empty());
    assert(Seq::<A>::empty().filter(pred) =~= Seq::<A>::empty());
    if pred(x) {
        assert(s.filter(pred) =~= seq![x]);
    } else {
        assert(s.filter(pred) =~= Seq::<A>::empty());
    }
}

/// A filter whose predicate holds nowhere keeps nothing.
pub proof fn lemma_filter_none<A>(s: Seq<A>, pred: spec_fn(A) -> bool)
    requires
        forall|j: int| 0 <= j < s.len() ==> !pred(#[trigger] s[j]),
    ensures
        s.filter(pred) == Seq::<A>::empty(),
    decreases s.len(),
{
    reveal(Seq::filter);
    if s.len() == 0 {
        assert(s.filter(pred) =~= Seq::<A>::empty());
    } else {
        lemma_filter_none(s.drop_last(), pred);
        assert(!pred(s.last()));
        assert(s.filter(pred) =~= Seq::<A>::empty());
    }
}

/// Filtering twice with the same predicate filters once.
pub proof fn lemma_filter_idempotent<A>(s: Seq<A>, pred: spec_fn(A) -> bool)
    ensures
        s.filter(pred).filter(pred) == s.filter(pred),
{
    let t = s.filter(pred);
    assert forall|j: int| 0 <= j < t.len() implies pred(#[trigger] t[j]) by {
        s.lemma_filter_pred(pred, j);
    }
    lemma_filter_keeps_all(t, pred);
}

/// Filtering with one predicate and then another filters with both at once.
pub proof fn lemma_filter_compose<A>(s: Seq<A>, p: spec_fn(A) -> bool, q: spec_fn(A) -> bool)
    ensures
        s.filter(p).filter(q) == s.filter(|x: A| p(x) && q(x)),
    decreases s.len(),
{
    reveal(Seq::filter);
    if s.len() == 0 {
        assert(s.filter(p).filter(q) =~= s.filter(|x: A| p(x) && q(x)));
    } else {
        let t = s.drop_last();
        lemma_filter_compose(t, p, q);
        if p(s.last()) {
            lemma_filter_push(t.filter(p), q, s.last());
            assert(s.filter(p) == t.filter(p).push(s.last()));
        }
        assert(s.filter(p).filter(q) =~= s.filter(|x: A| p(x) && q(x)));
    }
}

/// Binding the same key to the same value twice binds it once.
pub proof fn lemma_assoc_set_absorb<K, V>(s: Seq<(K, V)>, k: K, v: V)
    ensures
        assoc_set(assoc_set(s, k, v), k, v) == assoc_set(s, k, v),
    decreases s.len(),
{
    if s.len() == 0 {
        let r = assoc_set(s, k, v);
        assert(r =~= seq![(k, v)]);
        assert(assoc_set(r, k, v) =~= r);
    } else if s[0].0 == k {
        let r = seq![(k, v)] + s.drop_first();
        assert(r[0].0 == k);
        assert(assoc_set(r, k, v) =~= r);
    } else {
        lemma_assoc_set_absorb(s.drop_first(), k, v);
        let r = seq![s[0]] + assoc_set(s.drop_first(), k, v);
        assert(r[0] == s[0]);
        assert(r.drop_first() =~= assoc_set(s.drop_first(), k, v));
        assert(assoc_set(r, k, v) =~= r);
    }
}

/// Filtering after appending one element appends it when it passes.
pub proof fn lemma_filter_push<A>(s: Seq<A>, pred: spec_fn(A) -> bool, x: A)
    ensures
        s.push(x).filter(pred) == if pred(x) {
            s.filter(pred).push(x)
        } else {
            s.filter(pred)
        },
{
    reveal(Seq::filter);
    assert(s.push(x).drop_last() =~= s);
    if pred(x) {
        assert(s.push(x).filter(pred) =~= s.filter(pred).push(x));
    }
}

/// A stronger predicate never keeps more elements.
pub proof fn lemma_filter_len_monotone<A>(s: Seq<A>, p: spec_fn(A) -> bool, q: spec_fn(A) -> bool)
    requires
        forall|x: A| #[trigger] p(x) ==> q(x),
    ensures
        s.filter(p).len() <= s.filter(q).len(),
    decreases s.len(),
{
    reveal(Seq::filter);
    if s.len() > 0 {
        lemma_filter_len_monotone(s.drop_last(), p, q);
    }
}

/// A prefix one longer is the prefix plus the next element.
pub proof fn lemma_take_push<A>(s: Seq<A>, i: int)
    requires
        0 <= i < s.len(),
    ensures
        s.take(i + 1) == s.take(i).push(s[i]),
{
    assert(s.take(i + 1) =~= s.take(i).push(s[i]));
}

/// Tests whether a dimension id occurs in a list of dimension ids.
pub fn contains_dim(dims: &Vec<u8>, x: u8) -> (r: bool)
    ensures
        r == dims@.contains(x),
{
    let mut i: usize = 0;
    while i < dims.len()
        invariant
            0 <= i <= dims.len(),
            forall|j: int| 0 <= j < i ==> dims@[j] != x,
        decreases dims.len() - i,
    {
        if dims[i] == x {
            return true;
        }
        i = i + 1;
    }
    false
}

} // verus!
