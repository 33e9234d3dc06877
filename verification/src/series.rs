//! Series of values by key, each kept to its newest values.
use crate::table::{Key, Table};
use std::collections::VecDeque;
use vstd::prelude::*;

verus! {

/// The newest values of a list, at most `n`.
pub open spec fn newest<T>(s: Seq<T>, n: nat) -> Seq<T> {
    if s.len() <= n {
        s
    } else {
        s.skip(s.len() - n)
    }
}

/// The series over plain values.
pub open spec fn series_of<KV, T>(m: Map<KV, VecDeque<T>>) -> Map<KV, Seq<T>> {
    Map::new(|k: KV| m.dom().contains(k), |k: KV| m[k]@)
}

/// The series under a key, empty where there is none.
pub open spec fn series_at<KV, T>(m: Map<KV, Seq<T>>, k: KV) -> Seq<T> {
    if m.dom().contains(k) {
        m[k]
    } else {
        Seq::empty()
    }
}

/// The series with a value added under a key.
pub open spec fn extended<KV, T>(m: Map<KV, Seq<T>>, k: KV, x: T, cap: nat) -> Map<KV, Seq<T>> {
    m.insert(k, newest(series_at(m, k).push(x), cap))
}

/// Leaves the oldest values out until at most `cap` are left.
pub(crate) fn keep_newest<T>(q: &mut VecDeque<T>, cap: usize)
    ensures
        final(q)@ == newest(old(q)@, cap as nat),
{
    let ghost s = q@;
    assert(s.skip(0) =~= s);
    while q.len() > cap
        invariant
            q@.len() <= s.len(),
            q@ == s.skip(s.len() - q@.len()),
            q@.len() >= cap || s.len() <= cap,
            s.len() <= cap ==> q@ == s,
        decreases q@.len(),
    {
        let ghost before = q@;
        let _ = q.pop_front();
        assert(q@ =~= before.drop_first());
        assert(q@ =~= s.skip(s.len() - q@.len()));
    }
}

/// Adds a value to the series under a key.
pub(crate) fn extend_series<K: Key, T>(t: &mut Table<K, VecDeque<T>>, k: K, x: T, cap: usize)
    requires
        old(t).wf(),
    ensures
        final(t).wf(),
        series_of(final(t)@) == extended(series_of(old(t)@), k@, x, cap as nat),
{
    let ghost m = series_of(t@);
    let ghost kv = k@;
    match t.find(&k) {
        Some(i) => {
            let (key, mut q) = t.remove_at(i);
            let ghost q0 = q@;
            assert(q0 == m[kv]);
            q.push_back(x);
            keep_newest(&mut q, cap);
            let ghost q1 = q@;
            t.insert(key, q);
            assert(series_of(t@) =~= m.insert(kv, q1));
        },
        None => {
            let mut q: VecDeque<T> = VecDeque::new();
            q.push_back(x);
            assert(q@ =~= Seq::<T>::empty().push(x));
            keep_newest(&mut q, cap);
            let ghost q1 = q@;
            t.insert(k, q);
            assert(series_of(t@) =~= m.insert(kv, q1));
        },
    }
}

/// A series never holds more values than it is kept to, and its last value is
/// the one that was added last.
pub proof fn law_series_is_bounded<KV, T>(m: Map<KV, Seq<T>>, k: KV, x: T, cap: nat)
    requires
        cap > 0,
    ensures
        extended(m, k, x, cap)[k].len() <= cap,
        extended(m, k, x, cap)[k].len() > 0,
        extended(m, k, x, cap)[k].last() == x,
{
}

} // verus!
