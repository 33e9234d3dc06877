//! Sorting by a strict weak order.
use vstd::prelude::*;

verus! {

/// A type whose values have a rank.
pub trait Ranked: Sized {
    /// Whether this value ranks strictly before the other.
    spec fn precedes(self, other: Self) -> bool;

    proof fn asymmetric(a: Self, b: Self)
        requires
            a.precedes(b),
        ensures
            !b.precedes(a),
    ;

    proof fn cotransitive(a: Self, b: Self, c: Self)
        requires
            a.precedes(c),
        ensures
            a.precedes(b) || b.precedes(c),
    ;

    fn comes_before(&self, other: &Self) -> (r: bool)
        ensures
            r == self.precedes(*other),
    ;
}

/// No value stands behind one that it ranks before.
pub open spec fn ordered<T: Ranked>(s: Seq<T>) -> bool {
    forall|i: int, j: int| 0 <= i < j < s.len() ==> !(#[trigger] s[j]).precedes(#[trigger] s[i])
}

proof fn lemma_push_multiset<T>(s: Seq<T>, x: T)
    ensures
        s.push(x).to_multiset() == s.to_multiset().insert(x),
{
    broadcast use vstd::seq_lib::group_to_multiset_ensures;

}

proof fn lemma_pop_multiset<T>(s: Seq<T>)
    requires
        s.len() > 0,
    ensures
        s.to_multiset() == s.drop_last().to_multiset().insert(s.last()),
{
    assert(s =~= s.drop_last().push(s.last()));
    lemma_push_multiset(s.drop_last(), s.last());
}

fn merge<T: Ranked>(mut a: Vec<T>, mut b: Vec<T>) -> (r: Vec<T>)
    requires
        ordered(a@),
        ordered(b@),
    ensures
        ordered(r@),
        r@.to_multiset() == a@.to_multiset().add(b@.to_multiset()),
{
    let ghost total = a@.to_multiset().add(b@.to_multiset());
    let mut out: Vec<T> = Vec::new();
    proof {
        broadcast use vstd::seq_lib::group_to_multiset_ensures;

        assert(a@.to_multiset().add(b@.to_multiset()).add(out@.to_multiset()) =~= total);
    }
    while a.len() > 0 || b.len() > 0
        invariant
            ordered(a@),
            ordered(b@),
            forall|i: int, j: int|
                0 <= i < j < out@.len() ==> !(#[trigger] out@[i]).precedes(#[trigger] out@[j]),
            forall|i: int, j: int|
                0 <= i < a@.len() && 0 <= j < out@.len() ==> !(#[trigger] out@[j]).precedes(
                    #[trigger] a@[i],
                ),
            forall|i: int, j: int|
                0 <= i < b@.len() && 0 <= j < out@.len() ==> !(#[trigger] out@[j]).precedes(
                    #[trigger] b@[i],
                ),
            a@.to_multiset().add(b@.to_multiset()).add(out@.to_multiset()) == total,
        decreases a@.len() + b@.len(),
    {
        let from_a = if b.len() == 0 {
            true
        } else if a.len() == 0 {
            false
        } else {
            b[b.len() - 1].comes_before(&a[a.len() - 1])
        };
        let ghost a0 = a@;
        let ghost b0 = b@;
        let ghost out0 = out@;
        if from_a {
            let x = a.pop().unwrap();
            out.push(x);
            proof {
                lemma_pop_multiset(a0);
                lemma_push_multiset(out0, x);
                assert(a@.to_multiset().add(b@.to_multiset()).add(out@.to_multiset()) =~= total);
                assert forall|i: int| 0 <= i < b@.len() implies !x.precedes(#[trigger] b@[i]) by {
                    let y = b@.last();
                    assert(y.precedes(x));
                    if x.precedes(b@[i]) {
                        T::cotransitive(x, y, b@[i]);
                        T::asymmetric(y, x);
                        if i < b@.len() - 1 {
                            assert(!b@[b@.len() - 1].precedes(b@[i]));
                        } else {
                            T::asymmetric(x, y);
                        }
                    }
                }
            }
        } else {
            let x = b.pop().unwrap();
            out.push(x);
            proof {
                lemma_pop_multiset(b0);
                lemma_push_multiset(out0, x);
                assert(a@.to_multiset().add(b@.to_multiset()).add(out@.to_multiset()) =~= total);
                assert forall|i: int| 0 <= i < a@.len() implies !x.precedes(#[trigger] a@[i]) by {
                    let y = a@.last();
                    assert(!x.precedes(y));
                    if x.precedes(a@[i]) {
                        T::cotransitive(x, y, a@[i]);
                        if i < a@.len() - 1 {
                            assert(!a@[a@.len() - 1].precedes(a@[i]));
                        }
                    }
                }
                assert forall|i: int| 0 <= i < b@.len() implies !x.precedes(#[trigger] b@[i]) by {
                    assert(!b0[b0.len() - 1].precedes(b0[i]));
                }
            }
        }
    }
    let ghost full = out@;
    proof {
        broadcast use vstd::seq_lib::group_to_multiset_ensures;

        assert(full.to_multiset() =~= total);
    }
    let mut r: Vec<T> = Vec::new();
    proof {
        broadcast use vstd::seq_lib::group_to_multiset_ensures;

        assert(r@.to_multiset().add(out@.to_multiset()) =~= total);
    }
    while out.len() > 0
        invariant
            forall|i: int, j: int|
                0 <= i < j < full.len() ==> !(#[trigger] full[i]).precedes(#[trigger] full[j]),
            out@ == full.take(out@.len() as int),
            out@.len() <= full.len(),
            r@.len() == full.len() - out@.len(),
            forall|k: int| 0 <= k < r@.len() ==> #[trigger] r@[k] == full[full.len() - 1 - k],
            r@.to_multiset().add(out@.to_multiset()) == total,
        decreases out@.len(),
    {
        let ghost out0 = out@;
        let ghost r0 = r@;
        let x = out.pop().unwrap();
        r.push(x);
        proof {
            lemma_pop_multiset(out0);
            lemma_push_multiset(r0, x);
            assert(r@.to_multiset().add(out@.to_multiset()) =~= total);
            assert(out@ =~= full.take(out@.len() as int));
        }
    }
    proof {
        broadcast use vstd::seq_lib::group_to_multiset_ensures;

        assert(r@.to_multiset() =~= total);
    }
    r
}

/// The values in the order of their ranks.
pub fn sort<T: Ranked>(mut v: Vec<T>) -> (r: Vec<T>)
    ensures
        ordered(r@),
        r@.to_multiset() == v@.to_multiset(),
        r@.len() == v@.len(),
    decreases v@.len(),
{
    let ghost all = v@;
    if v.len() < 2 {
        return v;
    }
    let mid: usize = v.len() / 2;
    let tail = v.split_off(mid);
    let ghost head_seq = v@;
    let ghost tail_seq = tail@;
    let head = sort(v);
    let back = sort(tail);
    let r = merge(head, back);
    proof {
        assert(all =~= head_seq + tail_seq);
        vstd::seq_lib::lemma_multiset_commutative(head_seq, tail_seq);
        broadcast use vstd::seq_lib::group_to_multiset_ensures;

        assert(r@.to_multiset().len() == all.to_multiset().len());
    }
    r
}

impl Ranked for u64 {
    open spec fn precedes(self, other: Self) -> bool {
        self < other
    }

    proof fn asymmetric(a: Self, b: Self) {
    }

    proof fn cotransitive(a: Self, b: Self, c: Self) {
    }

    fn comes_before(&self, other: &Self) -> (r: bool) {
        *self < *other
    }
}

/// Lists with the same members, as often, hold each other's members.
pub(crate) proof fn lemma_same_members<T>(a: Seq<T>, b: Seq<T>, i: int)
    requires
        a.to_multiset() == b.to_multiset(),
        0 <= i < a.len(),
    ensures
        b.contains(a[i]),
{
    broadcast use vstd::seq_lib::group_to_multiset_ensures;

    assert(a.contains(a[i]));
    assert(a.to_multiset().count(a[i]) > 0);
}

/// A list with the members of one without repeats, as often, has no repeats.
pub(crate) proof fn lemma_same_distinct<T>(a: Seq<T>, b: Seq<T>)
    requires
        a.to_multiset() == b.to_multiset(),
        b.no_duplicates(),
    ensures
        a.no_duplicates(),
{
    b.lemma_multiset_has_no_duplicates();
    a.lemma_multiset_has_no_duplicates_conv();
}

/// Lists with the same members, as often, have the same members, as often, after
/// each member is turned into something else.
pub(crate) proof fn lemma_same_mapped<T, U>(a: Seq<T>, b: Seq<T>, f: spec_fn(T) -> U)
    requires
        a.to_multiset() == b.to_multiset(),
    ensures
        a.map_values(f).to_multiset() == b.map_values(f).to_multiset(),
    decreases a.len(),
{
    broadcast use vstd::seq_lib::group_to_multiset_ensures;

    assert(a.to_multiset().len() == a.len());
    assert(b.to_multiset().len() == b.len());
    if a.len() == 0 {
        assert(a.map_values(f) =~= b.map_values(f));
    } else {
        let x = a.last();
        lemma_same_members(a, b, a.len() - 1);
        let j = choose|j: int| 0 <= j < b.len() && b[j] == x;
        let rest = b.remove(j);
        lemma_pop_multiset(a);
        assert(a.drop_last().to_multiset() =~= a.to_multiset().remove(x));
        assert(rest.to_multiset() =~= b.to_multiset().remove(x));
        lemma_same_mapped(a.drop_last(), rest, f);
        lemma_pop_multiset(a.map_values(f));
        assert(a.map_values(f).drop_last() =~= a.drop_last().map_values(f));
        assert(b.map_values(f).remove(j) =~= rest.map_values(f));
        assert(b.map_values(f)[j] == f(x));
        assert(b.map_values(f).to_multiset() =~= rest.map_values(f).to_multiset().insert(f(x)));
    }
}

/// A list with a value put behind the last one that it does not rank before.
pub open spec fn slotted<T: Ranked>(s: Seq<T>, x: T) -> Seq<T>
    decreases s.len(),
{
    if s.len() == 0 || !x.precedes(s.last()) {
        s.push(x)
    } else {
        slotted(s.drop_last(), x).push(s.last())
    }
}

/// The values in the order of their ranks; values of one rank keep their order.
pub open spec fn arranged<T: Ranked>(s: Seq<T>) -> Seq<T>
    decreases s.len(),
{
    if s.len() == 0 {
        s
    } else {
        slotted(arranged(s.drop_last()), s.last())
    }
}

fn slot_in<T: Ranked>(v: &mut Vec<T>, x: T)
    ensures
        final(v)@ == slotted(old(v)@, x),
{
    let ghost s = v@;
    let mut i: usize = v.len();
    assert(s.take(i as int) =~= s);
    assert(slotted(s, x) =~= slotted(s.take(i as int), x) + s.skip(i as int));
    while i > 0 && x.comes_before(&v[i - 1])
        invariant
            i <= v@.len(),
            v@ == s,
            slotted(s, x) == slotted(s.take(i as int), x) + s.skip(i as int),
        decreases i,
    {
        let ghost t = s.take(i as int);
        assert(t.drop_last() =~= s.take(i - 1));
        assert(slotted(t, x) + s.skip(i as int) =~= slotted(s.take(i - 1), x) + s.skip(i - 1));
        i -= 1;
    }
    assert(i > 0 ==> s.take(i as int).last() == s[i - 1]);
    v.insert(i, x);
    assert(v@ =~= s.take(i as int).push(x) + s.skip(i as int));
}

/// Puts the values in the order of their ranks; values of one rank keep their
/// order.
pub fn arrange<T: Ranked>(mut v: Vec<T>) -> (r: Vec<T>)
    ensures
        r@ == arranged(v@),
{
    let ghost all = v@;
    let mut back: Vec<T> = Vec::new();
    while v.len() > 0
        invariant
            v@ == all.take(v@.len() as int),
            v@.len() <= all.len(),
            back@.len() == all.len() - v@.len(),
            forall|k: int| 0 <= k < back@.len() ==> #[trigger] back@[k] == all[all.len() - 1 - k],
        decreases v@.len(),
    {
        let x = v.pop().unwrap();
        back.push(x);
        assert(v@ =~= all.take(v@.len() as int));
    }
    let mut r: Vec<T> = Vec::new();
    assert(all.take(0) =~= Seq::<T>::empty());
    assert(r@ =~= arranged(all.take(0)));
    while back.len() > 0
        invariant
            back@.len() <= all.len(),
            forall|k: int| 0 <= k < back@.len() ==> #[trigger] back@[k] == all[all.len() - 1 - k],
            r@ == arranged(all.take(all.len() - back@.len())),
        decreases back@.len(),
    {
        let ghost n = all.len() - back@.len();
        let x = back.pop().unwrap();
        assert(x == all[n]);
        assert(all.take(n + 1).drop_last() =~= all.take(n));
        slot_in(&mut r, x);
    }
    assert(all.take(all.len() as int) =~= all);
    r
}

proof fn lemma_slotted<T: Ranked>(s: Seq<T>, x: T)
    requires
        ordered(s),
    ensures
        ordered(slotted(s, x)),
        slotted(s, x).to_multiset() == s.to_multiset().insert(x),
        slotted(s, x).len() == s.len() + 1,
        forall|y: T|
            !y.precedes(x) && (s.len() == 0 || !y.precedes(s.last())) ==> !(#[trigger] y.precedes(
                slotted(s, x).last(),
            )),
    decreases s.len(),
{
    broadcast use vstd::seq_lib::group_to_multiset_ensures;

    if s.len() > 0 && x.precedes(s.last()) {
        let t = s.drop_last();
        lemma_slotted(t, x);
        let p = slotted(t, x);
        let last = s.last();
        lemma_pop_multiset(s);
        lemma_push_multiset(p, last);
        assert(slotted(s, x).to_multiset() =~= s.to_multiset().insert(x));
        assert(!last.precedes(x)) by {
            T::asymmetric(x, last);
        }
        assert(t.len() > 0 ==> !last.precedes(t.last())) by {
            if t.len() > 0 {
                assert(!s[s.len() - 1].precedes(s[s.len() - 2]));
            }
        }
        assert(!last.precedes(p.last()));
        assert forall|i: int, j: int| 0 <= i < j < p.push(last).len() implies !(#[trigger] p.push(
            last,
        )[j]).precedes(#[trigger] p.push(last)[i]) by {
            if j == p.len() && i < p.len() - 1 {
                if last.precedes(p[i]) {
                    T::cotransitive(last, p.last(), p[i]);
                    assert(!p[p.len() - 1].precedes(p[i]));
                }
            }
        }
    } else {
        lemma_push_multiset(s, x);
        assert forall|i: int, j: int| 0 <= i < j < s.push(x).len() implies !(#[trigger] s.push(
            x,
        )[j]).precedes(#[trigger] s.push(x)[i]) by {
            if j == s.len() && i < s.len() - 1 {
                if x.precedes(s[i]) {
                    T::cotransitive(x, s.last(), s[i]);
                    assert(!s[s.len() - 1].precedes(s[i]));
                }
            }
        }
    }
}

/// Arranging orders the values and neither loses nor adds one.
pub proof fn law_arranged_is_ordered<T: Ranked>(s: Seq<T>)
    ensures
        ordered(arranged(s)),
        arranged(s).to_multiset() == s.to_multiset(),
        arranged(s).len() == s.len(),
    decreases s.len(),
{
    if s.len() > 0 {
        law_arranged_is_ordered(s.drop_last());
        lemma_slotted(arranged(s.drop_last()), s.last());
        lemma_pop_multiset(s);
    }
}

} // verus!
