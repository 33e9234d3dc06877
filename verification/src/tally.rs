//! Counting how often names occur, and the names that occur most.
use crate::sort::{lemma_same_distinct, lemma_same_members, sort, Ranked};
use crate::table::Table;
use crate::text::{less, lemma_text_less_total, lemma_text_less_transitive, text_less};
use vstd::prelude::*;

verus! {

/// A name and how often it occurs.
#[derive(Debug)]
pub struct DnsTopItem {
    pub name: String,
    pub count: usize,
}

/// Whether a counted name ranks before another: by the count, the largest first,
/// then by the name.
pub open spec fn ranks_before(name: Seq<char>, count: nat, other: Seq<char>, other_count: nat) -> bool {
    count > other_count || (count == other_count && text_less(name, other))
}

impl Ranked for DnsTopItem {
    open spec fn precedes(self, other: Self) -> bool {
        ranks_before(self.name@, self.count as nat, other.name@, other.count as nat)
    }

    proof fn asymmetric(a: Self, b: Self) {
        lemma_text_less_total(a.name@, b.name@);
    }

    proof fn cotransitive(a: Self, b: Self, c: Self) {
        lemma_text_less_total(a.name@, b.name@);
        lemma_text_less_total(b.name@, c.name@);
        if a.count == b.count && b.count == c.count && !a.precedes(b) && !b.precedes(c) {
            if text_less(b.name@, a.name@) {
                if text_less(c.name@, b.name@) {
                    lemma_text_less_transitive(c.name@, b.name@, a.name@);
                }
                lemma_text_less_total(a.name@, c.name@);
            } else {
                lemma_text_less_total(a.name@, c.name@);
            }
        }
    }

    fn comes_before(&self, other: &Self) -> (r: bool) {
        self.count > other.count || (self.count == other.count && less(
            self.name.as_str(),
            other.name.as_str(),
        ))
    }
}

/// How often a name occurs.
pub open spec fn occurrences(names: Seq<Seq<char>>, name: Seq<char>) -> nat {
    names.to_multiset().count(name)
}

/// The table counts the names.
pub open spec fn counts(t: Table<String, usize>, names: Seq<Seq<char>>) -> bool {
    &&& t.wf()
    &&& forall|x: Seq<char>| #[trigger] t@.dom().contains(x) <==> names.contains(x)
    &&& forall|x: Seq<char>| #[trigger]
        t@.dom().contains(x) ==> t@[x] == occurrences(names, x)
}

/// Counts one more name.
pub(crate) fn count_name(t: &mut Table<String, usize>, name: &String, Ghost(names): Ghost<Seq<Seq<char>>>)
    requires
        counts(*old(t), names),
        names.len() < usize::MAX,
    ensures
        counts(*final(t), names.push(name@)),
{
    broadcast use vstd::seq_lib::group_to_multiset_ensures;

    proof {
        assert forall|x: Seq<char>| names.push(name@).contains(x) <==> (names.contains(x) || x
            == name@) by {
            if names.contains(x) {
                let i = choose|i: int| 0 <= i < names.len() && names[i] == x;
                assert(names.push(name@)[i] == x);
            }
            if x == name@ {
                assert(names.push(name@)[names.len() as int] == x);
            }
        }
    }
    match t.find(name) {
        Some(i) => {
            let n: usize = t.entries[i].1;
            proof {
                assert(names.to_multiset().count(name@) <= names.to_multiset().len());
            }
            t.set_at(i, n + 1);
        },
        None => {
            assert(names.to_multiset().count(name@) == 0);
            t.insert(name.clone(), 1);
        },
    }
}

/// A table that counts names has an entry for each of them.
pub proof fn lemma_counted(t: Table<String, usize>, names: Seq<Seq<char>>)
    requires
        counts(t, names),
    ensures
        t.entries@.len() == names.to_set().len(),
{
    let keys = t.keys();
    assert(keys.no_duplicates());
    keys.unique_seq_to_set();
    assert(keys.to_set() =~= names.to_set()) by {
        assert forall|x: Seq<char>| keys.to_set().contains(x) <==> names.to_set().contains(x) by {
            if keys.contains(x) {
                let j = choose|j: int| 0 <= j < keys.len() && keys[j] == x;
                t.lemma_entry(j);
            }
            if names.contains(x) {
                assert(t@.dom().contains(x));
                let j = t.place(x);
                assert(t.entries@[j].0@ == x);
                assert(keys[j] == x);
            }
        }
    }
}

/// The list holds the names that rank first, in the order of their ranks: as many
/// as there are, or as the limit allows.
pub open spec fn top_of(items: Seq<DnsTopItem>, names: Seq<Seq<char>>, limit: nat) -> bool {
    &&& items.len() == if names.to_set().len() < limit {
        names.to_set().len()
    } else {
        limit
    }
    &&& forall|i: int|
        0 <= i < items.len() ==> names.contains((#[trigger] items[i]).name@) && items[i].count
            == occurrences(names, items[i].name@)
    &&& forall|i: int, j: int|
        0 <= i < j < items.len() ==> ranks_before(
            (#[trigger] items[i]).name@,
            items[i].count as nat,
            (#[trigger] items[j]).name@,
            items[j].count as nat,
        )
    &&& forall|x: Seq<char>, i: int|
        names.contains(x) && 0 <= i < items.len() && (forall|j: int|
            0 <= j < items.len() ==> (#[trigger] items[j]).name@ != x) ==> #[trigger] ranks_before(
            items[i].name@,
            items[i].count as nat,
            x,
            occurrences(names, x),
        )
}

/// The names that occur most often, at most `limit` of them.
pub(crate) fn sorted_top_items(values: &Table<String, usize>, limit: usize, Ghost(names): Ghost<
    Seq<Seq<char>>,
>) -> (r: Vec<DnsTopItem>)
    requires
        counts(*values, names),
    ensures
        top_of(r@, names, limit as nat),
{
    let mut items: Vec<DnsTopItem> = Vec::new();
    let mut i: usize = 0;
    while i < values.entries.len()
        invariant
            i <= values.entries@.len(),
            items@.len() == i,
            forall|j: int|
                0 <= j < i ==> (#[trigger] items@[j]).name@ == values.entries@[j].0@
                    && items@[j].count == values.entries@[j].1,
        decreases values.entries@.len() - i,
    {
        let e = &values.entries[i];
        items.push(DnsTopItem { name: e.0.clone(), count: e.1 });
        i += 1;
    }
    let ghost all = items@;
    let mut r = sort(items);
    let ghost full = r@;
    proof {
        assert(all.no_duplicates());
        lemma_same_distinct(full, all);
        assert forall|k: int| 0 <= k < full.len() implies exists|j: int|
            0 <= j < all.len() && all[j] == #[trigger] full[k] by {
            lemma_same_members(full, all, k);
        }
        assert forall|k: int| 0 <= k < all.len() implies exists|j: int|
            0 <= j < full.len() && full[j] == #[trigger] all[k] by {
            lemma_same_members(all, full, k);
        }
        assert forall|k: int| 0 <= k < full.len() implies names.contains((#[trigger] full[k]).name@)
            && full[k].count == occurrences(names, full[k].name@) by {
            let j = choose|j: int| 0 <= j < all.len() && all[j] == full[k];
            values.lemma_entry(j);
        }
        assert forall|a: int, b: int| 0 <= a < b < full.len() implies full[a].name@
            != full[b].name@ by {
            let x = choose|j: int| 0 <= j < all.len() && all[j] == full[a];
            let y = choose|j: int| 0 <= j < all.len() && all[j] == full[b];
            if full[a].name@ == full[b].name@ {
                assert(values.entries@[x].0@ == values.entries@[y].0@);
                assert(x == y);
                assert(full[a] == full[b]);
            }
        }
        assert forall|a: int, b: int| 0 <= a < b < full.len() implies ranks_before(
            (#[trigger] full[a]).name@,
            full[a].count as nat,
            (#[trigger] full[b]).name@,
            full[b].count as nat,
        ) by {
            assert(!full[b].precedes(full[a]));
            lemma_text_less_total(full[a].name@, full[b].name@);
        }
        lemma_counted(*values, names);
        assert(names.to_set().len() == full.len());
    }
    if r.len() > limit {
        r.truncate(limit);
    }
    proof {
        assert forall|x: Seq<char>, i: int|
            names.contains(x) && 0 <= i < r@.len() && (forall|j: int|
                0 <= j < r@.len() ==> (#[trigger] r@[j]).name@ != x) implies #[trigger] ranks_before(
            r@[i].name@,
            r@[i].count as nat,
            x,
            occurrences(names, x),
        ) by {
            assert(values@.dom().contains(x));
            let p = values.place(x);
            values.lemma_entry(p);
            assert(all[p].name@ == x);
            let q = choose|j: int| 0 <= j < full.len() && full[j] == all[p];
            assert(full[q].name@ == x);
            if q < r@.len() {
                assert(r@[q].name@ == x);
            }
            assert(full[i] == r@[i]);
        }
    }
    r
}

} // verus!
