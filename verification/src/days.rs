//! What merging hours into days keeps of them.
use crate::bucket::{empty_bucket, AggregatedBucket};
use crate::history::{
    all_finalized, day_map, day_merged, greater, law_day_holds_its_hours, lists_days, may_be_days,
    tells, AggregateBucket,
};
use vstd::prelude::*;

verus! {

/// A number of a bucket that adds up over buckets.
#[derive(Clone, Copy, Debug, PartialEq, Eq, Structural)]
pub enum Amount {
    UpV4Bytes,
    DownV4Bytes,
    UpV6Bytes,
    DownV6Bytes,
    UpV4Rates,
    DownV4Rates,
    UpV6Rates,
    DownV6Rates,
    Samples,
}

/// A greatest rate of a bucket.
#[derive(Clone, Copy, Debug, PartialEq, Eq, Structural)]
pub enum Peak {
    UpV4,
    DownV4,
    UpV6,
    DownV6,
}

/// What a bucket holds of an amount.
pub open spec fn held(b: AggregatedBucket, a: Amount) -> u64 {
    match a {
        Amount::UpV4Bytes => b.up_v4_bytes,
        Amount::DownV4Bytes => b.down_v4_bytes,
        Amount::UpV6Bytes => b.up_v6_bytes,
        Amount::DownV6Bytes => b.down_v6_bytes,
        Amount::UpV4Rates => b.up_v4_bps_sum,
        Amount::DownV4Rates => b.down_v4_bps_sum,
        Amount::UpV6Rates => b.up_v6_bps_sum,
        Amount::DownV6Rates => b.down_v6_bps_sum,
        Amount::Samples => b.sample_count,
    }
}

/// The greatest rate of a bucket.
pub open spec fn peak_of(b: AggregatedBucket, k: Peak) -> u64 {
    match k {
        Peak::UpV4 => b.up_v4_bps_max,
        Peak::DownV4 => b.down_v4_bps_max,
        Peak::UpV6 => b.up_v6_bps_max,
        Peak::DownV6 => b.down_v6_bps_max,
    }
}

/// What buckets hold of an amount together.
pub open spec fn total(s: Seq<AggregatedBucket>, a: Amount) -> int
    decreases s.len(),
{
    if s.len() == 0 {
        0
    } else {
        total(s.drop_last(), a) + held(s.last(), a)
    }
}

/// The greatest rate of buckets, zero where there are none.
pub open spec fn greatest(s: Seq<AggregatedBucket>, k: Peak) -> u64
    decreases s.len(),
{
    if s.len() == 0 {
        0
    } else {
        greater(greatest(s.drop_last(), k), peak_of(s.last(), k))
    }
}

proof fn lemma_total_remove(s: Seq<AggregatedBucket>, p: int, a: Amount)
    requires
        0 <= p < s.len(),
    ensures
        total(s, a) == total(s.remove(p), a) + held(s[p], a),
        total(s.remove(p), a) >= 0,
    decreases s.len(),
{
    let t = s.remove(p);
    lemma_total_counts(t, a);
    if p == s.len() - 1 {
        assert(t =~= s.drop_last());
    } else {
        assert(t.drop_last() =~= s.drop_last().remove(p));
        assert(t.last() == s.last());
        lemma_total_remove(s.drop_last(), p, a);
    }
}

proof fn lemma_total_counts(s: Seq<AggregatedBucket>, a: Amount)
    ensures
        total(s, a) >= 0,
        total(all_finalized(s), a) == total(s, a),
    decreases s.len(),
{
    if s.len() > 0 {
        assert(all_finalized(s).drop_last() =~= all_finalized(s.drop_last()));
        lemma_total_counts(s.drop_last(), a);
    }
}

proof fn lemma_greatest_remove(s: Seq<AggregatedBucket>, p: int, k: Peak)
    requires
        0 <= p < s.len(),
    ensures
        greatest(s, k) == greater(greatest(s.remove(p), k), peak_of(s[p], k)),
    decreases s.len(),
{
    let t = s.remove(p);
    if p == s.len() - 1 {
        assert(t =~= s.drop_last());
    } else {
        assert(t.drop_last() =~= s.drop_last().remove(p));
        assert(t.last() == s.last());
        lemma_greatest_remove(s.drop_last(), p, k);
    }
}

proof fn lemma_greatest_finalized(s: Seq<AggregatedBucket>, k: Peak)
    ensures
        greatest(all_finalized(s), k) == greatest(s, k),
    decreases s.len(),
{
    if s.len() > 0 {
        assert(all_finalized(s).drop_last() =~= all_finalized(s.drop_last()));
        lemma_greatest_finalized(s.drop_last(), k);
    }
}

/// The days that hours make up are finitely many.
proof fn lemma_days_finite(hours: Seq<AggregatedBucket>, days: Seq<(u64, u64)>)
    ensures
        day_map(hours, days).dom().finite(),
    decreases hours.len(),
{
    if hours.len() > 0 && days.len() == hours.len() {
        lemma_days_finite(hours.drop_last(), days.drop_last());
    }
}

/// Each day of a map is in the list of its days.
proof fn lemma_day_listed(v: Seq<AggregatedBucket>, m: Map<u64, AggregatedBucket>, day: u64) -> (p:
    int)
    requires
        lists_days(v, m),
        m.dom().finite(),
        m.dom().contains(day),
    ensures
        0 <= p < v.len(),
        v[p].start_ts_ms == day,
        v[p] == m[day],
{
    let keys = Seq::new(v.len(), |i: int| v[i].start_ts_ms);
    assert(keys.no_duplicates()) by {
        assert forall|i: int, j: int| 0 <= i < j < keys.len() implies keys[i] != keys[j] by {
            assert(v[i].start_ts_ms < v[j].start_ts_ms);
        }
    }
    keys.unique_seq_to_set();
    assert(keys.to_set().subset_of(m.dom())) by {
        assert forall|k: u64| keys.to_set().contains(k) implies m.dom().contains(k) by {
            let i = choose|i: int| 0 <= i < keys.len() && keys[i] == k;
            assert(m.dom().contains(v[i].start_ts_ms));
        }
    }
    vstd::set_lib::lemma_subset_equality(keys.to_set(), m.dom());
    assert(keys.to_set().contains(day));
    let p = choose|i: int| 0 <= i < keys.len() && keys[i] == day;
    assert(m[v[p].start_ts_ms] == v[p]);
    p
}

/// The days without the last hour: its day is as it was, or is not there. The result
/// is the place of its day.
pub(crate) proof fn lemma_last_hour(
    hours: Seq<AggregatedBucket>,
    days: Seq<(u64, u64)>,
    v: Seq<AggregatedBucket>,
) -> (p: int)
    requires
        hours.len() == days.len(),
        hours.len() > 0,
        lists_days(v, day_map(hours, days)),
    ensures
        0 <= p < v.len(),
        ({
            let m = day_map(hours.drop_last(), days.drop_last());
            let (day, end) = days.last();
            if m.dom().contains(day) {
                &&& lists_days(v.update(p, m[day]), m)
                &&& v[p] == day_merged(m[day], hours.last())
            } else {
                &&& lists_days(v.remove(p), m)
                &&& v[p] == day_merged(empty_bucket(day, end), hours.last())
            }
        }),
{
    let m = day_map(hours.drop_last(), days.drop_last());
    let whole = day_map(hours, days);
    let day = days.last().0;
    lemma_days_finite(hours.drop_last(), days.drop_last());
    lemma_days_finite(hours, days);
    let p = lemma_day_listed(v, whole, day);
    if m.dom().contains(day) {
        let u = v.update(p, m[day]);
        law_day_holds_its_hours(hours.drop_last(), days.drop_last(), day);
        assert(whole.dom() =~= m.dom());
        assert forall|i: int| 0 <= i < u.len() implies m.dom().contains(
            (#[trigger] u[i]).start_ts_ms,
        ) && m[u[i].start_ts_ms] == u[i] by {
            if i != p {
                assert(u[i] == v[i]);
                assert(v[i].start_ts_ms != day);
            }
        }
        assert forall|i: int, j: int| 0 <= i < j < u.len() implies (#[trigger] u[i]).start_ts_ms < (
        #[trigger] u[j]).start_ts_ms by {
            assert(v[i].start_ts_ms < v[j].start_ts_ms);
        }
    } else {
        let u = v.remove(p);
        assert(whole.dom() =~= m.dom().insert(day));
        assert forall|i: int| 0 <= i < u.len() implies m.dom().contains(
            (#[trigger] u[i]).start_ts_ms,
        ) && m[u[i].start_ts_ms] == u[i] by {
            let j = if i < p {
                i
            } else {
                i + 1
            };
            assert(u[i] == v[j]);
            assert(v[j].start_ts_ms != day);
        }
        assert forall|i: int, j: int| 0 <= i < j < u.len() implies (#[trigger] u[i]).start_ts_ms < (
        #[trigger] u[j]).start_ts_ms by {
            let a = if i < p {
                i
            } else {
                i + 1
            };
            let b = if j < p {
                j
            } else {
                j + 1
            };
            assert(v[a].start_ts_ms < v[b].start_ts_ms);
        }
    }
    p
}

proof fn lemma_days_keep_total(
    hours: Seq<AggregatedBucket>,
    days: Seq<(u64, u64)>,
    v: Seq<AggregatedBucket>,
    a: Amount,
)
    requires
        hours.len() == days.len(),
        lists_days(v, day_map(hours, days)),
        total(hours, a) <= u64::MAX,
    ensures
        total(v, a) == total(hours, a),
    decreases hours.len(),
{
    if hours.len() > 0 {
        let front = hours.drop_last();
        let m = day_map(front, days.drop_last());
        let day = days.last().0;
        let p = lemma_last_hour(hours, days, v);
        lemma_total_remove(v, p, a);
        lemma_total_counts(front, a);
        if m.dom().contains(day) {
            let u = v.update(p, m[day]);
            lemma_days_keep_total(front, days.drop_last(), u, a);
            lemma_total_remove(u, p, a);
            assert(u.remove(p) =~= v.remove(p));
        } else {
            lemma_days_keep_total(front, days.drop_last(), v.remove(p), a);
        }
    }
}

proof fn lemma_days_keep_greatest(
    hours: Seq<AggregatedBucket>,
    days: Seq<(u64, u64)>,
    v: Seq<AggregatedBucket>,
    k: Peak,
)
    requires
        hours.len() == days.len(),
        lists_days(v, day_map(hours, days)),
    ensures
        greatest(v, k) == greatest(hours, k),
    decreases hours.len(),
{
    if hours.len() > 0 {
        let front = hours.drop_last();
        let m = day_map(front, days.drop_last());
        let day = days.last().0;
        let p = lemma_last_hour(hours, days, v);
        lemma_greatest_remove(v, p, k);
        if m.dom().contains(day) {
            let u = v.update(p, m[day]);
            lemma_days_keep_greatest(front, days.drop_last(), u, k);
            lemma_greatest_remove(u, p, k);
            assert(u.remove(p) =~= v.remove(p));
        } else {
            lemma_days_keep_greatest(front, days.drop_last(), v.remove(p), k);
        }
    }
}

/// The same hours told by the hour and by the day tell the same traffic: every sum is
/// the same where a counter can hold it, every greatest rate is the same, and there are
/// days where there are hours. The days come in their order, each once.
pub proof fn law_days_tell_their_hours(
    hours: Seq<AggregatedBucket>,
    hs: Seq<AggregatedBucket>,
    ds: Seq<AggregatedBucket>,
)
    requires
        tells(hours, AggregateBucket::Hourly, hs),
        tells(hours, AggregateBucket::Daily, ds),
    ensures
        forall|a: Amount| total(hs, a) <= u64::MAX ==> #[trigger] total(ds, a) == total(hs, a),
        forall|k: Peak| #[trigger] greatest(ds, k) == greatest(hs, k),
        forall|i: int, j: int|
            0 <= i < j < ds.len() ==> (#[trigger] ds[i]).start_ts_ms < (
            #[trigger] ds[j]).start_ts_ms,
        ds.len() == 0 <==> hs.len() == 0,
{
    let (days, by_day) = choose|days: Seq<(u64, u64)>, by_day: Seq<AggregatedBucket>|
        may_be_days(hours, days) && #[trigger] lists_days(by_day, day_map(hours, days)) && ds
            == all_finalized(by_day);
    assert forall|a: Amount| total(hs, a) <= u64::MAX implies #[trigger] total(ds, a) == total(
        hs,
        a,
    ) by {
        lemma_total_counts(hours, a);
        lemma_total_counts(by_day, a);
        lemma_days_keep_total(hours, days, by_day, a);
    }
    assert forall|k: Peak| #[trigger] greatest(ds, k) == greatest(hs, k) by {
        lemma_greatest_finalized(hours, k);
        lemma_greatest_finalized(by_day, k);
        lemma_days_keep_greatest(hours, days, by_day, k);
    }
    if hours.len() > 0 {
        let p = lemma_last_hour(hours, days, by_day);
    }
    assert forall|i: int, j: int| 0 <= i < j < ds.len() implies (#[trigger] ds[i]).start_ts_ms < (
    #[trigger] ds[j]).start_ts_ms by {
        assert(by_day[i].start_ts_ms < by_day[j].start_ts_ms);
    }
}

} // verus!
