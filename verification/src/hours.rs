//! What the hours of a series hold, told by the samples that went into them.
use crate::bucket::{filled, zero_quad, AggregatedBucket, CounterQuad};
use crate::history::{
    bytes_of, devices_sampled, hourly_of, iface_totals_now, ifaces_sampled, in_range, with_sample,
    SeriesModel,
};
use crate::series::series_at;
use crate::snapshot::{DeviceListItem, InterfaceOverviewItem};
use crate::sort::{arranged, law_arranged_is_ordered, Ranked};
use vstd::prelude::*;

verus! {

/// One of the four ways that traffic goes: up or down, in one of the two versions.
#[derive(Clone, Copy, Debug, PartialEq, Eq, Structural)]
pub enum Lane {
    UpV4,
    DownV4,
    UpV6,
    DownV6,
}

/// The bytes of a sample.
pub open spec fn sample_bytes(b: CounterQuad, lane: Lane) -> u64 {
    match lane {
        Lane::UpV4 => b.up_v4_bytes,
        Lane::DownV4 => b.down_v4_bytes,
        Lane::UpV6 => b.up_v6_bytes,
        Lane::DownV6 => b.down_v6_bytes,
    }
}

/// The rate of a sample.
pub open spec fn sample_rate(b: CounterQuad, lane: Lane) -> u64 {
    match lane {
        Lane::UpV4 => b.up_v4_bps,
        Lane::DownV4 => b.down_v4_bps,
        Lane::UpV6 => b.up_v6_bps,
        Lane::DownV6 => b.down_v6_bps,
    }
}

/// The bytes of a bucket.
pub open spec fn hour_bytes(b: AggregatedBucket, lane: Lane) -> u64 {
    match lane {
        Lane::UpV4 => b.up_v4_bytes,
        Lane::DownV4 => b.down_v4_bytes,
        Lane::UpV6 => b.up_v6_bytes,
        Lane::DownV6 => b.down_v6_bytes,
    }
}

/// The sum of the rates of a bucket.
pub open spec fn hour_sum(b: AggregatedBucket, lane: Lane) -> u64 {
    match lane {
        Lane::UpV4 => b.up_v4_bps_sum,
        Lane::DownV4 => b.down_v4_bps_sum,
        Lane::UpV6 => b.up_v6_bps_sum,
        Lane::DownV6 => b.down_v6_bps_sum,
    }
}

/// The greatest rate of a bucket.
pub open spec fn hour_max(b: AggregatedBucket, lane: Lane) -> u64 {
    match lane {
        Lane::UpV4 => b.up_v4_bps_max,
        Lane::DownV4 => b.down_v4_bps_max,
        Lane::UpV6 => b.up_v6_bps_max,
        Lane::DownV6 => b.down_v6_bps_max,
    }
}

/// The least rate of a bucket.
pub open spec fn hour_min(b: AggregatedBucket, lane: Lane) -> u64 {
    match lane {
        Lane::UpV4 => b.up_v4_bps_min,
        Lane::DownV4 => b.down_v4_bps_min,
        Lane::UpV6 => b.up_v6_bps_min,
        Lane::DownV6 => b.down_v6_bps_min,
    }
}

/// The average rate of a bucket.
pub open spec fn hour_avg(b: AggregatedBucket, lane: Lane) -> u64 {
    match lane {
        Lane::UpV4 => b.up_v4_bps_avg,
        Lane::DownV4 => b.down_v4_bps_avg,
        Lane::UpV6 => b.up_v6_bps_avg,
        Lane::DownV6 => b.down_v6_bps_avg,
    }
}

/// The rate that 95 of 100 samples of a bucket do not exceed.
pub open spec fn hour_p95(b: AggregatedBucket, lane: Lane) -> u64 {
    match lane {
        Lane::UpV4 => b.up_v4_bps_p95,
        Lane::DownV4 => b.down_v4_bps_p95,
        Lane::UpV6 => b.up_v6_bps_p95,
        Lane::DownV6 => b.down_v6_bps_p95,
    }
}

/// A number up to the largest that a counter holds.
pub open spec fn capped(n: int) -> int {
    if n > u64::MAX {
        u64::MAX as int
    } else {
        n
    }
}

/// The bytes of samples added up.
pub open spec fn bytes_in(ms: Seq<CounterQuad>, lane: Lane) -> int
    decreases ms.len(),
{
    if ms.len() == 0 {
        0
    } else {
        bytes_in(ms.drop_last(), lane) + sample_bytes(ms.last(), lane)
    }
}

/// The rates of samples added up.
pub open spec fn rates_in(ms: Seq<CounterQuad>, lane: Lane) -> int
    decreases ms.len(),
{
    if ms.len() == 0 {
        0
    } else {
        rates_in(ms.drop_last(), lane) + sample_rate(ms.last(), lane)
    }
}

/// A series after samples of one hour, one after the other.
pub open spec fn fed<KV>(
    s: SeriesModel<KV>,
    k: KV,
    start: u64,
    end: u64,
    ms: Seq<CounterQuad>,
    cap: nat,
) -> SeriesModel<KV>
    decreases ms.len(),
{
    if ms.len() == 0 {
        s
    } else {
        with_sample(fed(s, k, start, end, ms.drop_last(), cap), k, start, end, ms.last(), cap)
    }
}

proof fn lemma_sums_count(ms: Seq<CounterQuad>, lane: Lane)
    ensures
        bytes_in(ms, lane) >= 0,
        rates_in(ms, lane) >= 0,
    decreases ms.len(),
{
    if ms.len() > 0 {
        lemma_sums_count(ms.drop_last(), lane);
    }
}

/// The hour of a series holds the samples that were taken in it: their bytes and their
/// rates added up, how many they were, and the greatest and the least of their rates. The
/// hour before it, where there was one, is the last of the complete ones. No other series
/// changes.
pub proof fn law_hour_holds_its_samples<KV>(
    s: SeriesModel<KV>,
    k: KV,
    start: u64,
    end: u64,
    ms: Seq<CounterQuad>,
    cap: nat,
    lane: Lane,
    other: KV,
)
    requires
        !s.current.dom().contains(k) || s.current[k].start_ts_ms != start,
        0 < ms.len() < u64::MAX,
        cap > 0,
        other != k,
    ensures
        ({
            let r = fed(s, k, start, end, ms, cap);
            let b = r.current[k];
            &&& r.current.dom().contains(k)
            &&& b.start_ts_ms == start
            &&& b.end_ts_ms == end
            &&& b.sample_count == ms.len()
            &&& hour_bytes(b, lane) == capped(bytes_in(ms, lane))
            &&& hour_sum(b, lane) == capped(rates_in(ms, lane))
            &&& forall|i: int|
                0 <= i < ms.len() ==> hour_min(b, lane) <= sample_rate(#[trigger] ms[i], lane)
                    <= hour_max(b, lane)
            &&& exists|i: int|
                0 <= i < ms.len() && sample_rate(#[trigger] ms[i], lane) == hour_max(b, lane)
            &&& exists|i: int|
                0 <= i < ms.len() && sample_rate(#[trigger] ms[i], lane) == hour_min(b, lane)
            &&& r.current.dom().contains(other) == s.current.dom().contains(other)
            &&& r.current[other] == s.current[other]
            &&& if s.current.dom().contains(k) {
                &&& r.completed.dom().contains(k)
                &&& r.completed[k].last() == s.current[k]
                &&& r.completed[k].len() == if series_at(s.completed, k).len() < cap {
                    series_at(s.completed, k).len() + 1
                } else {
                    cap
                }
            } else {
                r.completed == s.completed
            }
        }),
    decreases ms.len(),
{
    let front = ms.drop_last();
    let m = ms.last();
    let r = fed(s, k, start, end, ms, cap);
    lemma_sums_count(front, lane);
    assert(ms[ms.len() - 1] == m);
    if front.len() == 0 {
        assert(fed(s, k, start, end, front, cap) == s);
        assert(bytes_in(front, lane) == 0 && rates_in(front, lane) == 0);
        assert(sample_rate(ms[0], lane) == hour_max(r.current[k], lane));
        assert(sample_rate(ms[0], lane) == hour_min(r.current[k], lane));
    } else {
        law_hour_holds_its_samples(s, k, start, end, front, cap, lane, other);
        let p = fed(s, k, start, end, front, cap);
        let a = choose|i: int|
            0 <= i < front.len() && sample_rate(#[trigger] front[i], lane) == hour_max(
                p.current[k],
                lane,
            );
        let z = choose|i: int|
            0 <= i < front.len() && sample_rate(#[trigger] front[i], lane) == hour_min(
                p.current[k],
                lane,
            );
        assert(ms[a] == front[a] && ms[z] == front[z]);
        assert forall|i: int| 0 <= i < ms.len() implies hour_min(r.current[k], lane) <= sample_rate(
            #[trigger] ms[i],
            lane,
        ) <= hour_max(r.current[k], lane) by {
            if i < front.len() {
                assert(front[i] == ms[i]);
            }
        }
        let n = ms.len() - 1;
        if sample_rate(m, lane) > hour_max(p.current[k], lane) {
            assert(sample_rate(ms[n], lane) == hour_max(r.current[k], lane));
        } else {
            assert(sample_rate(ms[a], lane) == hour_max(r.current[k], lane));
        }
        if sample_rate(m, lane) < hour_min(p.current[k], lane) {
            assert(sample_rate(ms[n], lane) == hour_min(r.current[k], lane));
        } else {
            assert(sample_rate(ms[z], lane) == hour_min(r.current[k], lane));
        }
    }
}

/// A bucket is reported with the average of its samples, rounded down, and with its
/// greatest rate as the one that 95 of 100 do not exceed; all else is as it was.
pub proof fn law_reported_bucket_is_averaged(b: AggregatedBucket, lane: Lane)
    ensures
        ({
            let r = b.finalized();
            &&& b.sample_count > 0 ==> hour_avg(r, lane) * b.sample_count <= hour_sum(b, lane) < (
            hour_avg(r, lane) + 1) * b.sample_count
            &&& b.sample_count == 0 ==> hour_avg(r, lane) == hour_avg(b, lane)
            &&& hour_p95(r, lane) == hour_max(b, lane)
            &&& hour_bytes(r, lane) == hour_bytes(b, lane)
            &&& hour_sum(r, lane) == hour_sum(b, lane)
            &&& hour_max(r, lane) == hour_max(b, lane)
            &&& hour_min(r, lane) == hour_min(b, lane)
            &&& r.sample_count == b.sample_count
            &&& r.start_ts_ms == b.start_ts_ms
            &&& r.end_ts_ms == b.end_ts_ms
        }),
{
    let n = b.sample_count as int;
    let x = hour_sum(b, lane) as int;
    if n > 0 {
        vstd::arithmetic::div_mod::lemma_fundamental_div_mod(x, n);
        vstd::arithmetic::div_mod::lemma_mod_bound(x, n);
        let q = x / n;
        assert(n * q == q * n) by (nonlinear_arith);
        assert((q + 1) * n == q * n + n) by (nonlinear_arith);
        assert(hour_avg(b.finalized(), lane) == q);
    }
}

proof fn lemma_in_range(s: Seq<AggregatedBucket>, start: u64, end: u64, b: AggregatedBucket)
    ensures
        in_range(s, start, end).contains(b) <==> s.contains(b) && b.start_ts_ms <= end
            && b.end_ts_ms >= start,
    decreases s.len(),
{
    let r = in_range(s, start, end);
    if s.len() > 0 {
        let t = s.drop_last();
        let q = in_range(t, start, end);
        let last = s.last();
        lemma_in_range(t, start, end, b);
        assert(s[s.len() - 1] == last);
        if t.contains(b) {
            let i = choose|i: int| 0 <= i < t.len() && t[i] == b;
            assert(s[i] == b);
        }
        if s.contains(b) {
            let i = choose|i: int| 0 <= i < s.len() && s[i] == b;
            if i < t.len() {
                assert(t[i] == b);
            }
        }
        if q.contains(b) {
            let i = choose|i: int| 0 <= i < q.len() && q[i] == b;
            assert(r[i] == b);
        }
        if last.start_ts_ms <= end && last.end_ts_ms >= start {
            assert(r[q.len() as int] == last);
        }
        if r.contains(b) {
            let i = choose|i: int| 0 <= i < r.len() && r[i] == b;
            if i < q.len() {
                assert(q[i] == b);
            }
        }
    }
}

/// The hours that are told of a series are those of its complete ones and its current one
/// that have a moment in common with the range that is asked for, both ends of it
/// included, and no others; they come in the order of their starts.
pub proof fn law_hours_of_a_range<KV>(
    s: SeriesModel<KV>,
    k: KV,
    start: u64,
    end: u64,
    b: AggregatedBucket,
)
    ensures
        ({
            let r = hourly_of(s, k, start, end);
            &&& r.contains(b) <==> ((s.completed.dom().contains(k) && s.completed[k].contains(b)) || (
            s.current.dom().contains(k) && s.current[k] == b)) && b.start_ts_ms <= end
                && b.end_ts_ms >= start
            &&& forall|i: int, j: int|
                0 <= i < j < r.len() ==> (#[trigger] r[i]).start_ts_ms <= (
                #[trigger] r[j]).start_ts_ms
        }),
{
    broadcast use vstd::seq_lib::group_to_multiset_ensures;

    let done = in_range(series_at(s.completed, k), start, end);
    let found = if s.current.dom().contains(k) && s.current[k].start_ts_ms <= end
        && s.current[k].end_ts_ms >= start {
        done.push(s.current[k])
    } else {
        done
    };
    let r = hourly_of(s, k, start, end);
    assert(r == arranged(found));
    law_arranged_is_ordered(found);
    assert(r.to_multiset() == found.to_multiset());
    lemma_in_range(series_at(s.completed, k), start, end, b);
    assert(r.contains(b) <==> r.to_multiset().contains(b));
    assert(found.contains(b) <==> found.to_multiset().contains(b));
    if done.contains(b) {
        let i = choose|i: int| 0 <= i < done.len() && done[i] == b;
        assert(found[i] == b);
    }
    if found.contains(b) {
        let i = choose|i: int| 0 <= i < found.len() && found[i] == b;
        if i < done.len() {
            assert(done[i] == b);
        }
    }
    if found.len() > done.len() {
        assert(found[done.len() as int] == s.current[k]);
    }
    assert forall|i: int, j: int| 0 <= i < j < r.len() implies (#[trigger] r[i]).start_ts_ms <= (
    #[trigger] r[j]).start_ts_ms by {
        assert(!r[j].precedes(r[i]));
    }
}

/// The bytes of buckets added up.
pub open spec fn bytes_of_all(s: Seq<AggregatedBucket>, lane: Lane) -> int
    decreases s.len(),
{
    if s.len() == 0 {
        0
    } else {
        bytes_of_all(s.drop_last(), lane) + hour_bytes(s.last(), lane)
    }
}

/// The bytes that are told of hours are those of each of them added up.
pub proof fn law_total_is_the_sum_of_hours(s: Seq<AggregatedBucket>, lane: Lane)
    ensures
        bytes_of_all(s, lane) >= 0,
        sample_bytes(bytes_of(s), lane) == capped(bytes_of_all(s, lane)),
    decreases s.len(),
{
    if s.len() > 0 {
        law_total_is_the_sum_of_hours(s.drop_last(), lane);
    }
}

/// The bytes that are told of an interface are those of its complete hours and of its
/// current one.
pub proof fn law_interface_total_has_all_hours(s: SeriesModel<u32>, k: u32, lane: Lane)
    ensures
        iface_totals_now(s).dom().contains(k) <==> s.completed.dom().contains(k)
            || s.current.dom().contains(k),
        iface_totals_now(s).dom().contains(k) ==> sample_bytes(iface_totals_now(s)[k], lane)
            == capped(
            bytes_of_all(
                if s.completed.dom().contains(k) {
                    s.completed[k]
                } else {
                    Seq::empty()
                },
                lane,
            ) + if s.current.dom().contains(k) {
                hour_bytes(s.current[k], lane) as int
            } else {
                0
            },
        ),
{
    if s.completed.dom().contains(k) {
        law_total_is_the_sum_of_hours(s.completed[k], lane);
    }
}

/// The lane of a version and a direction: what comes in from a device goes up.
pub open spec fn lane_of(ip_version: u8, direction: u8) -> Option<Lane> {
    match (ip_version, direction) {
        (4u8, 1u8) => Some(Lane::UpV4),
        (4u8, 2u8) => Some(Lane::DownV4),
        (6u8, 1u8) => Some(Lane::UpV6),
        (6u8, 2u8) => Some(Lane::DownV6),
        _ => None,
    }
}

/// Bytes and a rate are added in the lane of their version and direction, and in no other.
pub proof fn law_traffic_goes_into_its_lane(
    q: CounterQuad,
    ip_version: u8,
    direction: u8,
    bytes: u64,
    bps: u64,
    lane: Lane,
)
    ensures
        ({
            let r = filled(q, ip_version, direction, bytes, bps);
            if lane_of(ip_version, direction) == Some(lane) {
                &&& sample_bytes(r, lane) == capped(sample_bytes(q, lane) + bytes)
                &&& sample_rate(r, lane) == capped(sample_rate(q, lane) + bps)
            } else {
                &&& sample_bytes(r, lane) == sample_bytes(q, lane)
                &&& sample_rate(r, lane) == sample_rate(q, lane)
            }
        }),
{
}

/// What a bucket stands at before a sample of an hour: nothing where it is of another one.
pub open spec fn bytes_before<KV>(s: SeriesModel<KV>, k: KV, start: u64, lane: Lane) -> int {
    if s.current.dom().contains(k) && s.current[k].start_ts_ms == start {
        hour_bytes(s.current[k], lane) as int
    } else {
        0
    }
}

/// A snapshot adds the bytes of each of its interfaces to that interface's hour, and to no
/// other.
pub proof fn law_snapshot_feeds_its_interfaces(
    s: SeriesModel<u32>,
    rows: Seq<InterfaceOverviewItem>,
    start: u64,
    end: u64,
    cap: nat,
    lane: Lane,
    k: u32,
)
    requires
        forall|i: int, j: int|
            0 <= i < j < rows.len() ==> (#[trigger] rows[i]).ifindex != (
            #[trigger] rows[j]).ifindex,
    ensures
        ({
            let r = ifaces_sampled(s, rows, start, end, cap);
            &&& forall|i: int|
                0 <= i < rows.len() && (#[trigger] rows[i]).ifindex == k ==> r.current.dom().contains(
                    k,
                ) && r.current[k].start_ts_ms == start && hour_bytes(r.current[k], lane) == capped(
                    bytes_before(s, k, start, lane) + sample_bytes(rows[i].metrics, lane),
                )
            &&& (forall|i: int| 0 <= i < rows.len() ==> (#[trigger] rows[i]).ifindex != k)
                ==> r.current.dom().contains(k) == s.current.dom().contains(k) && r.current[k]
                == s.current[k]
        }),
    decreases rows.len(),
{
    if rows.len() > 0 {
        let front = rows.drop_last();
        let n = rows.len() - 1;
        assert forall|i: int, j: int| 0 <= i < j < front.len() implies (#[trigger] front[i]).ifindex
            != (#[trigger] front[j]).ifindex by {
            assert(rows[i].ifindex != rows[j].ifindex);
        }
        law_snapshot_feeds_its_interfaces(s, front, start, end, cap, lane, k);
        assert(rows[n] == rows.last());
        assert forall|i: int| 0 <= i < front.len() implies #[trigger] rows[i] == front[i] by {}
        if rows.last().ifindex == k {
            assert forall|i: int| 0 <= i < front.len() implies (#[trigger] front[i]).ifindex != k by {
                assert(rows[i].ifindex != rows[n].ifindex);
            }
        }
    }
}

/// A snapshot adds the bytes of each of its devices that is online or moved something to
/// that device's hour, and to no other.
pub proof fn law_snapshot_feeds_its_devices(
    s: SeriesModel<(u32, Seq<char>)>,
    rows: Seq<DeviceListItem>,
    start: u64,
    end: u64,
    cap: nat,
    lane: Lane,
    k: (u32, Seq<char>),
)
    requires
        forall|i: int, j: int|
            0 <= i < j < rows.len() ==> ((#[trigger] rows[i]).ifindex, rows[i].mac@) != ((
            #[trigger] rows[j]).ifindex, rows[j].mac@),
    ensures
        ({
            let r = devices_sampled(s, rows, start, end, cap);
            let kept = r.current.dom().contains(k) == s.current.dom().contains(k) && r.current[k]
                == s.current[k];
            &&& forall|i: int|
                0 <= i < rows.len() && (#[trigger] rows[i]).ifindex == k.0 && rows[i].mac@ == k.1
                    ==> if rows[i].online || sample_bytes(rows[i].metrics, lane) > 0 {
                    r.current.dom().contains(k) && r.current[k].start_ts_ms == start && hour_bytes(
                        r.current[k],
                        lane,
                    ) == capped(
                        bytes_before(s, k, start, lane) + sample_bytes(rows[i].metrics, lane),
                    )
                } else {
                    rows[i].metrics == zero_quad() ==> kept
                }
            &&& (forall|i: int|
                0 <= i < rows.len() ==> ((#[trigger] rows[i]).ifindex, rows[i].mac@) != k) ==> kept
        }),
    decreases rows.len(),
{
    if rows.len() > 0 {
        let front = rows.drop_last();
        let n = rows.len() - 1;
        assert forall|i: int, j: int| 0 <= i < j < front.len() implies ((
        #[trigger] front[i]).ifindex, front[i].mac@) != ((#[trigger] front[j]).ifindex, front[j].mac@) by {
            assert((rows[i].ifindex, rows[i].mac@) != (rows[j].ifindex, rows[j].mac@));
        }
        law_snapshot_feeds_its_devices(s, front, start, end, cap, lane, k);
        assert(rows[n] == rows.last());
        assert forall|i: int| 0 <= i < front.len() implies #[trigger] rows[i] == front[i] by {}
        if (rows.last().ifindex, rows.last().mac@) == k {
            assert forall|i: int| 0 <= i < front.len() implies ((#[trigger] front[i]).ifindex, front[i].mac@)
                != k by {
                assert((rows[i].ifindex, rows[i].mac@) != (rows[n].ifindex, rows[n].mac@));
            }
        }
    }
}

} // verus!
