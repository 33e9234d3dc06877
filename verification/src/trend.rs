//! What the recent samples of an interface or a device say.
use crate::bucket::{zero_quad, CounterQuad};
use crate::history::sampled_row;
use crate::hours::{capped, sample_bytes, sample_rate, Lane};
use crate::recent::{
    asked_points, devices_noted, ifaces_noted, lists_samples, merged_points, sample_of, samples_of,
    HistoryPoint, HistorySample,
};
use crate::series::{newest, series_at};
use crate::snapshot::{DeviceListItem, DeviceSeriesKey, InterfaceOverviewItem};
use crate::text::lowered;
use std::collections::VecDeque;
use vstd::prelude::*;

verus! {

/// The rate that a sample tells in a lane.
pub open spec fn told_rate(s: HistorySample, lane: Lane) -> u64 {
    match lane {
        Lane::UpV4 => s.up_v4_bps,
        Lane::DownV4 => s.down_v4_bps,
        Lane::UpV6 => s.up_v6_bps,
        Lane::DownV6 => s.down_v6_bps,
    }
}

/// The bytes that a sample tells in a lane.
pub open spec fn told_bytes(s: HistorySample, lane: Lane) -> u64 {
    match lane {
        Lane::UpV4 => s.up_v4_bytes,
        Lane::DownV4 => s.down_v4_bytes,
        Lane::UpV6 => s.up_v6_bytes,
        Lane::DownV6 => s.down_v6_bytes,
    }
}

/// The total that a sample tells in a lane.
pub open spec fn told_total(s: HistorySample, lane: Lane) -> u64 {
    match lane {
        Lane::UpV4 => s.up_v4_bytes_cumulative,
        Lane::DownV4 => s.down_v4_bytes_cumulative,
        Lane::UpV6 => s.up_v6_bytes_cumulative,
        Lane::DownV6 => s.down_v6_bytes_cumulative,
    }
}

/// The samples of an interface are told one by one, with what was measured in each lane.
pub proof fn law_samples_are_told(s: Seq<HistoryPoint>, i: int, lane: Lane)
    requires
        0 <= i < s.len(),
    ensures
        samples_of(s).len() == s.len(),
        samples_of(s)[i].ts_ms == s[i].ts_ms,
        told_rate(samples_of(s)[i], lane) == sample_rate(s[i].metrics, lane),
        told_bytes(samples_of(s)[i], lane) == sample_bytes(s[i].metrics, lane),
        told_total(samples_of(s)[i], lane) == sample_bytes(s[i].cumulative, lane),
{
}

/// A snapshot adds one sample to the series of each of its interfaces, of which the newest
/// are kept, and to no other series.
pub proof fn law_snapshot_is_noted_by_interface(
    m: Map<u32, Seq<HistoryPoint>>,
    rows: Seq<InterfaceOverviewItem>,
    ts_ms: u64,
    window: nat,
    k: u32,
)
    requires
        window >= 1,
        forall|i: int, j: int|
            0 <= i < j < rows.len() ==> (#[trigger] rows[i]).ifindex != (
            #[trigger] rows[j]).ifindex,
    ensures
        ({
            let after = series_at(ifaces_noted(m, rows, ts_ms, window), k);
            &&& forall|i: int|
                0 <= i < rows.len() && (#[trigger] rows[i]).ifindex == k ==> after == newest(
                    series_at(m, k).push(
                        HistoryPoint {
                            ts_ms,
                            metrics: rows[i].metrics,
                            cumulative: rows[i].cumulative,
                        },
                    ),
                    window,
                )
            &&& (forall|i: int| 0 <= i < rows.len() ==> (#[trigger] rows[i]).ifindex != k) ==> after
                == series_at(m, k)
        }),
    decreases rows.len(),
{
    if rows.len() > 0 {
        let front = rows.drop_last();
        assert forall|i: int, j: int| 0 <= i < j < front.len() implies (
        #[trigger] front[i]).ifindex != (#[trigger] front[j]).ifindex by {
            assert(front[i] == rows[i] && front[j] == rows[j]);
        }
        law_snapshot_is_noted_by_interface(m, front, ts_ms, window, k);
        let n = rows.len() - 1;
        assert forall|i: int| 0 <= i < front.len() && rows[n].ifindex == k implies (
        #[trigger] front[i]).ifindex != k by {
            assert(front[i] == rows[i]);
            assert(rows[i].ifindex != rows[n].ifindex);
        }
        assert(rows.last() == rows[n]);
        assert forall|i: int| 0 <= i < rows.len() && (#[trigger] rows[i]).ifindex == k implies series_at(
            ifaces_noted(m, rows, ts_ms, window),
            k,
        ) == newest(
            series_at(m, k).push(
                HistoryPoint { ts_ms, metrics: rows[i].metrics, cumulative: rows[i].cumulative },
            ),
            window,
        ) by {
            if i < n {
                assert(front[i] == rows[i]);
                assert(rows[i].ifindex != rows[n].ifindex);
            }
        }
        if forall|i: int| 0 <= i < rows.len() ==> (#[trigger] rows[i]).ifindex != k {
            assert(rows[n].ifindex != k);
            assert forall|i: int| 0 <= i < front.len() implies (#[trigger] front[i]).ifindex
                != k by {
                assert(front[i] == rows[i]);
            }
        }
    }
}

/// A snapshot adds one sample to the series of each device that is online or had traffic, and
/// to no other series.
pub proof fn law_snapshot_is_noted_by_device(
    m: Map<(u32, Seq<char>), Seq<HistoryPoint>>,
    rows: Seq<DeviceListItem>,
    ts_ms: u64,
    window: nat,
    k: (u32, Seq<char>),
)
    requires
        window >= 1,
        forall|i: int, j: int|
            0 <= i < j < rows.len() ==> ((#[trigger] rows[i]).ifindex, rows[i].mac@) != ((
            #[trigger] rows[j]).ifindex, rows[j].mac@),
    ensures
        ({
            let after = series_at(devices_noted(m, rows, ts_ms, window), k);
            &&& forall|i: int|
                0 <= i < rows.len() && ((#[trigger] rows[i]).ifindex, rows[i].mac@) == k ==> after
                    == (if rows[i].online || moves(rows[i]) {
                    newest(
                        series_at(m, k).push(
                            HistoryPoint {
                                ts_ms,
                                metrics: rows[i].metrics,
                                cumulative: rows[i].cumulative,
                            },
                        ),
                        window,
                    )
                } else {
                    series_at(m, k)
                })
            &&& (forall|i: int|
                0 <= i < rows.len() ==> ((#[trigger] rows[i]).ifindex, rows[i].mac@) != k) ==> after
                == series_at(m, k)
        }),
    decreases rows.len(),
{
    if rows.len() > 0 {
        let front = rows.drop_last();
        assert forall|i: int, j: int| 0 <= i < j < front.len() implies ((
        #[trigger] front[i]).ifindex, front[i].mac@) != ((#[trigger] front[j]).ifindex, front[j].mac@) by {
            assert(front[i] == rows[i] && front[j] == rows[j]);
        }
        law_snapshot_is_noted_by_device(m, front, ts_ms, window, k);
        let n = rows.len() - 1;
        assert(rows.last() == rows[n]);
        lemma_moves(rows[n]);
        assert forall|i: int| 0 <= i < front.len() && (rows[n].ifindex, rows[n].mac@) == k implies ((
        #[trigger] front[i]).ifindex, front[i].mac@) != k by {
            assert(front[i] == rows[i]);
            assert((rows[i].ifindex, rows[i].mac@) != (rows[n].ifindex, rows[n].mac@));
        }
        assert forall|i: int|
            0 <= i < rows.len() && ((#[trigger] rows[i]).ifindex, rows[i].mac@) == k implies series_at(
            devices_noted(m, rows, ts_ms, window),
            k,
        ) == (if rows[i].online || moves(rows[i]) {
            newest(
                series_at(m, k).push(
                    HistoryPoint { ts_ms, metrics: rows[i].metrics, cumulative: rows[i].cumulative },
                ),
                window,
            )
        } else {
            series_at(m, k)
        }) by {
            if i < n {
                assert(front[i] == rows[i]);
                assert((rows[i].ifindex, rows[i].mac@) != (rows[n].ifindex, rows[n].mac@));
            }
        }
        if forall|i: int| 0 <= i < rows.len() ==> ((#[trigger] rows[i]).ifindex, rows[i].mac@) != k {
            assert((rows[n].ifindex, rows[n].mac@) != k);
            assert forall|i: int| 0 <= i < front.len() implies ((#[trigger] front[i]).ifindex, front[i].mac@)
                != k by {
                assert(front[i] == rows[i]);
            }
        }
    }
}

/// Whether traffic has bytes or a rate in a lane.
pub open spec fn moves_in(q: CounterQuad, lane: Lane) -> bool {
    sample_bytes(q, lane) > 0 || sample_rate(q, lane) > 0
}

/// Whether a device has bytes or a rate in some lane.
pub open spec fn moves(r: DeviceListItem) -> bool {
    exists|lane: Lane| moves_in(r.metrics, lane)
}

proof fn lemma_moves(r: DeviceListItem)
    ensures
        sampled_row(r) == (r.online || moves(r)),
{
    let q = r.metrics;
    if !moves(r) {
        assert(!moves_in(q, Lane::UpV4));
        assert(!moves_in(q, Lane::DownV4));
        assert(!moves_in(q, Lane::UpV6));
        assert(!moves_in(q, Lane::DownV6));
        assert(q == zero_quad());
    }
}

/// What is added up over samples.
pub enum Figure {
    Rate,
    Bytes,
    Total,
}

/// A figure of a point in a lane.
pub open spec fn figure_of(p: HistoryPoint, f: Figure, lane: Lane) -> u64 {
    match f {
        Figure::Rate => sample_rate(p.metrics, lane),
        Figure::Bytes => sample_bytes(p.metrics, lane),
        Figure::Total => sample_bytes(p.cumulative, lane),
    }
}

/// A figure that a sample tells in a lane.
pub open spec fn told_figure(s: HistorySample, f: Figure, lane: Lane) -> u64 {
    match f {
        Figure::Rate => told_rate(s, lane),
        Figure::Bytes => told_bytes(s, lane),
        Figure::Total => told_total(s, lane),
    }
}

/// The sum of a figure over the points of a moment.
pub open spec fn sum_of_moment(s: Seq<HistoryPoint>, ts: u64, f: Figure, lane: Lane) -> int
    decreases s.len(),
{
    if s.len() == 0 {
        0
    } else {
        sum_of_moment(s.drop_last(), ts, f, lane) + (if s.last().ts_ms == ts {
            figure_of(s.last(), f, lane) as int
        } else {
            0
        })
    }
}

/// The sum of a figure over the points of a moment in all series of a device: on one interface
/// or on any, whatever the case of the letters in its address.
pub open spec fn sum_of_device(
    entries: Seq<(DeviceSeriesKey, VecDeque<HistoryPoint>)>,
    ifindex: Option<u32>,
    mac: Seq<char>,
    ts: u64,
    f: Figure,
    lane: Lane,
) -> int
    decreases entries.len(),
{
    if entries.len() == 0 {
        0
    } else {
        let (k, q) = entries.last();
        sum_of_device(entries.drop_last(), ifindex, mac, ts, f, lane) + (if (ifindex is None
            || ifindex == Some(k.ifindex)) && lowered(k.mac@) == lowered(mac) {
            sum_of_moment(q@, ts, f, lane)
        } else {
            0
        })
    }
}

proof fn lemma_moment_join(a: Seq<HistoryPoint>, b: Seq<HistoryPoint>, ts: u64, f: Figure, lane: Lane)
    ensures
        sum_of_moment(a + b, ts, f, lane) == sum_of_moment(a, ts, f, lane) + sum_of_moment(
            b,
            ts,
            f,
            lane,
        ),
    decreases b.len(),
{
    if b.len() == 0 {
        assert(a + b =~= a);
    } else {
        lemma_moment_join(a, b.drop_last(), ts, f, lane);
        assert((a + b).drop_last() =~= a + b.drop_last());
        assert((a + b).last() == b.last());
    }
}

proof fn lemma_device_sum(
    entries: Seq<(DeviceSeriesKey, VecDeque<HistoryPoint>)>,
    ifindex: Option<u32>,
    mac: Seq<char>,
    ts: u64,
    f: Figure,
    lane: Lane,
)
    ensures
        sum_of_moment(asked_points(entries, ifindex, mac), ts, f, lane) == sum_of_device(
            entries,
            ifindex,
            mac,
            ts,
            f,
            lane,
        ),
    decreases entries.len(),
{
    if entries.len() > 0 {
        let front = entries.drop_last();
        lemma_device_sum(front, ifindex, mac, ts, f, lane);
        lemma_moment_join(asked_points(front, ifindex, mac), entries.last().1@, ts, f, lane);
    }
}

proof fn lemma_merged(s: Seq<HistoryPoint>, ts: u64, f: Figure, lane: Lane)
    ensures
        sum_of_moment(s, ts, f, lane) >= 0,
        merged_points(s).dom().contains(ts) <==> exists|i: int|
            0 <= i < s.len() && (#[trigger] s[i]).ts_ms == ts,
        merged_points(s).dom().contains(ts) ==> told_figure(
            sample_of(ts, merged_points(s)[ts].0, merged_points(s)[ts].1),
            f,
            lane,
        ) == capped(sum_of_moment(s, ts, f, lane)),
        !merged_points(s).dom().contains(ts) ==> sum_of_moment(s, ts, f, lane) == 0,
    decreases s.len(),
{
    if s.len() > 0 {
        let front = s.drop_last();
        lemma_merged(front, ts, f, lane);
        assert(s[s.len() - 1] == s.last());
        if merged_points(front).dom().contains(ts) {
            let i = choose|i: int| 0 <= i < front.len() && (#[trigger] front[i]).ts_ms == ts;
            assert(s[i] == front[i]);
        }
        if exists|i: int| 0 <= i < s.len() && (#[trigger] s[i]).ts_ms == ts {
            let i = choose|i: int| 0 <= i < s.len() && (#[trigger] s[i]).ts_ms == ts;
            if i < front.len() {
                assert(front[i] == s[i]);
            }
        }
    }
}

/// The samples of a device add up, for each moment and in each lane, what all its series tell
/// of that moment. They stand in the order of the moments.
pub proof fn law_device_samples_add_up(
    entries: Seq<(DeviceSeriesKey, VecDeque<HistoryPoint>)>,
    ifindex: Option<u32>,
    mac: Seq<char>,
    v: Seq<HistorySample>,
    i: int,
    j: int,
    f: Figure,
    lane: Lane,
)
    requires
        lists_samples(v, merged_points(asked_points(entries, ifindex, mac))),
        0 <= i < j < v.len(),
    ensures
        v[i].ts_ms < v[j].ts_ms,
        told_figure(v[i], f, lane) == capped(
            sum_of_device(entries, ifindex, mac, v[i].ts_ms, f, lane),
        ),
        told_figure(v[j], f, lane) == capped(
            sum_of_device(entries, ifindex, mac, v[j].ts_ms, f, lane),
        ),
{
    let s = asked_points(entries, ifindex, mac);
    lemma_device_sum(entries, ifindex, mac, v[i].ts_ms, f, lane);
    lemma_device_sum(entries, ifindex, mac, v[j].ts_ms, f, lane);
    lemma_merged(s, v[i].ts_ms, f, lane);
    lemma_merged(s, v[j].ts_ms, f, lane);
}

} // verus!
