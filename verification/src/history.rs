//! Histograms of traffic by the hour and by the day.
use crate::bucket::{
    add_bucket_bytes, empty_bucket, with_bucket_bytes, zero_quad, AggregatedBucket, CounterQuad,
};
use crate::clock::{daily_bucket_local, hourly_bucket_local, in_calendar, is_bucket_of};
use crate::counting::sat_add;
use crate::mac::{from_str, parsed_mac};
use crate::series::{extend_series, extended, series_at, series_of};
use crate::snapshot::{CompletedAggregate, DeviceListItem, DeviceSeriesKey, InterfaceOverviewItem, SnapshotData};
use crate::sort::{
    arrange, arranged, law_arranged_is_ordered, lemma_same_distinct, lemma_same_members, Ranked,
};
use crate::table::{Key, Table};
use crate::text::{
    eq_ignore_ascii_case, less, lemma_text_less_total, lemma_text_less_transitive, lowered,
    text_less, trim, trimmed,
};
use std::collections::VecDeque;
use vstd::prelude::*;

verus! {

/// How many hours a histogram keeps unless it is told otherwise: a leap year.
pub const HISTOGRAM_MAX_HOURS: usize = 8784;

#[derive(Clone, Copy, Debug, PartialEq, Eq, Structural)]
pub enum AggregateBucket {
    Hourly,
    Daily,
}

#[derive(Debug)]
pub struct CurrentHourIfaceState {
    pub ifindex: u32,
    pub bucket: AggregatedBucket,
}

#[derive(Debug)]
pub struct CurrentHourDeviceState {
    pub ifindex: u32,
    pub mac: String,
    pub bucket: AggregatedBucket,
}

#[derive(Debug)]
pub struct CurrentHourState {
    pub iface: Vec<CurrentHourIfaceState>,
    pub device: Vec<CurrentHourDeviceState>,
}

pub open spec fn lesser(a: u64, b: u64) -> u64 {
    if b < a {
        b
    } else {
        a
    }
}

pub open spec fn greater(a: u64, b: u64) -> u64 {
    if b > a {
        b
    } else {
        a
    }
}

/// A bucket with one more sample. The first sample sets the least rates.
pub open spec fn sampled(b: AggregatedBucket, m: CounterQuad) -> AggregatedBucket {
    let first = b.sample_count == 0;
    AggregatedBucket {
        up_v4_bytes: sat_add(b.up_v4_bytes, m.up_v4_bytes),
        down_v4_bytes: sat_add(b.down_v4_bytes, m.down_v4_bytes),
        up_v6_bytes: sat_add(b.up_v6_bytes, m.up_v6_bytes),
        down_v6_bytes: sat_add(b.down_v6_bytes, m.down_v6_bytes),
        up_v4_bps_min: if first {
            m.up_v4_bps
        } else {
            lesser(b.up_v4_bps_min, m.up_v4_bps)
        },
        down_v4_bps_min: if first {
            m.down_v4_bps
        } else {
            lesser(b.down_v4_bps_min, m.down_v4_bps)
        },
        up_v6_bps_min: if first {
            m.up_v6_bps
        } else {
            lesser(b.up_v6_bps_min, m.up_v6_bps)
        },
        down_v6_bps_min: if first {
            m.down_v6_bps
        } else {
            lesser(b.down_v6_bps_min, m.down_v6_bps)
        },
        up_v4_bps_max: greater(b.up_v4_bps_max, m.up_v4_bps),
        down_v4_bps_max: greater(b.down_v4_bps_max, m.down_v4_bps),
        up_v6_bps_max: greater(b.up_v6_bps_max, m.up_v6_bps),
        down_v6_bps_max: greater(b.down_v6_bps_max, m.down_v6_bps),
        up_v4_bps_sum: sat_add(b.up_v4_bps_sum, m.up_v4_bps),
        down_v4_bps_sum: sat_add(b.down_v4_bps_sum, m.down_v4_bps),
        up_v6_bps_sum: sat_add(b.up_v6_bps_sum, m.up_v6_bps),
        down_v6_bps_sum: sat_add(b.down_v6_bps_sum, m.down_v6_bps),
        sample_count: b.sample_count.wrapping_add(1),
        ..b
    }
}

fn min_u64(a: u64, b: u64) -> (r: u64)
    ensures
        r == lesser(a, b),
{
    if b < a {
        b
    } else {
        a
    }
}

fn max_u64(a: u64, b: u64) -> (r: u64)
    ensures
        r == greater(a, b),
{
    if b > a {
        b
    } else {
        a
    }
}

fn take_sample(bucket: &AggregatedBucket, m: &CounterQuad) -> (r: AggregatedBucket)
    ensures
        r == sampled(*bucket, *m),
{
    let mut b = *bucket;
    b.up_v4_bytes = b.up_v4_bytes.saturating_add(m.up_v4_bytes);
    b.down_v4_bytes = b.down_v4_bytes.saturating_add(m.down_v4_bytes);
    b.up_v6_bytes = b.up_v6_bytes.saturating_add(m.up_v6_bytes);
    b.down_v6_bytes = b.down_v6_bytes.saturating_add(m.down_v6_bytes);
    if b.sample_count == 0 {
        b.up_v4_bps_min = m.up_v4_bps;
        b.down_v4_bps_min = m.down_v4_bps;
        b.up_v6_bps_min = m.up_v6_bps;
        b.down_v6_bps_min = m.down_v6_bps;
    } else {
        b.up_v4_bps_min = min_u64(b.up_v4_bps_min, m.up_v4_bps);
        b.down_v4_bps_min = min_u64(b.down_v4_bps_min, m.down_v4_bps);
        b.up_v6_bps_min = min_u64(b.up_v6_bps_min, m.up_v6_bps);
        b.down_v6_bps_min = min_u64(b.down_v6_bps_min, m.down_v6_bps);
    }
    b.up_v4_bps_max = max_u64(b.up_v4_bps_max, m.up_v4_bps);
    b.down_v4_bps_max = max_u64(b.down_v4_bps_max, m.down_v4_bps);
    b.up_v6_bps_max = max_u64(b.up_v6_bps_max, m.up_v6_bps);
    b.down_v6_bps_max = max_u64(b.down_v6_bps_max, m.down_v6_bps);
    b.up_v4_bps_sum = b.up_v4_bps_sum.saturating_add(m.up_v4_bps);
    b.down_v4_bps_sum = b.down_v4_bps_sum.saturating_add(m.down_v4_bps);
    b.up_v6_bps_sum = b.up_v6_bps_sum.saturating_add(m.up_v6_bps);
    b.down_v6_bps_sum = b.down_v6_bps_sum.saturating_add(m.down_v6_bps);
    b.sample_count = b.sample_count.wrapping_add(1);
    b
}

/// The buckets of one kind of series: the current hour's, and the complete ones
/// from the oldest on.
#[verifier::ext_equal]
#[verifier::reject_recursive_types(KV)]
pub struct SeriesModel<KV> {
    pub current: Map<KV, AggregatedBucket>,
    pub completed: Map<KV, Seq<AggregatedBucket>>,
}

/// The bucket that is complete once a sample of another hour comes.
pub open spec fn closed_by<KV>(s: SeriesModel<KV>, k: KV, start: u64) -> Option<AggregatedBucket> {
    if s.current.dom().contains(k) && s.current[k].start_ts_ms != start {
        Some(s.current[k])
    } else {
        None
    }
}

/// The series after a sample of an hour.
pub open spec fn with_sample<KV>(
    s: SeriesModel<KV>,
    k: KV,
    start: u64,
    end: u64,
    m: CounterQuad,
    cap: nat,
) -> SeriesModel<KV> {
    let base = if s.current.dom().contains(k) && s.current[k].start_ts_ms == start {
        s.current[k]
    } else {
        empty_bucket(start, end)
    };
    SeriesModel {
        current: s.current.insert(k, sampled(base, m)),
        completed: match closed_by(s, k, start) {
            Some(b) => extended(s.completed, k, b, cap),
            None => s.completed,
        },
    }
}

fn ingest_series<K: Key>(
    current: &mut Table<K, AggregatedBucket>,
    completed: &mut Table<K, VecDeque<AggregatedBucket>>,
    k: &K,
    start: u64,
    end: u64,
    m: &CounterQuad,
    cap: usize,
) -> (r: Option<AggregatedBucket>)
    requires
        old(current).wf(),
        old(completed).wf(),
    ensures
        final(current).wf(),
        final(completed).wf(),
        ({
            let before = SeriesModel {
                current: old(current)@,
                completed: series_of(old(completed)@),
            };
            let after = SeriesModel {
                current: final(current)@,
                completed: series_of(final(completed)@),
            };
            &&& after == with_sample(before, k@, start, end, *m, cap as nat)
            &&& r == match closed_by(before, k@, start) {
                Some(b) => Some(b.finalized()),
                None => None,
            }
        }),
{
    let fresh = AggregatedBucket { start_ts_ms: start, end_ts_ms: end, ..AggregatedBucket::default() };
    assert(fresh == empty_bucket(start, end));
    match current.find(k) {
        Some(i) => {
            let entry = current.entries[i].1;
            if entry.start_ts_ms != start {
                extend_series(completed, k.dup(), entry, cap);
                current.set_at(i, take_sample(&fresh, m));
                Some(entry.finalize())
            } else {
                current.set_at(i, take_sample(&entry, m));
                None
            }
        },
        None => {
            current.insert(k.dup(), take_sample(&fresh, m));
            None
        },
    }
}

/// Traffic by the hour, of interfaces and of devices.
#[derive(Debug)]
pub struct HistogramHistory {
    pub current_hour_iface: Table<u32, AggregatedBucket>,
    pub current_hour_device: Table<DeviceSeriesKey, AggregatedBucket>,
    pub completed_iface: Table<u32, VecDeque<AggregatedBucket>>,
    pub completed_device: Table<DeviceSeriesKey, VecDeque<AggregatedBucket>>,
    pub capacity_hours: usize,
}

/// A histogram over plain values.
#[verifier::ext_equal]
pub struct HistogramModel {
    pub iface: SeriesModel<u32>,
    pub device: SeriesModel<(u32, Seq<char>)>,
    pub capacity: nat,
}

impl View for HistogramHistory {
    type V = HistogramModel;

    open spec fn view(&self) -> HistogramModel {
        HistogramModel {
            iface: SeriesModel {
                current: self.current_hour_iface@,
                completed: series_of(self.completed_iface@),
            },
            device: SeriesModel {
                current: self.current_hour_device@,
                completed: series_of(self.completed_device@),
            },
            capacity: self.capacity_hours as nat,
        }
    }
}

/// The device rows of a snapshot that are sampled: those that are online or had
/// traffic.
pub open spec fn sampled_row(d: DeviceListItem) -> bool {
    d.online || d.metrics != zero_quad()
}

/// The series of interfaces after the rows of a snapshot.
pub open spec fn ifaces_sampled(
    s: SeriesModel<u32>,
    rows: Seq<InterfaceOverviewItem>,
    start: u64,
    end: u64,
    cap: nat,
) -> SeriesModel<u32>
    decreases rows.len(),
{
    if rows.len() == 0 {
        s
    } else {
        with_sample(
            ifaces_sampled(s, rows.drop_last(), start, end, cap),
            rows.last().ifindex,
            start,
            end,
            rows.last().metrics,
            cap,
        )
    }
}

/// The series of devices after the rows of a snapshot.
pub open spec fn devices_sampled(
    s: SeriesModel<(u32, Seq<char>)>,
    rows: Seq<DeviceListItem>,
    start: u64,
    end: u64,
    cap: nat,
) -> SeriesModel<(u32, Seq<char>)>
    decreases rows.len(),
{
    if rows.len() == 0 {
        s
    } else {
        let before = devices_sampled(s, rows.drop_last(), start, end, cap);
        let d = rows.last();
        if sampled_row(d) {
            with_sample(before, (d.ifindex, d.mac@), start, end, d.metrics, cap)
        } else {
            before
        }
    }
}

/// The histogram after a snapshot of an hour.
pub open spec fn snapshot_sampled(h: HistogramModel, s: SnapshotData, start: u64, end: u64) -> HistogramModel {
    HistogramModel {
        iface: ifaces_sampled(h.iface, s.interfaces@, start, end, h.capacity),
        device: devices_sampled(h.device, s.devices@, start, end, h.capacity),
        capacity: h.capacity,
    }
}

/// A complete bucket over plain values: interface name, address of a device, and
/// the bucket.
pub struct CompletedModel {
    pub iface: Seq<char>,
    pub mac: Option<Seq<char>>,
    pub bucket: AggregatedBucket,
}

impl View for CompletedAggregate {
    type V = CompletedModel;

    open spec fn view(&self) -> CompletedModel {
        match *self {
            CompletedAggregate::Iface { iface, bucket } => CompletedModel {
                iface: iface@,
                mac: None,
                bucket,
            },
            CompletedAggregate::Device { iface, mac, bucket } => CompletedModel {
                iface: iface@,
                mac: Some(mac@),
                bucket,
            },
        }
    }
}

/// Complete buckets over plain values.
pub open spec fn completed_views(v: Seq<CompletedAggregate>) -> Seq<CompletedModel> {
    Seq::new(v.len(), |i: int| v[i]@)
}

/// The interface buckets that the rows of a snapshot complete.
pub open spec fn ifaces_closed(
    s: SeriesModel<u32>,
    rows: Seq<InterfaceOverviewItem>,
    start: u64,
    end: u64,
    cap: nat,
) -> Seq<CompletedModel>
    decreases rows.len(),
{
    if rows.len() == 0 {
        Seq::empty()
    } else {
        let before = ifaces_sampled(s, rows.drop_last(), start, end, cap);
        let done = ifaces_closed(s, rows.drop_last(), start, end, cap);
        match closed_by(before, rows.last().ifindex, start) {
            Some(b) => done.push(
                CompletedModel { iface: rows.last().ifname@, mac: None, bucket: b.finalized() },
            ),
            None => done,
        }
    }
}

/// The device buckets that the rows of a snapshot complete.
pub open spec fn devices_closed(
    s: SeriesModel<(u32, Seq<char>)>,
    rows: Seq<DeviceListItem>,
    start: u64,
    end: u64,
    cap: nat,
) -> Seq<CompletedModel>
    decreases rows.len(),
{
    if rows.len() == 0 {
        Seq::empty()
    } else {
        let before = devices_sampled(s, rows.drop_last(), start, end, cap);
        let done = devices_closed(s, rows.drop_last(), start, end, cap);
        let d = rows.last();
        let found = closed_by(before, (d.ifindex, d.mac@), start);
        if sampled_row(d) && found is Some {
            done.push(
                CompletedModel {
                    iface: d.logical_iface@,
                    mac: Some(d.mac@),
                    bucket: found->0.finalized(),
                },
            )
        } else {
            done
        }
    }
}

impl HistogramHistory {
    pub open spec fn wf(self) -> bool {
        &&& self.current_hour_iface.wf()
        &&& self.current_hour_device.wf()
        &&& self.completed_iface.wf()
        &&& self.completed_device.wf()
    }

    /// An empty histogram that keeps so many hours of each series.
    pub fn with_capacity_hours(capacity_hours: usize) -> (r: Self)
        ensures
            r.wf(),
            r@ == (HistogramModel {
                iface: SeriesModel { current: Map::empty(), completed: Map::empty() },
                device: SeriesModel { current: Map::empty(), completed: Map::empty() },
                capacity: capacity_hours as nat,
            }),
    {
        let r = HistogramHistory {
            current_hour_iface: Table::new(),
            current_hour_device: Table::new(),
            completed_iface: Table::new(),
            completed_device: Table::new(),
            capacity_hours,
        };
        assert(r@.iface.completed =~= Map::empty());
        assert(r@.device.completed =~= Map::empty());
        r
    }

    /// An empty histogram that keeps a year.
    pub fn new() -> (r: Self)
        ensures
            r.wf(),
            r@ == (HistogramModel {
                iface: SeriesModel { current: Map::empty(), completed: Map::empty() },
                device: SeriesModel { current: Map::empty(), completed: Map::empty() },
                capacity: HISTOGRAM_MAX_HOURS as nat,
            }),
    {
        Self::with_capacity_hours(HISTOGRAM_MAX_HOURS)
    }

    /// Takes in a snapshot of a known hour, and gives the buckets that it completes.
    pub fn ingest_snapshot_at(&mut self, snapshot: &SnapshotData, start: u64, end: u64) -> (r: Vec<
        CompletedAggregate,
    >)
        requires
            old(self).wf(),
        ensures
            final(self).wf(),
            final(self)@ == snapshot_sampled(old(self)@, *snapshot, start, end),
            completed_views(r@) == ifaces_closed(
                old(self)@.iface,
                snapshot.interfaces@,
                start,
                end,
                old(self)@.capacity,
            ) + devices_closed(
                old(self)@.device,
                snapshot.devices@,
                start,
                end,
                old(self)@.capacity,
            ),
    {
        let ghost h = self@;
        let cap: usize = self.capacity_hours;
        let mut completed: Vec<CompletedAggregate> = Vec::new();
        let ghost rows = snapshot.interfaces@;
        let mut i: usize = 0;
        assert(rows.take(0) =~= Seq::empty());
        assert(completed_views(completed@) =~= Seq::empty());
        while i < snapshot.interfaces.len()
            invariant
                i <= snapshot.interfaces@.len(),
                rows == snapshot.interfaces@,
                self.wf(),
                cap == self.capacity_hours,
                h.capacity == cap,
                self@.iface == ifaces_sampled(h.iface, rows.take(i as int), start, end, h.capacity),
                self@.device == h.device,
                completed_views(completed@) == ifaces_closed(
                    h.iface,
                    rows.take(i as int),
                    start,
                    end,
                    h.capacity,
                ),
            decreases snapshot.interfaces@.len() - i,
        {
            let row = &snapshot.interfaces[i];
            assert(rows.take(i + 1).drop_last() =~= rows.take(i as int));
            let ghost before = completed_views(completed@);
            if let Some(bucket) = ingest_series(
                &mut self.current_hour_iface,
                &mut self.completed_iface,
                &row.ifindex,
                start,
                end,
                &row.metrics,
                cap,
            ) {
                let c = CompletedAggregate::Iface { iface: row.ifname.clone(), bucket };
                let ghost cv = c@;
                completed.push(c);
                assert(completed_views(completed@) =~= before.push(cv));
            }
            i += 1;
        }
        assert(rows.take(i as int) =~= rows);
        let ghost first = completed_views(completed@);
        let ghost devs = snapshot.devices@;
        let mut i: usize = 0;
        assert(devs.take(0) =~= Seq::empty());
        assert(first + Seq::<CompletedModel>::empty() =~= first);
        while i < snapshot.devices.len()
            invariant
                i <= snapshot.devices@.len(),
                devs == snapshot.devices@,
                self.wf(),
                cap == self.capacity_hours,
                h.capacity == cap,
                self@.iface == ifaces_sampled(h.iface, rows, start, end, h.capacity),
                self@.device == devices_sampled(
                    h.device,
                    devs.take(i as int),
                    start,
                    end,
                    h.capacity,
                ),
                completed_views(completed@) == first + devices_closed(
                    h.device,
                    devs.take(i as int),
                    start,
                    end,
                    h.capacity,
                ),
            decreases snapshot.devices@.len() - i,
        {
            let dev = &snapshot.devices[i];
            assert(devs.take(i + 1).drop_last() =~= devs.take(i as int));
            let ghost before = completed_views(completed@);
            let ghost closed = devices_closed(h.device, devs.take(i as int), start, end, h.capacity);
            if dev.online || !dev.metrics.is_empty() {
                let key = DeviceSeriesKey { ifindex: dev.ifindex, mac: dev.mac.clone() };
                if let Some(bucket) = ingest_series(
                    &mut self.current_hour_device,
                    &mut self.completed_device,
                    &key,
                    start,
                    end,
                    &dev.metrics,
                    cap,
                ) {
                    let c = CompletedAggregate::Device {
                        iface: dev.logical_iface.clone(),
                        mac: dev.mac.clone(),
                        bucket,
                    };
                    let ghost cv = c@;
                    completed.push(c);
                    assert(completed_views(completed@) =~= before.push(cv));
                    assert(before.push(cv) =~= first + closed.push(cv));
                }
            }
            i += 1;
        }
        assert(devs.take(i as int) =~= devs);
        completed
    }

    /// Takes in a snapshot of the local hour of its time, and gives the buckets
    /// that it completes. A snapshot of an hour that the calendar skips or repeats
    /// is left out.
    pub fn ingest_snapshot_collect_completed(&mut self, snapshot: &SnapshotData) -> (r: Option<
        Vec<CompletedAggregate>,
    >)
        requires
            old(self).wf(),
        ensures
            final(self).wf(),
            r is None ==> is_bucket_of(None, snapshot.timestamp_ms, true) && *final(self) == *old(
                self,
            ),
            r matches Some(done) ==> exists|start: u64, end: u64|
                #[trigger] is_bucket_of(Some((start, end)), snapshot.timestamp_ms, true)
                    && final(self)@ == snapshot_sampled(old(self)@, *snapshot, start, end)
                    && completed_views(done@) == ifaces_closed(
                    old(self)@.iface,
                    snapshot.interfaces@,
                    start,
                    end,
                    old(self)@.capacity,
                ) + devices_closed(
                    old(self)@.device,
                    snapshot.devices@,
                    start,
                    end,
                    old(self)@.capacity,
                ),
    {
        match hourly_bucket_local(snapshot.timestamp_ms) {
            Some((start, end)) => {
                assert(is_bucket_of(Some((start, end)), snapshot.timestamp_ms, true));
                Some(self.ingest_snapshot_at(snapshot, start, end))
            },
            None => None,
        }
    }

    /// Takes in a snapshot of the local hour of its time.
    pub fn ingest_snapshot(&mut self, snapshot: &SnapshotData)
        requires
            old(self).wf(),
        ensures
            final(self).wf(),
            (is_bucket_of(None, snapshot.timestamp_ms, true) && *final(self) == *old(self)) || exists|
                start: u64,
                end: u64,
            |
                #[trigger] is_bucket_of(Some((start, end)), snapshot.timestamp_ms, true)
                    && final(self)@ == snapshot_sampled(old(self)@, *snapshot, start, end),
    {
        let _ = self.ingest_snapshot_collect_completed(snapshot);
    }

    /// Adds a complete bucket of an interface.
    pub fn restore_iface_bucket(&mut self, ifindex: u32, bucket: AggregatedBucket)
        requires
            old(self).wf(),
        ensures
            final(self).wf(),
            final(self)@ == (HistogramModel {
                iface: SeriesModel {
                    completed: extended(
                        old(self)@.iface.completed,
                        ifindex,
                        bucket,
                        old(self)@.capacity,
                    ),
                    ..old(self)@.iface
                },
                ..old(self)@
            }),
    {
        extend_series(&mut self.completed_iface, ifindex, bucket, self.capacity_hours);
    }

    /// Adds a complete bucket of a device.
    pub fn restore_device_bucket(&mut self, ifindex: u32, mac: String, bucket: AggregatedBucket)
        requires
            old(self).wf(),
        ensures
            final(self).wf(),
            final(self)@ == (HistogramModel {
                device: SeriesModel {
                    completed: extended(
                        old(self)@.device.completed,
                        (ifindex, mac@),
                        bucket,
                        old(self)@.capacity,
                    ),
                    ..old(self)@.device
                },
                ..old(self)@
            }),
    {
        extend_series(
            &mut self.completed_device,
            DeviceSeriesKey { ifindex, mac },
            bucket,
            self.capacity_hours,
        );
    }
}

impl Ranked for AggregatedBucket {
    open spec fn precedes(self, other: Self) -> bool {
        self.start_ts_ms < other.start_ts_ms
    }

    proof fn asymmetric(a: Self, b: Self) {
    }

    proof fn cotransitive(a: Self, b: Self, c: Self) {
    }

    fn comes_before(&self, other: &Self) -> (r: bool) {
        self.start_ts_ms < other.start_ts_ms
    }
}

/// Whether a bucket has a moment in common with a range, whose ends belong to it.
pub open spec fn overlaps(b: AggregatedBucket, start: u64, end: u64) -> bool {
    b.start_ts_ms <= end && b.end_ts_ms >= start
}

/// The buckets that overlap a range.
pub open spec fn in_range(s: Seq<AggregatedBucket>, start: u64, end: u64) -> Seq<AggregatedBucket>
    decreases s.len(),
{
    if s.len() == 0 {
        Seq::empty()
    } else if overlaps(s.last(), start, end) {
        in_range(s.drop_last(), start, end).push(s.last())
    } else {
        in_range(s.drop_last(), start, end)
    }
}

/// The buckets of a series that overlap a range, in the order of their starts.
pub open spec fn hourly_of<KV>(s: SeriesModel<KV>, k: KV, start: u64, end: u64) -> Seq<
    AggregatedBucket,
> {
    let done = in_range(series_at(s.completed, k), start, end);
    arranged(
        if s.current.dom().contains(k) && overlaps(s.current[k], start, end) {
            done.push(s.current[k])
        } else {
            done
        },
    )
}

fn query_hourly<K: Key>(
    current: &Table<K, AggregatedBucket>,
    completed: &Table<K, VecDeque<AggregatedBucket>>,
    k: &K,
    start: u64,
    end: u64,
) -> (r: Vec<AggregatedBucket>)
    requires
        current.wf(),
        completed.wf(),
    ensures
        r@ == hourly_of(
            SeriesModel { current: current@, completed: series_of(completed@) },
            k@,
            start,
            end,
        ),
{
    let mut found: Vec<AggregatedBucket> = Vec::new();
    let ghost s = series_at(series_of(completed@), k@);
    if let Some(q) = completed.get(k) {
        let mut i: usize = 0;
        assert(q@ == s);
        assert(s.take(0) =~= Seq::empty());
        while i < q.len()
            invariant
                i <= q@.len(),
                q@ == s,
                found@ == in_range(s.take(i as int), start, end),
            decreases q@.len() - i,
        {
            assert(s.take(i + 1).drop_last() =~= s.take(i as int));
            let b = q[i];
            if b.start_ts_ms <= end && b.end_ts_ms >= start {
                found.push(b);
            }
            i += 1;
        }
        assert(s.take(i as int) =~= s);
    }
    if let Some(b) = current.get(k) {
        if b.start_ts_ms <= end && b.end_ts_ms >= start {
            found.push(*b);
        }
    }
    arrange(found)
}

/// Whether a series key is a device's on an interface, whatever the case of its
/// address.
pub open spec fn is_device(k: (u32, Seq<char>), ifindex: u32, mac: Seq<char>) -> bool {
    k.0 == ifindex && lowered(k.1) == lowered(mac)
}

/// A map without the series of a device.
pub open spec fn without_device<V>(
    m: Map<(u32, Seq<char>), V>,
    ifindex: u32,
    mac: Seq<char>,
) -> Map<(u32, Seq<char>), V> {
    Map::new(
        |k: (u32, Seq<char>)| m.dom().contains(k) && !is_device(k, ifindex, mac),
        |k: (u32, Seq<char>)| m[k],
    )
}

/// Whether a map has a series of a device.
pub open spec fn has_device<V>(m: Map<(u32, Seq<char>), V>, ifindex: u32, mac: Seq<char>) -> bool {
    exists|k: (u32, Seq<char>)| #[trigger] m.dom().contains(k) && is_device(k, ifindex, mac)
}

/// Takes out the series of a device; tells whether there was one.
pub(crate) fn drop_device<V>(t: &mut Table<DeviceSeriesKey, V>, ifindex: u32, mac: &str) -> (r: bool)
    requires
        old(t).wf(),
    ensures
        final(t).wf(),
        final(t)@ == without_device(old(t)@, ifindex, mac@),
        r == has_device(old(t)@, ifindex, mac@),
{
    let ghost m = t@;
    let mut removed = false;
    let mut i: usize = 0;
    while i < t.len()
        invariant
            t.wf(),
            i <= t.entries@.len(),
            t@.submap_of(m),
            forall|j: int| 0 <= j < i ==> !is_device((#[trigger] t.entries@[j]).0@, ifindex, mac@),
            forall|k: (u32, Seq<char>)| #[trigger]
                m.dom().contains(k) && !is_device(k, ifindex, mac@) ==> t@.dom().contains(k),
            removed ==> has_device(m, ifindex, mac@),
            !removed ==> t@ == m,
        decreases t.entries@.len() - i,
    {
        proof {
            t.lemma_entry(i as int);
        }
        let hit = t.entries[i].0.ifindex == ifindex && eq_ignore_ascii_case(
            t.entries[i].0.mac.as_str(),
            mac,
        );
        if hit {
            let ghost mid = *t;
            let ghost k = t.entries@[i as int].0@;
            assert(m.dom().contains(k) && is_device(k, ifindex, mac@));
            let _ = t.remove_at(i);
            removed = true;
            assert forall|j: int| 0 <= j < i implies !is_device(
                (#[trigger] t.entries@[j]).0@,
                ifindex,
                mac@,
            ) by {
                assert(t.entries@[j] == mid.entries@[j]);
            }
        } else {
            i += 1;
        }
    }
    assert forall|k: (u32, Seq<char>)| #[trigger] t@.dom().contains(k) implies !is_device(
        k,
        ifindex,
        mac@,
    ) by {
        let p = t.place(k);
        t.lemma_entry(p);
    }
    assert(t@ =~= without_device(m, ifindex, mac@));
    removed
}

impl HistogramHistory {
    /// Takes out the series of a device; tells whether there was one.
    pub fn remove_device(&mut self, ifindex: u32, mac: &str) -> (r: bool)
        requires
            old(self).wf(),
        ensures
            final(self).wf(),
            final(self)@ == (HistogramModel {
                device: SeriesModel {
                    current: without_device(old(self)@.device.current, ifindex, mac@),
                    completed: without_device(old(self)@.device.completed, ifindex, mac@),
                },
                ..old(self)@
            }),
            r == (has_device(old(self)@.device.current, ifindex, mac@) || has_device(
                old(self)@.device.completed,
                ifindex,
                mac@,
            )),
    {
        let ghost h = self@;
        let ghost m = self.completed_device@;
        let a = drop_device(&mut self.current_hour_device, ifindex, mac);
        let b = drop_device(&mut self.completed_device, ifindex, mac);
        assert(self@.device.completed =~= without_device(h.device.completed, ifindex, mac@));
        assert(has_device(m, ifindex, mac@) == has_device(h.device.completed, ifindex, mac@)) by {
            assert forall|k: (u32, Seq<char>)| m.dom().contains(k) <==> h.device.completed.dom().contains(k) by {}
            if has_device(m, ifindex, mac@) {
                let k = choose|k: (u32, Seq<char>)| #[trigger]
                    m.dom().contains(k) && is_device(k, ifindex, mac@);
                assert(h.device.completed.dom().contains(k));
            }
            if has_device(h.device.completed, ifindex, mac@) {
                let k = choose|k: (u32, Seq<char>)| #[trigger]
                    h.device.completed.dom().contains(k) && is_device(k, ifindex, mac@);
                assert(m.dom().contains(k));
            }
        }
        a || b
    }
}

/// An hour's bucket merged into its day's. Of the least rates zero counts as none.
pub open spec fn day_merged(acc: AggregatedBucket, b: AggregatedBucket) -> AggregatedBucket {
    AggregatedBucket {
        up_v4_bytes: sat_add(acc.up_v4_bytes, b.up_v4_bytes),
        down_v4_bytes: sat_add(acc.down_v4_bytes, b.down_v4_bytes),
        up_v6_bytes: sat_add(acc.up_v6_bytes, b.up_v6_bytes),
        down_v6_bytes: sat_add(acc.down_v6_bytes, b.down_v6_bytes),
        up_v4_bps_max: greater(acc.up_v4_bps_max, b.up_v4_bps_max),
        down_v4_bps_max: greater(acc.down_v4_bps_max, b.down_v4_bps_max),
        up_v6_bps_max: greater(acc.up_v6_bps_max, b.up_v6_bps_max),
        down_v6_bps_max: greater(acc.down_v6_bps_max, b.down_v6_bps_max),
        up_v4_bps_min: least_rate(acc.up_v4_bps_min, b.up_v4_bps_min),
        down_v4_bps_min: least_rate(acc.down_v4_bps_min, b.down_v4_bps_min),
        up_v6_bps_min: least_rate(acc.up_v6_bps_min, b.up_v6_bps_min),
        down_v6_bps_min: least_rate(acc.down_v6_bps_min, b.down_v6_bps_min),
        sample_count: sat_add(acc.sample_count, b.sample_count),
        up_v4_bps_sum: sat_add(acc.up_v4_bps_sum, b.up_v4_bps_sum),
        down_v4_bps_sum: sat_add(acc.down_v4_bps_sum, b.down_v4_bps_sum),
        up_v6_bps_sum: sat_add(acc.up_v6_bps_sum, b.up_v6_bps_sum),
        down_v6_bps_sum: sat_add(acc.down_v6_bps_sum, b.down_v6_bps_sum),
        ..acc
    }.finalized()
}

/// The smaller of two least rates that are not zero.
pub open spec fn least_rate(acc: u64, b: u64) -> u64 {
    if acc == 0 || (b > 0 && b < acc) {
        b
    } else {
        acc
    }
}

fn least(acc: u64, b: u64) -> (r: u64)
    ensures
        r == least_rate(acc, b),
{
    if acc == 0 || (b > 0 && b < acc) {
        b
    } else {
        acc
    }
}

fn merge_day(acc: &AggregatedBucket, b: &AggregatedBucket) -> (r: AggregatedBucket)
    ensures
        r == day_merged(*acc, *b),
{
    let mut d = *acc;
    d.up_v4_bytes = d.up_v4_bytes.saturating_add(b.up_v4_bytes);
    d.down_v4_bytes = d.down_v4_bytes.saturating_add(b.down_v4_bytes);
    d.up_v6_bytes = d.up_v6_bytes.saturating_add(b.up_v6_bytes);
    d.down_v6_bytes = d.down_v6_bytes.saturating_add(b.down_v6_bytes);
    d.up_v4_bps_max = max_u64(d.up_v4_bps_max, b.up_v4_bps_max);
    d.down_v4_bps_max = max_u64(d.down_v4_bps_max, b.down_v4_bps_max);
    d.up_v6_bps_max = max_u64(d.up_v6_bps_max, b.up_v6_bps_max);
    d.down_v6_bps_max = max_u64(d.down_v6_bps_max, b.down_v6_bps_max);
    d.up_v4_bps_min = least(d.up_v4_bps_min, b.up_v4_bps_min);
    d.down_v4_bps_min = least(d.down_v4_bps_min, b.down_v4_bps_min);
    d.up_v6_bps_min = least(d.up_v6_bps_min, b.up_v6_bps_min);
    d.down_v6_bps_min = least(d.down_v6_bps_min, b.down_v6_bps_min);
    d.sample_count = d.sample_count.saturating_add(b.sample_count);
    d.up_v4_bps_sum = d.up_v4_bps_sum.saturating_add(b.up_v4_bps_sum);
    d.down_v4_bps_sum = d.down_v4_bps_sum.saturating_add(b.down_v4_bps_sum);
    d.up_v6_bps_sum = d.up_v6_bps_sum.saturating_add(b.up_v6_bps_sum);
    d.down_v6_bps_sum = d.down_v6_bps_sum.saturating_add(b.down_v6_bps_sum);
    d.finalize()
}

/// The buckets of days by their starts, from the buckets of hours and the bounds
/// of the days that they belong to.
pub open spec fn day_map(hours: Seq<AggregatedBucket>, days: Seq<(u64, u64)>) -> Map<
    u64,
    AggregatedBucket,
>
    decreases hours.len(),
{
    if hours.len() == 0 || days.len() != hours.len() {
        Map::empty()
    } else {
        let m = day_map(hours.drop_last(), days.drop_last());
        let (start, end) = days.last();
        let acc = if m.dom().contains(start) {
            m[start]
        } else {
            empty_bucket(start, end)
        };
        m.insert(start, day_merged(acc, hours.last()))
    }
}

/// The list holds the buckets of the map, in the order of their starts.
pub open spec fn lists_days(v: Seq<AggregatedBucket>, m: Map<u64, AggregatedBucket>) -> bool {
    &&& v.len() == m.len()
    &&& forall|i: int|
        0 <= i < v.len() ==> m.dom().contains((#[trigger] v[i]).start_ts_ms) && m[v[i].start_ts_ms]
            == v[i]
    &&& forall|i: int, j: int|
        0 <= i < j < v.len() ==> (#[trigger] v[i]).start_ts_ms < (#[trigger] v[j]).start_ts_ms
}

/// Merges buckets of hours into the buckets of the days that they belong to.
pub fn merge_hourly_to_daily(hourly: &Vec<AggregatedBucket>, days: &Vec<(u64, u64)>) -> (r: Vec<
    AggregatedBucket,
>)
    requires
        days@.len() == hourly@.len(),
    ensures
        lists_days(r@, day_map(hourly@, days@)),
{
    let mut by_day: Table<u64, AggregatedBucket> = Table::new();
    let ghost hs = hourly@;
    let ghost ds = days@;
    let mut i: usize = 0;
    assert(hs.take(0) =~= Seq::empty());
    while i < hourly.len()
        invariant
            i <= hourly@.len(),
            hs == hourly@,
            ds == days@,
            ds.len() == hs.len(),
            by_day.wf(),
            by_day@ == day_map(hs.take(i as int), ds.take(i as int)),
            forall|k: u64| #[trigger] by_day@.dom().contains(k) ==> by_day@[k].start_ts_ms == k,
        decreases hourly@.len() - i,
    {
        assert(hs.take(i + 1).drop_last() =~= hs.take(i as int));
        assert(ds.take(i + 1).drop_last() =~= ds.take(i as int));
        let (start, end) = days[i];
        let acc = match by_day.get(&start) {
            Some(b) => *b,
            None => AggregatedBucket {
                start_ts_ms: start,
                end_ts_ms: end,
                ..AggregatedBucket::default()
            },
        };
        by_day.insert(start, merge_day(&acc, &hourly[i]));
        i += 1;
    }
    assert(hs.take(i as int) =~= hs);
    assert(ds.take(i as int) =~= ds);
    let mut list: Vec<AggregatedBucket> = Vec::new();
    let mut i: usize = 0;
    while i < by_day.entries.len()
        invariant
            i <= by_day.entries@.len(),
            by_day.wf(),
            list@.len() == i,
            forall|j: int| 0 <= j < i ==> #[trigger] list@[j] == by_day.entries@[j].1,
        decreases by_day.entries@.len() - i,
    {
        list.push(by_day.entries[i].1);
        i += 1;
    }
    let ghost all = list@;
    let r = arrange(list);
    proof {
        by_day.lemma_len();
        law_arranged_is_ordered(all);
        assert forall|j: int| 0 <= j < all.len() implies by_day@.dom().contains(
            (#[trigger] all[j]).start_ts_ms,
        ) && by_day@[all[j].start_ts_ms] == all[j] && all[j].start_ts_ms == by_day.entries@[j].0 by {
            by_day.lemma_entry(j);
        }
        assert(all.no_duplicates()) by {
            assert forall|a: int, b: int| 0 <= a < b < all.len() implies all[a] != all[b] by {
                assert(by_day.entries@[a].0@ != by_day.entries@[b].0@);
            }
        }
        lemma_same_distinct(r@, all);
        assert forall|j: int| 0 <= j < r@.len() implies by_day@.dom().contains(
            (#[trigger] r@[j]).start_ts_ms,
        ) && by_day@[r@[j].start_ts_ms] == r@[j] by {
            lemma_same_members(r@, all, j);
        }
        assert forall|a: int, b: int| 0 <= a < b < r@.len() implies (#[trigger] r@[a]).start_ts_ms
            < (#[trigger] r@[b]).start_ts_ms by {
            assert(!r@[b].precedes(r@[a]));
            if r@[a].start_ts_ms == r@[b].start_ts_ms {
                assert(r@[a] == r@[b]);
            }
        }
    }
    r
}

/// The buckets as they are reported.
pub open spec fn all_finalized(s: Seq<AggregatedBucket>) -> Seq<AggregatedBucket> {
    Seq::new(s.len(), |i: int| s[i].finalized())
}

fn finalize_all(v: &Vec<AggregatedBucket>) -> (r: Vec<AggregatedBucket>)
    ensures
        r@ == all_finalized(v@),
{
    let mut r: Vec<AggregatedBucket> = Vec::new();
    let mut i: usize = 0;
    while i < v.len()
        invariant
            i <= v@.len(),
            r@ == all_finalized(v@).take(i as int),
        decreases v@.len() - i,
    {
        r.push(v[i].finalize());
        assert(all_finalized(v@).take(i + 1) =~= all_finalized(v@).take(i as int).push(
            v@[i as int].finalized(),
        ));
        i += 1;
    }
    assert(all_finalized(v@).take(i as int) =~= all_finalized(v@));
    r
}

/// What an optional text holds.
pub open spec fn str_view(s: Option<&str>) -> Option<Seq<char>> {
    match s {
        Some(t) => Some(t@),
        None => None,
    }
}

/// The hours that a request asks for: those of a device where an address is
/// given, else those of an interface. Of keys that differ only in case either may
/// be meant, one with complete hours before one without.
pub open spec fn asked_hours(
    h: HistogramModel,
    ifindex: u32,
    mac: Option<Seq<char>>,
    start: u64,
    end: u64,
    hours: Seq<AggregatedBucket>,
) -> bool {
    if mac is Some && trimmed(mac->0).len() > 0 {
        let m = mac->0;
        ||| (exists|k: (u32, Seq<char>)| #[trigger]
            h.device.completed.dom().contains(k) && is_device(k, ifindex, m) && hours == hourly_of(
                h.device,
                k,
                start,
                end,
            ))
        ||| (!has_device(h.device.completed, ifindex, m) && exists|k: (u32, Seq<char>)| #[trigger]
            h.device.current.dom().contains(k) && is_device(k, ifindex, m) && hours == hourly_of(
                h.device,
                k,
                start,
                end,
            ))
        ||| (!has_device(h.device.completed, ifindex, m) && !has_device(
            h.device.current,
            ifindex,
            m,
        ) && hours == Seq::<AggregatedBucket>::empty())
    } else {
        hours == hourly_of(h.iface, ifindex, start, end)
    }
}

/// Whether the local calendar has a say in the days of hours: one of the hours starts
/// in the calendar.
pub open spec fn meets_calendar(hours: Seq<AggregatedBucket>) -> bool {
    exists|i: int| 0 <= i < hours.len() && in_calendar((#[trigger] hours[i]).start_ts_ms as i64)
}

/// Whether days may be those of hours: one for each hour, on the date that the local
/// calendar reads its start as.
pub open spec fn may_be_days(hours: Seq<AggregatedBucket>, days: Seq<(u64, u64)>) -> bool {
    days.len() == hours.len() && forall|i: int|
        0 <= i < hours.len() ==> is_bucket_of(
            Some(#[trigger] days[i]),
            hours[i].start_ts_ms,
            false,
        )
}

/// Whether buckets are what is told of hours: the hours, or the days that they make up,
/// in the form in which they are reported.
pub open spec fn tells(
    hours: Seq<AggregatedBucket>,
    bucket: AggregateBucket,
    v: Seq<AggregatedBucket>,
) -> bool {
    match bucket {
        AggregateBucket::Hourly => v == all_finalized(hours),
        AggregateBucket::Daily => exists|days: Seq<(u64, u64)>, by_day: Seq<AggregatedBucket>|
            may_be_days(hours, days) && #[trigger] lists_days(by_day, day_map(hours, days)) && v
                == all_finalized(by_day),
    }
}

/// The key of the first series of a device in a list.
pub open spec fn first_device<V>(
    es: Seq<(DeviceSeriesKey, V)>,
    ifindex: u32,
    mac: Seq<char>,
) -> Option<(u32, Seq<char>)>
    decreases es.len(),
{
    if es.len() == 0 {
        None
    } else {
        match first_device(es.drop_last(), ifindex, mac) {
            Some(k) => Some(k),
            None => if is_device(es.last().0@, ifindex, mac) {
                Some(es.last().0@)
            } else {
                None
            },
        }
    }
}

proof fn lemma_first_device<V>(es: Seq<(DeviceSeriesKey, V)>, ifindex: u32, mac: Seq<char>, i: int)
    requires
        0 <= i <= es.len(),
        forall|j: int| 0 <= j < i ==> !is_device((#[trigger] es[j]).0@, ifindex, mac),
        i < es.len() ==> is_device(es[i].0@, ifindex, mac),
    ensures
        first_device(es, ifindex, mac) == if i < es.len() {
            Some(es[i].0@)
        } else {
            None
        },
    decreases es.len(),
{
    if es.len() > 0 {
        let front = es.drop_last();
        assert forall|j: int| 0 <= j < i && j < front.len() implies !is_device(
            (#[trigger] front[j]).0@,
            ifindex,
            mac,
        ) by {
            assert(front[j] == es[j]);
        }
        lemma_first_device(
            front,
            ifindex,
            mac,
            if i < front.len() {
                i
            } else {
                front.len() as int
            },
        );
    }
}

fn find_device<V>(t: &Table<DeviceSeriesKey, V>, ifindex: u32, mac: &str) -> (r: Option<
    DeviceSeriesKey,
>)
    requires
        t.wf(),
    ensures
        r matches Some(k) ==> t@.dom().contains(k@) && is_device(k@, ifindex, mac@) && first_device(
            t.entries@,
            ifindex,
            mac@,
        ) == Some(k@),
        r is None ==> !has_device(t@, ifindex, mac@) && first_device(
            t.entries@,
            ifindex,
            mac@,
        ) is None,
{
    let mut i: usize = 0;
    while i < t.entries.len()
        invariant
            t.wf(),
            i <= t.entries@.len(),
            forall|j: int| 0 <= j < i ==> !is_device((#[trigger] t.entries@[j]).0@, ifindex, mac@),
        decreases t.entries@.len() - i,
    {
        let k = &t.entries[i].0;
        if k.ifindex == ifindex && eq_ignore_ascii_case(k.mac.as_str(), mac) {
            proof {
                t.lemma_entry(i as int);
                lemma_first_device(t.entries@, ifindex, mac@, i as int);
            }
            return Some(k.dup());
        }
        i += 1;
    }
    proof {
        lemma_first_device(t.entries@, ifindex, mac@, i as int);
        if has_device(t@, ifindex, mac@) {
            let k = choose|k: (u32, Seq<char>)| #[trigger]
                t@.dom().contains(k) && is_device(k, ifindex, mac@);
            let p = t.place(k);
            t.lemma_entry(p);
        }
    }
    None
}

impl HistogramHistory {
    /// The hours that a request gets: those of the first series of a device where an
    /// address is given, else those of an interface.
    pub open spec fn hours_asked(
        self,
        ifindex: u32,
        mac: Option<Seq<char>>,
        start: u64,
        end: u64,
    ) -> Seq<AggregatedBucket> {
        if mac is Some && trimmed(mac->0).len() > 0 {
            match first_device(self.completed_device.entries@, ifindex, mac->0) {
                Some(k) => hourly_of(self@.device, k, start, end),
                None => match first_device(self.current_hour_device.entries@, ifindex, mac->0) {
                    Some(k) => hourly_of(self@.device, k, start, end),
                    None => Seq::empty(),
                },
            }
        } else {
            hourly_of(self@.iface, ifindex, start, end)
        }
    }

    fn query_hours(&self, ifindex: u32, mac: Option<&str>, start_ms: u64, end_ms: u64) -> (r: Vec<
        AggregatedBucket,
    >)
        requires
            self.wf(),
        ensures
            asked_hours(
                self@,
                ifindex,
                str_view(mac),
                start_ms,
                end_ms,
                r@,
            ),
            r@ == self.hours_asked(ifindex, str_view(mac), start_ms, end_ms),
    {
        if let Some(m) = mac {
            if !trim(m).as_str().is_empty() {
                if let Some(k) = find_device(&self.completed_device, ifindex, m) {
                    assert(self@.device.completed.dom().contains(k@));
                    return query_hourly(
                        &self.current_hour_device,
                        &self.completed_device,
                        &k,
                        start_ms,
                        end_ms,
                    );
                }
                assert(!has_device(self@.device.completed, ifindex, m@)) by {
                    if has_device(self@.device.completed, ifindex, m@) {
                        let k = choose|k: (u32, Seq<char>)| #[trigger]
                            self@.device.completed.dom().contains(k) && is_device(k, ifindex, m@);
                        assert(self.completed_device@.dom().contains(k));
                    }
                }
                if let Some(k) = find_device(&self.current_hour_device, ifindex, m) {
                    assert(self@.device.current.dom().contains(k@));
                    return query_hourly(
                        &self.current_hour_device,
                        &self.completed_device,
                        &k,
                        start_ms,
                        end_ms,
                    );
                }
                let none: Vec<AggregatedBucket> = Vec::new();
                assert(none@ =~= Seq::<AggregatedBucket>::empty());
                return none;
            }
        }
        query_hourly(&self.current_hour_iface, &self.completed_iface, &ifindex, start_ms, end_ms)
    }

    /// The buckets of a range, by the hour or by the local day. There is no answer by
    /// the day where the calendar skips or repeats the start or the end of one, which
    /// can be only where an hour that is asked for starts in the calendar.
    pub fn query_aggregate(
        &self,
        ifindex: u32,
        mac: Option<&str>,
        start_ms: u64,
        end_ms: u64,
        bucket: AggregateBucket,
    ) -> (r: Option<Vec<AggregatedBucket>>)
        requires
            self.wf(),
        ensures
            asked_hours(
                self@,
                ifindex,
                str_view(mac),
                start_ms,
                end_ms,
                self.hours_asked(ifindex, str_view(mac), start_ms, end_ms),
            ),
            match r {
                Some(v) => tells(
                    self.hours_asked(ifindex, str_view(mac), start_ms, end_ms),
                    bucket,
                    v@,
                ),
                None => bucket is Daily && meets_calendar(
                    self.hours_asked(ifindex, str_view(mac), start_ms, end_ms),
                ),
            },
    {
        let hourly = self.query_hours(ifindex, mac, start_ms, end_ms);
        match bucket {
            AggregateBucket::Hourly => Some(finalize_all(&hourly)),
            AggregateBucket::Daily => {
                let mut days: Vec<(u64, u64)> = Vec::new();
                let mut i: usize = 0;
                while i < hourly.len()
                    invariant
                        bucket is Daily,
                        asked_hours(self@, ifindex, str_view(mac), start_ms, end_ms, hourly@),
                        hourly@ == self.hours_asked(ifindex, str_view(mac), start_ms, end_ms),
                        i <= hourly@.len(),
                        days@.len() == i,
                        forall|j: int|
                            0 <= j < i ==> is_bucket_of(
                                Some(#[trigger] days@[j]),
                                hourly@[j].start_ts_ms,
                                false,
                            ),
                    decreases hourly@.len() - i,
                {
                    match daily_bucket_local(hourly[i].start_ts_ms) {
                        Some(d) => {
                            days.push(d);
                        },
                        None => {
                            assert(in_calendar(hourly@[i as int].start_ts_ms as i64));
                            assert(meets_calendar(hourly@));
                            return None;
                        },
                    }
                    i += 1;
                }
                assert(may_be_days(hourly@, days@));
                let by_day = merge_hourly_to_daily(&hourly, &days);
                assert(lists_days(by_day@, day_map(hourly@, days@)));
                Some(finalize_all(&by_day))
            },
        }
    }
}

impl Ranked for CurrentHourIfaceState {
    open spec fn precedes(self, other: Self) -> bool {
        self.ifindex < other.ifindex
    }

    proof fn asymmetric(a: Self, b: Self) {
    }

    proof fn cotransitive(a: Self, b: Self, c: Self) {
    }

    fn comes_before(&self, other: &Self) -> (r: bool) {
        self.ifindex < other.ifindex
    }
}

/// Whether a device key comes before another: by interface, then by address.
pub open spec fn key_before(a: (u32, Seq<char>), b: (u32, Seq<char>)) -> bool {
    a.0 < b.0 || (a.0 == b.0 && text_less(a.1, b.1))
}

impl Ranked for CurrentHourDeviceState {
    open spec fn precedes(self, other: Self) -> bool {
        key_before((self.ifindex, self.mac@), (other.ifindex, other.mac@))
    }

    proof fn asymmetric(a: Self, b: Self) {
        lemma_text_less_total(a.mac@, b.mac@);
    }

    proof fn cotransitive(a: Self, b: Self, c: Self) {
        lemma_text_less_total(a.mac@, b.mac@);
        lemma_text_less_total(b.mac@, c.mac@);
        lemma_text_less_total(a.mac@, c.mac@);
        if text_less(c.mac@, b.mac@) && text_less(b.mac@, a.mac@) {
            lemma_text_less_transitive(c.mac@, b.mac@, a.mac@);
        }
    }

    fn comes_before(&self, other: &Self) -> (r: bool) {
        self.ifindex < other.ifindex || (self.ifindex == other.ifindex && less(
            self.mac.as_str(),
            other.mac.as_str(),
        ))
    }
}

/// The list holds the current hours of a map of interfaces, in the order of their
/// indices.
pub open spec fn lists_ifaces(
    v: Seq<CurrentHourIfaceState>,
    m: Map<u32, AggregatedBucket>,
) -> bool {
    &&& v.len() == m.len()
    &&& forall|i: int|
        0 <= i < v.len() ==> m.dom().contains((#[trigger] v[i]).ifindex) && m[v[i].ifindex]
            == v[i].bucket
    &&& forall|i: int, j: int|
        0 <= i < j < v.len() ==> (#[trigger] v[i]).ifindex < (#[trigger] v[j]).ifindex
}

/// The list holds the current hours of a map of devices, in the order of their
/// keys.
pub open spec fn lists_devices(
    v: Seq<CurrentHourDeviceState>,
    m: Map<(u32, Seq<char>), AggregatedBucket>,
) -> bool {
    &&& v.len() == m.len()
    &&& forall|i: int|
        0 <= i < v.len() ==> m.dom().contains(
            ((#[trigger] v[i]).ifindex, v[i].mac@),
        ) && m[(v[i].ifindex, v[i].mac@)] == v[i].bucket
    &&& forall|i: int, j: int|
        0 <= i < j < v.len() ==> (#[trigger] v[i]).precedes(#[trigger] v[j])
}

fn list_ifaces(t: &Table<u32, AggregatedBucket>) -> (r: Vec<CurrentHourIfaceState>)
    requires
        t.wf(),
    ensures
        lists_ifaces(r@, t@),
{
    let mut list: Vec<CurrentHourIfaceState> = Vec::new();
    let mut i: usize = 0;
    while i < t.entries.len()
        invariant
            i <= t.entries@.len(),
            list@.len() == i,
            forall|j: int|
                0 <= j < i ==> (#[trigger] list@[j]).ifindex == t.entries@[j].0 && list@[j].bucket
                    == t.entries@[j].1,
        decreases t.entries@.len() - i,
    {
        list.push(
            CurrentHourIfaceState { ifindex: t.entries[i].0, bucket: t.entries[i].1 },
        );
        i += 1;
    }
    let ghost all = list@;
    let r = arrange(list);
    proof {
        t.lemma_len();
        law_arranged_is_ordered(all);
        assert forall|j: int| 0 <= j < all.len() implies t@.dom().contains(
            (#[trigger] all[j]).ifindex,
        ) && t@[all[j].ifindex] == all[j].bucket by {
            t.lemma_entry(j);
        }
        assert(all.no_duplicates()) by {
            assert forall|a: int, b: int| 0 <= a < b < all.len() implies all[a] != all[b] by {
                assert(t.entries@[a].0@ != t.entries@[b].0@);
            }
        }
        lemma_same_distinct(r@, all);
        assert forall|j: int| 0 <= j < r@.len() implies t@.dom().contains(
            (#[trigger] r@[j]).ifindex,
        ) && t@[r@[j].ifindex] == r@[j].bucket by {
            lemma_same_members(r@, all, j);
        }
        assert forall|a: int, b: int| 0 <= a < b < r@.len() implies (#[trigger] r@[a]).ifindex < (
        #[trigger] r@[b]).ifindex by {
            assert(!r@[b].precedes(r@[a]));
            if r@[a].ifindex == r@[b].ifindex {
                assert(r@[a] == r@[b]);
            }
        }
    }
    r
}

fn list_devices(t: &Table<DeviceSeriesKey, AggregatedBucket>) -> (r: Vec<CurrentHourDeviceState>)
    requires
        t.wf(),
    ensures
        lists_devices(r@, t@),
{
    let mut list: Vec<CurrentHourDeviceState> = Vec::new();
    let mut i: usize = 0;
    while i < t.entries.len()
        invariant
            i <= t.entries@.len(),
            list@.len() == i,
            forall|j: int|
                0 <= j < i ==> (#[trigger] list@[j]).ifindex == t.entries@[j].0.ifindex
                    && list@[j].mac@ == t.entries@[j].0.mac@ && list@[j].bucket == t.entries@[j].1,
        decreases t.entries@.len() - i,
    {
        list.push(
            CurrentHourDeviceState {
                ifindex: t.entries[i].0.ifindex,
                mac: t.entries[i].0.mac.clone(),
                bucket: t.entries[i].1,
            },
        );
        i += 1;
    }
    let ghost all = list@;
    let r = arrange(list);
    proof {
        t.lemma_len();
        law_arranged_is_ordered(all);
        assert forall|j: int| 0 <= j < all.len() implies t@.dom().contains(
            ((#[trigger] all[j]).ifindex, all[j].mac@),
        ) && t@[(all[j].ifindex, all[j].mac@)] == all[j].bucket by {
            t.lemma_entry(j);
        }
        assert forall|a: int, b: int|
            0 <= a < all.len() && 0 <= b < all.len() && a != b implies !(all[a].ifindex
            == all[b].ifindex && all[a].mac@ == all[b].mac@) by {
            assert(t.entries@[a].0@ != t.entries@[b].0@);
        }
        assert(all.no_duplicates());
        lemma_same_distinct(r@, all);
        assert forall|j: int| 0 <= j < r@.len() implies t@.dom().contains(
            ((#[trigger] r@[j]).ifindex, r@[j].mac@),
        ) && t@[(r@[j].ifindex, r@[j].mac@)] == r@[j].bucket by {
            lemma_same_members(r@, all, j);
        }
        assert forall|a: int, b: int| 0 <= a < b < r@.len() implies (#[trigger] r@[a]).precedes(
            #[trigger] r@[b],
        ) by {
            assert(!r@[b].precedes(r@[a]));
            lemma_same_members(r@, all, a);
            lemma_same_members(r@, all, b);
            let x = choose|x: int| 0 <= x < all.len() && all[x] == r@[a];
            let y = choose|y: int| 0 <= y < all.len() && all[y] == r@[b];
            assert(x != y);
            lemma_text_less_total(r@[a].mac@, r@[b].mac@);
        }
    }
    r
}

/// The bytes of all buckets of a list.
pub open spec fn bytes_of(s: Seq<AggregatedBucket>) -> CounterQuad
    decreases s.len(),
{
    if s.len() == 0 {
        zero_quad()
    } else {
        with_bucket_bytes(bytes_of(s.drop_last()), s.last())
    }
}

fn sum_bytes(q: &VecDeque<AggregatedBucket>) -> (r: CounterQuad)
    ensures
        r == bytes_of(q@),
{
    let mut r = CounterQuad::default();
    let mut i: usize = 0;
    assert(q@.take(0) =~= Seq::empty());
    while i < q.len()
        invariant
            i <= q@.len(),
            r == bytes_of(q@.take(i as int)),
        decreases q@.len() - i,
    {
        assert(q@.take(i + 1).drop_last() =~= q@.take(i as int));
        add_bucket_bytes(&mut r, &q[i]);
        i += 1;
    }
    assert(q@.take(i as int) =~= q@);
    r
}

/// The value under a key, zero where there is none.
pub open spec fn quad_at<KV>(m: Map<KV, CounterQuad>, k: KV) -> CounterQuad {
    if m.dom().contains(k) {
        m[k]
    } else {
        zero_quad()
    }
}

/// The bytes of the complete hours of each interface.
pub open spec fn iface_totals(m: Map<u32, Seq<AggregatedBucket>>) -> Map<u32, CounterQuad> {
    Map::new(|k: u32| m.dom().contains(k), |k: u32| bytes_of(m[k]))
}

/// The bytes of each interface with those of the current hour.
pub open spec fn iface_totals_now(s: SeriesModel<u32>) -> Map<u32, CounterQuad> {
    Map::new(
        |k: u32| s.completed.dom().contains(k) || s.current.dom().contains(k),
        |k: u32|
            if s.current.dom().contains(k) {
                with_bucket_bytes(quad_at(iface_totals(s.completed), k), s.current[k])
            } else {
                bytes_of(s.completed[k])
            },
    )
}

/// The bytes of the complete hours of each device whose address can be read.
pub open spec fn device_totals(entries: Seq<(DeviceSeriesKey, VecDeque<AggregatedBucket>)>) -> Map<
    (u32, Seq<u8>),
    CounterQuad,
>
    decreases entries.len(),
{
    if entries.len() == 0 {
        Map::empty()
    } else {
        let m = device_totals(entries.drop_last());
        let (k, q) = entries.last();
        match parsed_mac(k.mac@) {
            Some(mac) => m.insert((k.ifindex, mac), bytes_of(q@)),
            None => m,
        }
    }
}

/// The bytes of devices with those of their current hours.
pub open spec fn currents_added(
    totals: Map<(u32, Seq<u8>), CounterQuad>,
    entries: Seq<(DeviceSeriesKey, AggregatedBucket)>,
) -> Map<(u32, Seq<u8>), CounterQuad>
    decreases entries.len(),
{
    if entries.len() == 0 {
        totals
    } else {
        let m = currents_added(totals, entries.drop_last());
        let (k, b) = entries.last();
        match parsed_mac(k.mac@) {
            Some(mac) => m.insert(
                (k.ifindex, mac),
                with_bucket_bytes(quad_at(m, (k.ifindex, mac)), b),
            ),
            None => m,
        }
    }
}

impl HistogramHistory {
    /// The current hour of every interface and of every device.
    pub fn export_current_hour_state(&self) -> (r: CurrentHourState)
        requires
            self.wf(),
        ensures
            lists_ifaces(r.iface@, self@.iface.current),
            lists_devices(r.device@, self@.device.current),
    {
        CurrentHourState {
            iface: list_ifaces(&self.current_hour_iface),
            device: list_devices(&self.current_hour_device),
        }
    }

    /// The bytes of the complete hours, by interface and by device.
    pub fn cumulative_from_completed(&self) -> (r: (
        Table<u32, CounterQuad>,
        Table<(u32, [u8; 6]), CounterQuad>,
    ))
        requires
            self.wf(),
        ensures
            r.0.wf(),
            r.1.wf(),
            r.0@ == iface_totals(self@.iface.completed),
            r.1@ == device_totals(self.completed_device.entries@),
    {
        let mut iface: Table<u32, CounterQuad> = Table::new();
        let t = &self.completed_iface;
        let mut i: usize = 0;
        while i < t.entries.len()
            invariant
                i <= t.entries@.len(),
                t.wf(),
                iface.wf(),
                forall|k: u32| #[trigger]
                    iface@.dom().contains(k) ==> t@.dom().contains(k) && iface@[k] == bytes_of(
                        t@[k]@,
                    ),
                forall|j: int| 0 <= j < i ==> iface@.dom().contains((#[trigger] t.entries@[j]).0),
            decreases t.entries@.len() - i,
        {
            proof {
                t.lemma_entry(i as int);
            }
            iface.insert(t.entries[i].0, sum_bytes(&t.entries[i].1));
            i += 1;
        }
        assert(iface@ =~= iface_totals(self@.iface.completed)) by {
            assert forall|k: u32| t@.dom().contains(k) implies iface@.dom().contains(k) by {
                let p = t.place(k);
                assert(t.entries@[p].0 == k);
            }
        }
        let mut device: Table<(u32, [u8; 6]), CounterQuad> = Table::new();
        let d = &self.completed_device;
        let ghost es = d.entries@;
        let mut i: usize = 0;
        assert(es.take(0) =~= Seq::empty());
        while i < d.entries.len()
            invariant
                i <= d.entries@.len(),
                es == d.entries@,
                device.wf(),
                device@ == device_totals(es.take(i as int)),
            decreases d.entries@.len() - i,
        {
            assert(es.take(i + 1).drop_last() =~= es.take(i as int));
            let key = &d.entries[i].0;
            if let Ok(mac) = from_str(key.mac.as_str()) {
                device.insert((key.ifindex, mac), sum_bytes(&d.entries[i].1));
            }
            i += 1;
        }
        assert(es.take(i as int) =~= es);
        (iface, device)
    }

    /// The bytes of all hours with the current one, by interface and by device.
    pub fn cumulative_from_all(&self) -> (r: (
        Table<u32, CounterQuad>,
        Table<(u32, [u8; 6]), CounterQuad>,
    ))
        requires
            self.wf(),
        ensures
            r.0.wf(),
            r.1.wf(),
            r.0@ == iface_totals_now(self@.iface),
            r.1@ == currents_added(
                device_totals(self.completed_device.entries@),
                self.current_hour_device.entries@,
            ),
    {
        let (mut iface, mut device) = self.cumulative_from_completed();
        let t = &self.current_hour_iface;
        let ghost base = iface@;
        let mut i: usize = 0;
        while i < t.entries.len()
            invariant
                i <= t.entries@.len(),
                t.wf(),
                iface.wf(),
                forall|k: u32| #[trigger]
                    iface@.dom().contains(k) <==> base.dom().contains(k) || exists|j: int|
                        0 <= j < i && (#[trigger] t.entries@[j]).0 == k,
                forall|k: u32|
                    iface@.dom().contains(k) && (forall|j: int|
                        0 <= j < i ==> (#[trigger] t.entries@[j]).0 != k) ==> #[trigger] iface@[k]
                        == base[k],
                forall|j: int|
                    0 <= j < i ==> iface@[(#[trigger] t.entries@[j]).0] == with_bucket_bytes(
                        quad_at(base, t.entries@[j].0),
                        t.entries@[j].1,
                    ),
            decreases t.entries@.len() - i,
        {
            let k = t.entries[i].0;
            let ghost before = iface@;
            let mut acc = match iface.get(&k) {
                Some(q) => *q,
                None => CounterQuad::default(),
            };
            assert(forall|j: int| 0 <= j < i ==> (#[trigger] t.entries@[j]).0@ != t.entries@[i as int].0@);
            assert(acc == quad_at(base, k));
            add_bucket_bytes(&mut acc, &t.entries[i].1);
            iface.insert(k, acc);
            i += 1;
        }
        assert(iface@ =~= iface_totals_now(self@.iface)) by {
            assert forall|k: u32| iface@.dom().contains(k) <==> iface_totals_now(
                self@.iface,
            ).dom().contains(k) by {
                if t@.dom().contains(k) {
                    let p = t.place(k);
                    assert(t.entries@[p].0 == k);
                }
                if exists|j: int| 0 <= j < t.entries@.len() && (#[trigger] t.entries@[j]).0 == k {
                    let j = choose|j: int| 0 <= j < t.entries@.len() && (#[trigger] t.entries@[j]).0 == k;
                    t.lemma_entry(j);
                }
            }
            assert forall|k: u32| iface@.dom().contains(k) implies iface@[k] == iface_totals_now(
                self@.iface,
            )[k] by {
                if t@.dom().contains(k) {
                    let p = t.place(k);
                    assert(t.entries@[p].0 == k);
                    t.lemma_entry(p);
                } else {
                    assert forall|j: int| 0 <= j < t.entries@.len() implies (
                    #[trigger] t.entries@[j]).0 != k by {
                        t.lemma_entry(j);
                    }
                }
            }
        }
        let d = &self.current_hour_device;
        let ghost es = d.entries@;
        let ghost totals = device@;
        let mut i: usize = 0;
        assert(es.take(0) =~= Seq::empty());
        while i < d.entries.len()
            invariant
                i <= d.entries@.len(),
                es == d.entries@,
                device.wf(),
                device@ == currents_added(totals, es.take(i as int)),
            decreases d.entries@.len() - i,
        {
            assert(es.take(i + 1).drop_last() =~= es.take(i as int));
            let key = &d.entries[i].0;
            if let Ok(mac) = from_str(key.mac.as_str()) {
                let k = (key.ifindex, mac);
                let mut acc = match device.get(&k) {
                    Some(q) => *q,
                    None => CounterQuad::default(),
                };
                add_bucket_bytes(&mut acc, &d.entries[i].1);
                device.insert(k, acc);
            }
            i += 1;
        }
        assert(es.take(i as int) =~= es);
        (iface, device)
    }
}

/// The bytes that are told of an interface in total are the same whether an hour counts
/// as the current one or, once it is complete and as long as no older hour leaves, as
/// the last of the complete ones.
pub proof fn law_hour_change_keeps_totals(s: SeriesModel<u32>, k: u32, start: u64, end: u64, m: CounterQuad, cap: nat)
    requires
        s.current.dom().contains(k),
        s.current[k].start_ts_ms != start,
        series_at(s.completed, k).len() < cap,
    ensures
        ({
            let after = with_sample(s, k, start, end, m, cap);
            &&& bytes_of(after.completed[k]) == iface_totals_now(s)[k]
            &&& iface_totals_now(after)[k].up_v4_bytes == sat_add(
                iface_totals_now(s)[k].up_v4_bytes,
                m.up_v4_bytes,
            )
            &&& iface_totals_now(after)[k].down_v4_bytes == sat_add(
                iface_totals_now(s)[k].down_v4_bytes,
                m.down_v4_bytes,
            )
            &&& iface_totals_now(after)[k].up_v6_bytes == sat_add(
                iface_totals_now(s)[k].up_v6_bytes,
                m.up_v6_bytes,
            )
            &&& iface_totals_now(after)[k].down_v6_bytes == sat_add(
                iface_totals_now(s)[k].down_v6_bytes,
                m.down_v6_bytes,
            )
        }),
{
    let b = s.current[k];
    let done = series_at(s.completed, k);
    assert(done.push(b).drop_last() =~= done);
    if done.len() == 0 {
        assert(bytes_of(done) == zero_quad());
    }
}

/// The hours that belong to a day.
pub open spec fn hours_of_day(
    hours: Seq<AggregatedBucket>,
    days: Seq<(u64, u64)>,
    day: u64,
) -> Seq<AggregatedBucket>
    decreases hours.len(),
{
    if hours.len() == 0 || days.len() != hours.len() {
        Seq::empty()
    } else {
        let before = hours_of_day(hours.drop_last(), days.drop_last(), day);
        if days.last().0 == day {
            before.push(hours.last())
        } else {
            before
        }
    }
}

/// A day holds the bytes of its hours, all of them and no others; a day without hours
/// is not told.
pub proof fn law_day_holds_its_hours(
    hours: Seq<AggregatedBucket>,
    days: Seq<(u64, u64)>,
    day: u64,
)
    requires
        hours.len() == days.len(),
    ensures
        day_map(hours, days).dom().contains(day) <==> hours_of_day(hours, days, day).len() > 0,
        day_map(hours, days).dom().contains(day) ==> ({
            let b = day_map(hours, days)[day];
            let sum = bytes_of(hours_of_day(hours, days, day));
            &&& b.start_ts_ms == day
            &&& b.up_v4_bytes == sum.up_v4_bytes
            &&& b.down_v4_bytes == sum.down_v4_bytes
            &&& b.up_v6_bytes == sum.up_v6_bytes
            &&& b.down_v6_bytes == sum.down_v6_bytes
        }),
    decreases hours.len(),
{
    if hours.len() > 0 {
        law_day_holds_its_hours(hours.drop_last(), days.drop_last(), day);
        let before = hours_of_day(hours.drop_last(), days.drop_last(), day);
        assert(before.push(hours.last()).drop_last() =~= before);
        assert(before.push(hours.last()).last() == hours.last());
        if before.len() == 0 {
            assert(bytes_of(before) == zero_quad());
        }
    }
}

} // verus!
