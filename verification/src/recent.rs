//! The recent samples of interfaces and of devices.
use crate::bucket::{add_quad, sum_quad, zero_quad, CounterQuad, HistoryDirection, HistoryTrafficType};
use crate::history::{drop_device, has_device, sampled_row, without_device};
use crate::series::{extend_series, extended, series_at, series_of};
use crate::snapshot::{DeviceListItem, DeviceSeriesKey, InterfaceOverviewItem, SnapshotData};
use crate::sort::{
    arrange, law_arranged_is_ordered, lemma_same_distinct, lemma_same_members, Ranked,
};
use crate::table::Table;
use crate::text::{eq_ignore_ascii_case, lowered};
use std::collections::VecDeque;
use vstd::prelude::*;

verus! {

/// What was measured at a moment.
#[derive(Clone, Copy, Debug, PartialEq, Eq, Structural)]
pub struct HistoryPoint {
    pub ts_ms: u64,
    pub metrics: CounterQuad,
    pub cumulative: CounterQuad,
}

/// A measurement as it is reported.
#[derive(Clone, Copy, Debug, PartialEq, Eq, Structural)]
pub struct HistorySample {
    pub ts_ms: u64,
    pub up_v4_bps: u64,
    pub up_v6_bps: u64,
    pub down_v4_bps: u64,
    pub down_v6_bps: u64,
    pub up_v4_bytes: u64,
    pub up_v6_bytes: u64,
    pub down_v4_bytes: u64,
    pub down_v6_bytes: u64,
    pub up_v4_bytes_cumulative: u64,
    pub up_v6_bytes_cumulative: u64,
    pub down_v4_bytes_cumulative: u64,
    pub down_v6_bytes_cumulative: u64,
}

/// The report of a measurement.
pub open spec fn sample_of(ts_ms: u64, m: CounterQuad, c: CounterQuad) -> HistorySample {
    HistorySample {
        ts_ms,
        up_v4_bps: m.up_v4_bps,
        up_v6_bps: m.up_v6_bps,
        down_v4_bps: m.down_v4_bps,
        down_v6_bps: m.down_v6_bps,
        up_v4_bytes: m.up_v4_bytes,
        up_v6_bytes: m.up_v6_bytes,
        down_v4_bytes: m.down_v4_bytes,
        down_v6_bytes: m.down_v6_bytes,
        up_v4_bytes_cumulative: c.up_v4_bytes,
        up_v6_bytes_cumulative: c.up_v6_bytes,
        down_v4_bytes_cumulative: c.down_v4_bytes,
        down_v6_bytes_cumulative: c.down_v6_bytes,
    }
}

fn report(ts_ms: u64, m: &CounterQuad, c: &CounterQuad) -> (r: HistorySample)
    ensures
        r == sample_of(ts_ms, *m, *c),
{
    HistorySample {
        ts_ms,
        up_v4_bps: m.up_v4_bps,
        up_v6_bps: m.up_v6_bps,
        down_v4_bps: m.down_v4_bps,
        down_v6_bps: m.down_v6_bps,
        up_v4_bytes: m.up_v4_bytes,
        up_v6_bytes: m.up_v6_bytes,
        down_v4_bytes: m.down_v4_bytes,
        down_v6_bytes: m.down_v6_bytes,
        up_v4_bytes_cumulative: c.up_v4_bytes,
        up_v6_bytes_cumulative: c.up_v6_bytes,
        down_v4_bytes_cumulative: c.down_v4_bytes,
        down_v6_bytes_cumulative: c.down_v6_bytes,
    }
}

/// The reports of a series.
pub open spec fn samples_of(s: Seq<HistoryPoint>) -> Seq<HistorySample> {
    Seq::new(s.len(), |i: int| sample_of(s[i].ts_ms, s[i].metrics, s[i].cumulative))
}

/// The samples that are kept, by interface and by device, from the oldest on.
#[derive(Debug)]
pub struct TrafficHistory {
    pub window_points: usize,
    pub iface_series: Table<u32, VecDeque<HistoryPoint>>,
    pub device_series: Table<DeviceSeriesKey, VecDeque<HistoryPoint>>,
}

/// The kept samples over plain values.
#[verifier::ext_equal]
pub struct RecentModel {
    pub window: nat,
    pub iface: Map<u32, Seq<HistoryPoint>>,
    pub device: Map<(u32, Seq<char>), Seq<HistoryPoint>>,
}

impl View for TrafficHistory {
    type V = RecentModel;

    open spec fn view(&self) -> RecentModel {
        RecentModel {
            window: self.window_points as nat,
            iface: series_of(self.iface_series@),
            device: series_of(self.device_series@),
        }
    }
}

/// The interface series after the rows of a snapshot.
pub open spec fn ifaces_noted(
    m: Map<u32, Seq<HistoryPoint>>,
    rows: Seq<InterfaceOverviewItem>,
    ts_ms: u64,
    window: nat,
) -> Map<u32, Seq<HistoryPoint>>
    decreases rows.len(),
{
    if rows.len() == 0 {
        m
    } else {
        let x = rows.last();
        extended(
            ifaces_noted(m, rows.drop_last(), ts_ms, window),
            x.ifindex,
            HistoryPoint { ts_ms, metrics: x.metrics, cumulative: x.cumulative },
            window,
        )
    }
}

/// The device series after the rows of a snapshot.
pub open spec fn devices_noted(
    m: Map<(u32, Seq<char>), Seq<HistoryPoint>>,
    rows: Seq<DeviceListItem>,
    ts_ms: u64,
    window: nat,
) -> Map<(u32, Seq<char>), Seq<HistoryPoint>>
    decreases rows.len(),
{
    if rows.len() == 0 {
        m
    } else {
        let x = rows.last();
        let before = devices_noted(m, rows.drop_last(), ts_ms, window);
        if sampled_row(x) {
            extended(
                before,
                (x.ifindex, x.mac@),
                HistoryPoint { ts_ms, metrics: x.metrics, cumulative: x.cumulative },
                window,
            )
        } else {
            before
        }
    }
}

/// Whether a series is asked for: that of a device on an interface, or on any.
pub open spec fn asked_series(k: (u32, Seq<char>), ifindex: Option<u32>, mac: Seq<char>) -> bool {
    &&& ifindex matches Some(i) ==> k.0 == i
    &&& lowered(k.1) == lowered(mac)
}

/// The points of the series that are asked for.
pub open spec fn asked_points(
    entries: Seq<(DeviceSeriesKey, VecDeque<HistoryPoint>)>,
    ifindex: Option<u32>,
    mac: Seq<char>,
) -> Seq<HistoryPoint>
    decreases entries.len(),
{
    if entries.len() == 0 {
        Seq::empty()
    } else {
        let before = asked_points(entries.drop_last(), ifindex, mac);
        let (k, q) = entries.last();
        if asked_series(k@, ifindex, mac) {
            before + q@
        } else {
            before
        }
    }
}

/// Points by their moments; those of one moment are added up.
pub open spec fn merged_points(s: Seq<HistoryPoint>) -> Map<u64, (CounterQuad, CounterQuad)>
    decreases s.len(),
{
    if s.len() == 0 {
        Map::empty()
    } else {
        let m = merged_points(s.drop_last());
        let p = s.last();
        let (a, b) = if m.dom().contains(p.ts_ms) {
            m[p.ts_ms]
        } else {
            (zero_quad(), zero_quad())
        };
        m.insert(p.ts_ms, (sum_quad(a, p.metrics), sum_quad(b, p.cumulative)))
    }
}

/// The list reports what a map holds, in the order of the moments.
pub open spec fn lists_samples(
    v: Seq<HistorySample>,
    m: Map<u64, (CounterQuad, CounterQuad)>,
) -> bool {
    &&& v.len() == m.len()
    &&& forall|i: int|
        0 <= i < v.len() ==> m.dom().contains((#[trigger] v[i]).ts_ms) && v[i] == sample_of(
            v[i].ts_ms,
            m[v[i].ts_ms].0,
            m[v[i].ts_ms].1,
        )
    &&& forall|i: int, j: int|
        0 <= i < j < v.len() ==> (#[trigger] v[i]).ts_ms < (#[trigger] v[j]).ts_ms
}

impl Ranked for HistorySample {
    open spec fn precedes(self, other: Self) -> bool {
        self.ts_ms < other.ts_ms
    }

    proof fn asymmetric(a: Self, b: Self) {
    }

    proof fn cotransitive(a: Self, b: Self, c: Self) {
    }

    fn comes_before(&self, other: &Self) -> (r: bool) {
        self.ts_ms < other.ts_ms
    }
}

fn list_samples(t: &Table<u64, (CounterQuad, CounterQuad)>) -> (r: Vec<HistorySample>)
    requires
        t.wf(),
    ensures
        lists_samples(r@, t@),
{
    let mut list: Vec<HistorySample> = Vec::new();
    let mut i: usize = 0;
    while i < t.entries.len()
        invariant
            i <= t.entries@.len(),
            list@.len() == i,
            forall|j: int|
                0 <= j < i ==> #[trigger] list@[j] == sample_of(
                    t.entries@[j].0,
                    t.entries@[j].1.0,
                    t.entries@[j].1.1,
                ),
        decreases t.entries@.len() - i,
    {
        let e = &t.entries[i];
        list.push(report(e.0, &e.1.0, &e.1.1));
        i += 1;
    }
    let ghost all = list@;
    let r = arrange(list);
    proof {
        t.lemma_len();
        law_arranged_is_ordered(all);
        assert forall|j: int| 0 <= j < all.len() implies t@.dom().contains(
            (#[trigger] all[j]).ts_ms,
        ) && all[j] == sample_of(all[j].ts_ms, t@[all[j].ts_ms].0, t@[all[j].ts_ms].1) by {
            t.lemma_entry(j);
        }
        assert(all.no_duplicates()) by {
            assert forall|a: int, b: int| 0 <= a < b < all.len() implies all[a] != all[b] by {
                assert(t.entries@[a].0@ != t.entries@[b].0@);
            }
        }
        lemma_same_distinct(r@, all);
        assert forall|j: int| 0 <= j < r@.len() implies t@.dom().contains(
            (#[trigger] r@[j]).ts_ms,
        ) && r@[j] == sample_of(r@[j].ts_ms, t@[r@[j].ts_ms].0, t@[r@[j].ts_ms].1) by {
            lemma_same_members(r@, all, j);
        }
        assert forall|a: int, b: int| 0 <= a < b < r@.len() implies (#[trigger] r@[a]).ts_ms < (
        #[trigger] r@[b]).ts_ms by {
            assert(!r@[b].precedes(r@[a]));
            if r@[a].ts_ms == r@[b].ts_ms {
                assert(r@[a] == r@[b]);
            }
        }
    }
    r
}

fn merge_points(
    merged: &mut Table<u64, (CounterQuad, CounterQuad)>,
    q: &VecDeque<HistoryPoint>,
    Ghost(done): Ghost<Seq<HistoryPoint>>,
)
    requires
        old(merged).wf(),
        old(merged)@ == merged_points(done),
    ensures
        final(merged).wf(),
        final(merged)@ == merged_points(done + q@),
{
    let mut i: usize = 0;
    assert(done + q@.take(0) =~= done);
    while i < q.len()
        invariant
            i <= q@.len(),
            merged.wf(),
            merged@ == merged_points(done + q@.take(i as int)),
        decreases q@.len() - i,
    {
        assert((done + q@.take(i + 1)).drop_last() =~= done + q@.take(i as int));
        let p = &q[i];
        let (mut a, mut b) = match merged.get(&p.ts_ms) {
            Some(e) => *e,
            None => (CounterQuad::default(), CounterQuad::default()),
        };
        add_quad(&mut a, &p.metrics);
        add_quad(&mut b, &p.cumulative);
        merged.insert(p.ts_ms, (a, b));
        i += 1;
    }
    assert(q@.take(i as int) =~= q@);
}

impl TrafficHistory {
    pub open spec fn wf(self) -> bool {
        &&& self.iface_series.wf()
        &&& self.device_series.wf()
        &&& self.window_points >= 1
    }

    /// A history that keeps at most so many samples of each series, and at least
    /// one.
    pub fn new(window_points: usize) -> (r: Self)
        ensures
            r.wf(),
            r@ == (RecentModel {
                window: if window_points == 0 {
                    1
                } else {
                    window_points as nat
                },
                iface: Map::empty(),
                device: Map::empty(),
            }),
    {
        let r = TrafficHistory {
            window_points: if window_points == 0 {
                1
            } else {
                window_points
            },
            iface_series: Table::new(),
            device_series: Table::new(),
        };
        assert(r@.iface =~= Map::<u32, Seq<HistoryPoint>>::empty());
        assert(r@.device =~= Map::<(u32, Seq<char>), Seq<HistoryPoint>>::empty());
        r
    }

    /// Takes out the samples of a device; tells whether there were any.
    pub fn remove_device(&mut self, ifindex: u32, mac: &str) -> (r: bool)
        requires
            old(self).wf(),
        ensures
            final(self).wf(),
            final(self)@ == (RecentModel {
                device: without_device(old(self)@.device, ifindex, mac@),
                ..old(self)@
            }),
            r == has_device(old(self)@.device, ifindex, mac@),
    {
        let ghost m = self.device_series@;
        let ghost d = self@.device;
        let r = drop_device(&mut self.device_series, ifindex, mac);
        assert(self@.device =~= without_device(d, ifindex, mac@));
        proof {
            assert(m.dom() =~= d.dom());
            if has_device(m, ifindex, mac@) {
                let k = choose|k: (u32, Seq<char>)| #[trigger]
                    m.dom().contains(k) && crate::history::is_device(k, ifindex, mac@);
                assert(d.dom().contains(k));
            }
            if has_device(d, ifindex, mac@) {
                let k = choose|k: (u32, Seq<char>)| #[trigger]
                    d.dom().contains(k) && crate::history::is_device(k, ifindex, mac@);
                assert(m.dom().contains(k));
            }
        }
        r
    }

    /// Adds a snapshot: a sample of each interface, and of each device that is
    /// online or had traffic.
    pub fn ingest_snapshot(&mut self, snapshot: &SnapshotData)
        requires
            old(self).wf(),
        ensures
            final(self).wf(),
            final(self)@ == (RecentModel {
                iface: ifaces_noted(
                    old(self)@.iface,
                    snapshot.interfaces@,
                    snapshot.timestamp_ms,
                    old(self)@.window,
                ),
                device: devices_noted(
                    old(self)@.device,
                    snapshot.devices@,
                    snapshot.timestamp_ms,
                    old(self)@.window,
                ),
                ..old(self)@
            }),
    {
        let ghost h = self@;
        let ghost xs = snapshot.interfaces@;
        let ghost ds = snapshot.devices@;
        let mut i: usize = 0;
        assert(xs.take(0) =~= Seq::empty());
        while i < snapshot.interfaces.len()
            invariant
                i <= snapshot.interfaces@.len(),
                xs == snapshot.interfaces@,
                self.wf(),
                self@.window == h.window,
                self@.device == h.device,
                self@.iface == ifaces_noted(
                    h.iface,
                    xs.take(i as int),
                    snapshot.timestamp_ms,
                    h.window,
                ),
            decreases snapshot.interfaces@.len() - i,
        {
            assert(xs.take(i + 1).drop_last() =~= xs.take(i as int));
            let x = &snapshot.interfaces[i];
            extend_series(
                &mut self.iface_series,
                x.ifindex,
                HistoryPoint {
                    ts_ms: snapshot.timestamp_ms,
                    metrics: x.metrics,
                    cumulative: x.cumulative,
                },
                self.window_points,
            );
            i += 1;
        }
        assert(xs.take(i as int) =~= xs);
        let ghost mid = self@;
        let mut i: usize = 0;
        assert(ds.take(0) =~= Seq::empty());
        while i < snapshot.devices.len()
            invariant
                i <= snapshot.devices@.len(),
                ds == snapshot.devices@,
                self.wf(),
                self@.window == h.window,
                self@.iface == mid.iface,
                self@.device == devices_noted(
                    h.device,
                    ds.take(i as int),
                    snapshot.timestamp_ms,
                    h.window,
                ),
            decreases snapshot.devices@.len() - i,
        {
            assert(ds.take(i + 1).drop_last() =~= ds.take(i as int));
            let x = &snapshot.devices[i];
            if x.online || !x.metrics.is_empty() {
                extend_series(
                    &mut self.device_series,
                    DeviceSeriesKey { ifindex: x.ifindex, mac: x.mac.clone() },
                    HistoryPoint {
                        ts_ms: snapshot.timestamp_ms,
                        metrics: x.metrics,
                        cumulative: x.cumulative,
                    },
                    self.window_points,
                );
            }
            i += 1;
        }
        assert(ds.take(i as int) =~= ds);
    }

    /// The samples of an interface. Both IP versions and both directions are told.
    pub fn query_iface(
        &self,
        ifindex: u32,
        _traffic_type: HistoryTrafficType,
        _direction: HistoryDirection,
    ) -> (r: Vec<HistorySample>)
        requires
            self.wf(),
        ensures
            r@ == samples_of(series_at(self@.iface, ifindex)),
    {
        let mut r: Vec<HistorySample> = Vec::new();
        let ghost all = samples_of(series_at(self@.iface, ifindex));
        if let Some(q) = self.iface_series.get(&ifindex) {
            let mut i: usize = 0;
            while i < q.len()
                invariant
                    i <= q@.len(),
                    all == samples_of(q@),
                    r@ == all.take(i as int),
                decreases q@.len() - i,
            {
                let p = &q[i];
                r.push(report(p.ts_ms, &p.metrics, &p.cumulative));
                assert(all.take(i + 1) =~= all.take(i as int).push(all[i as int]));
                i += 1;
            }
            assert(all.take(i as int) =~= all);
        } else {
            assert(r@ =~= all);
        }
        r
    }

    /// The samples of a device on an interface, or on all that it was seen on,
    /// where those of one moment are added up. Both IP versions and both directions
    /// are told.
    pub fn query_device(
        &self,
        ifindex: Option<u32>,
        mac: &str,
        _traffic_type: HistoryTrafficType,
        _direction: HistoryDirection,
    ) -> (r: Vec<HistorySample>)
        requires
            self.wf(),
        ensures
            lists_samples(
                r@,
                merged_points(asked_points(self.device_series.entries@, ifindex, mac@)),
            ),
    {
        let mut merged: Table<u64, (CounterQuad, CounterQuad)> = Table::new();
        let t = &self.device_series;
        let ghost es = t.entries@;
        let mut i: usize = 0;
        assert(es.take(0) =~= Seq::empty());
        while i < t.entries.len()
            invariant
                i <= t.entries@.len(),
                es == t.entries@,
                merged.wf(),
                merged@ == merged_points(asked_points(es.take(i as int), ifindex, mac@)),
            decreases t.entries@.len() - i,
        {
            assert(es.take(i + 1).drop_last() =~= es.take(i as int));
            let key = &t.entries[i].0;
            let here = match ifindex {
                Some(x) => key.ifindex == x,
                None => true,
            };
            if here && eq_ignore_ascii_case(key.mac.as_str(), mac) {
                merge_points(
                    &mut merged,
                    &t.entries[i].1,
                    Ghost(asked_points(es.take(i as int), ifindex, mac@)),
                );
            }
            i += 1;
        }
        assert(es.take(i as int) =~= es);
        list_samples(&merged)
    }
}

/// How many snapshots a window of minutes holds, at one each second; it holds one at
/// least. Where that is more than the machine can count, the low bits of it are left.
pub fn history_points(minutes: u32) -> (r: usize)
    ensures
        r == (if minutes == 0 {
            1int
        } else {
            minutes * 60
        }) as usize,
        minutes * 60 <= usize::MAX && minutes > 0 ==> r == minutes * 60,
{
    let seconds: u64 = minutes as u64 * 60;
    let points: u64 = if seconds == 0 {
        1
    } else {
        seconds
    };
    points as usize
}

/// No series ever grows over the window, neither of an interface nor of a device.
pub proof fn law_window_is_kept(
    ifaces: Map<u32, Seq<HistoryPoint>>,
    iface_rows: Seq<InterfaceOverviewItem>,
    devices: Map<(u32, Seq<char>), Seq<HistoryPoint>>,
    device_rows: Seq<DeviceListItem>,
    ts_ms: u64,
    window: nat,
    i: u32,
    d: (u32, Seq<char>),
)
    requires
        series_at(ifaces, i).len() <= window,
        series_at(devices, d).len() <= window,
    ensures
        series_at(ifaces_noted(ifaces, iface_rows, ts_ms, window), i).len() <= window,
        series_at(devices_noted(devices, device_rows, ts_ms, window), d).len() <= window,
    decreases iface_rows.len() + device_rows.len(),
{
    if iface_rows.len() > 0 {
        law_window_is_kept(
            ifaces,
            iface_rows.drop_last(),
            devices,
            device_rows,
            ts_ms,
            window,
            i,
            d,
        );
    }
    if device_rows.len() > 0 {
        law_window_is_kept(
            ifaces,
            iface_rows,
            devices,
            device_rows.drop_last(),
            ts_ms,
            window,
            i,
            d,
        );
    }
}

} // verus!
