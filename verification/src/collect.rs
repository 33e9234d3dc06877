//! The steps of a snapshot that tell the traffic of interfaces. Rates are worked out outside, from the bytes that a step tells, and
//! handed to the next step.
use crate::bucket::{
    add_quad, counter_delta, delta_bytes, fill_quad, filled, sum_quad, zero_quad, CounterQuad,
};
use crate::deviceset::DeviceSet;
use crate::history::quad_at;
use crate::keys::{InterfaceTrafficKey, TrafficValue};
use crate::runtime::MonitorRuntime;
use crate::snapshot::{overview_views, InterfaceOverviewItem, OverviewModel};
use crate::system::has_text;
use crate::table::{Key, Table};
use crate::text::{copy_text, starts_with, text_eq, views};
use crate::topology::{find_index, iface_views, InterfaceModel, TopologySnapshot};
use vstd::prelude::*;

verus! {

/// The rates of the two directions of the two IP versions, in bits per second.
#[derive(Clone, Copy, Debug, PartialEq, Eq, Structural)]
pub struct Rates {
    pub up_v4: u64,
    pub down_v4: u64,
    pub up_v6: u64,
    pub down_v6: u64,
}

/// Rates that are to be smoothed: those that were shown last and those of now. Where
/// there are none of now they fade.
#[derive(Clone, Copy, Debug, PartialEq, Eq, Structural)]
pub struct RateJob {
    pub before: Rates,
    pub now: Option<Rates>,
}

/// The rates of traffic.
pub open spec fn rates_of(q: CounterQuad) -> Rates {
    Rates { up_v4: q.up_v4_bps, down_v4: q.down_v4_bps, up_v6: q.up_v6_bps, down_v6: q.down_v6_bps }
}

/// Traffic with other rates.
pub open spec fn with_rates(q: CounterQuad, r: Rates) -> CounterQuad {
    CounterQuad {
        up_v4_bps: r.up_v4,
        down_v4_bps: r.down_v4,
        up_v6_bps: r.up_v6,
        down_v6_bps: r.down_v6,
        ..q
    }
}

pub(crate) fn take_rates(q: &CounterQuad) -> (r: Rates)
    ensures
        r == rates_of(*q),
{
    Rates { up_v4: q.up_v4_bps, down_v4: q.down_v4_bps, up_v6: q.up_v6_bps, down_v6: q.down_v6_bps }
}

pub(crate) fn put_rates(q: &CounterQuad, r: &Rates) -> (s: CounterQuad)
    ensures
        s == with_rates(*q, *r),
{
    CounterQuad {
        up_v4_bps: r.up_v4,
        down_v4_bps: r.down_v4,
        up_v6_bps: r.up_v6,
        down_v6_bps: r.down_v6,
        ..*q
    }
}

/// How often a step that costs much is taken again.
pub const REFRESH_MS: u64 = 60_000;

/// Whether a step that was last taken at a time is due.
pub fn refresh_due(now_ms: u64, last_ms: u64) -> (r: bool)
    ensures
        r == (now_ms - last_ms >= REFRESH_MS),
{
    now_ms.saturating_sub(last_ms) >= REFRESH_MS
}

impl MonitorRuntime {
    /// Starts a snapshot: how many milliseconds went by since the last one, if there
    /// was one. Where offloaded traffic is not counted nothing is left of it.
    pub fn start_snapshot(&mut self, now_ms: u64, enable_ecm: bool) -> (r: Option<u64>)
        requires
            old(self).wf(),
        ensures
            final(self).wf(),
            r == match old(self).last_snapshot_ms {
                Some(t) => Some(
                    if now_ms >= t {
                        (now_ms - t) as u64
                    } else {
                        0
                    },
                ),
                None => None,
            },
            final(self).last_snapshot_ms == Some(now_ms),
            enable_ecm ==> *final(self) == (MonitorRuntime {
                last_snapshot_ms: Some(now_ms),
                ..*old(self)
            }),
            !enable_ecm ==> {
                &&& final(self).prev_ecm_bytes@ == Map::<(Seq<u32>, u8, u8, Seq<u8>), u64>::empty()
                &&& final(self).ecm_last_active_ms@ == Map::<
                    (Seq<u32>, u8, u8, Seq<u8>),
                    u64,
                >::empty()
                &&& final(self).ecm_active_devices@ == Set::<(u32, Seq<u8>)>::empty()
                &&& final(self).smoothed_lan_ecm_rates@ == Map::<u32, CounterQuad>::empty()
                &&& final(self).smoothed_wan_ecm_rates is None
                &&& *final(self) == (MonitorRuntime {
                    last_snapshot_ms: Some(now_ms),
                    prev_ecm_bytes: final(self).prev_ecm_bytes,
                    ecm_last_active_ms: final(self).ecm_last_active_ms,
                    ecm_active_devices: final(self).ecm_active_devices,
                    smoothed_lan_ecm_rates: final(self).smoothed_lan_ecm_rates,
                    smoothed_wan_ecm_rates: final(self).smoothed_wan_ecm_rates,
                    ..*old(self)
                })
            },
    {
        if !enable_ecm {
            self.prev_ecm_bytes = Table::new();
            self.ecm_last_active_ms = Table::new();
            self.ecm_active_devices = DeviceSet::empty();
            self.smoothed_lan_ecm_rates = Table::new();
            self.smoothed_wan_ecm_rates = None;
        }
        let elapsed = match self.last_snapshot_ms {
            Some(t) => Some(now_ms.saturating_sub(t)),
            None => None,
        };
        self.last_snapshot_ms = Some(now_ms);
        elapsed
    }
}

/// Whether an interface is watched: any is where none is named.
pub open spec fn is_monitored(monitor: Seq<Seq<char>>, name: Seq<char>) -> bool {
    monitor.len() == 0 || monitor.contains(name)
}

pub(crate) fn monitored(monitor: &Vec<String>, name: &str) -> (r: bool)
    ensures
        r == is_monitored(views(monitor@), name@),
{
    monitor.len() == 0 || has_text(monitor, name)
}

/// The watched interfaces, each with whether its devices are counted, which those
/// of interfaces to the outside are not.
pub open spec fn tracking_of(s: Seq<InterfaceModel>, monitor: Seq<Seq<char>>) -> Seq<(u32, u8)>
    decreases s.len(),
{
    if s.len() == 0 {
        Seq::empty()
    } else {
        let before = tracking_of(s.drop_last(), monitor);
        let x = s.last();
        if is_monitored(monitor, x.name) {
            before.push(
                (
                    x.ifindex,
                    if "wan"@.is_prefix_of(x.zone) {
                        0
                    } else {
                        1
                    },
                ),
            )
        } else {
            before
        }
    }
}

/// On which interfaces devices are counted.
pub fn device_tracking(topology: &TopologySnapshot, monitor_ifaces: &Vec<String>) -> (r: Vec<
    (u32, u8),
>)
    ensures
        r@ == tracking_of(topology@, views(monitor_ifaces@)),
{
    let list = topology.interfaces();
    let ghost s = topology@;
    let ghost mon = views(monitor_ifaces@);
    let mut r: Vec<(u32, u8)> = Vec::new();
    let mut i: usize = 0;
    assert(s.take(0) =~= Seq::empty());
    while i < list.len()
        invariant
            i <= list@.len(),
            s == iface_views(list@),
            mon == views(monitor_ifaces@),
            r@ == tracking_of(s.take(i as int), mon),
        decreases list@.len() - i,
    {
        assert(s.take(i + 1).drop_last() =~= s.take(i as int));
        assert(s.take(i + 1).last() == list@[i as int]@);
        let x = &list[i];
        if monitored(monitor_ifaces, x.name.as_str()) {
            let track: u8 = if starts_with(x.zone.as_str(), "wan") {
                0
            } else {
                1
            };
            r.push((x.ifindex, track));
        }
        i += 1;
    }
    assert(s.take(i as int) =~= s);
    r
}

/// The number of the last interface with a name.
pub open spec fn last_named(s: Seq<InterfaceModel>, name: Seq<char>) -> Option<u32>
    decreases s.len(),
{
    if s.len() == 0 {
        None
    } else if s.last().name == name {
        Some(s.last().ifindex)
    } else {
        last_named(s.drop_last(), name)
    }
}

pub(crate) fn find_last_named(topology: &TopologySnapshot, name: &str) -> (r: Option<u32>)
    ensures
        r == last_named(topology@, name@),
{
    let list = topology.interfaces();
    let ghost s = topology@;
    let mut i: usize = list.len();
    assert(s.take(i as int) =~= s);
    while i > 0
        invariant
            i <= list@.len(),
            s == topology@,
            s == iface_views(list@),
            last_named(s, name@) == last_named(s.take(i as int), name@),
        decreases i,
    {
        assert(s.take(i as int).drop_last() =~= s.take(i - 1));
        assert(s.take(i as int).last() == list@[i - 1]@);
        if text_eq(list[i - 1].name.as_str(), name) {
            return Some(list[i - 1].ifindex);
        }
        i -= 1;
    }
    None
}

/// The named interfaces that exist, each once, with their numbers.
pub open spec fn watched_of(names: Seq<Seq<char>>, topology: Seq<InterfaceModel>) -> Seq<
    (u32, Seq<char>),
>
    decreases names.len(),
{
    if names.len() == 0 {
        Seq::empty()
    } else {
        let before = watched_of(names.drop_last(), topology);
        if names.drop_last().contains(names.last()) {
            before
        } else {
            match last_named(topology, names.last()) {
                Some(ifindex) => before.push((ifindex, names.last())),
                None => before,
            }
        }
    }
}

/// Watched interfaces over plain values.
pub open spec fn watched_views(v: Seq<(u32, String)>) -> Seq<(u32, Seq<char>)> {
    Seq::new(v.len(), |i: int| (v[i].0, v[i].1@))
}

fn has_text_before(v: &Vec<String>, n: usize, s: &str) -> (r: bool)
    requires
        n <= v@.len(),
    ensures
        r == views(v@).take(n as int).contains(s@),
{
    let ghost t = views(v@).take(n as int);
    let mut i: usize = 0;
    while i < n
        invariant
            i <= n <= v@.len(),
            t == views(v@).take(n as int),
            forall|j: int| 0 <= j < i ==> t[j] != s@,
        decreases n - i,
    {
        assert(t[i as int] == v@[i as int]@);
        if text_eq(v[i].as_str(), s) {
            return true;
        }
        i += 1;
    }
    false
}

/// The named interfaces that exist, each once.
pub fn watched_interfaces(monitor_ifaces: &Vec<String>, topology: &TopologySnapshot) -> (r: Vec<
    (u32, String),
>)
    ensures
        watched_views(r@) == watched_of(views(monitor_ifaces@), topology@),
{
    let ghost names = views(monitor_ifaces@);
    let mut r: Vec<(u32, String)> = Vec::new();
    let mut i: usize = 0;
    assert(names.take(0) =~= Seq::empty());
    assert(watched_views(r@) =~= Seq::empty());
    while i < monitor_ifaces.len()
        invariant
            i <= monitor_ifaces@.len(),
            names == views(monitor_ifaces@),
            watched_views(r@) == watched_of(names.take(i as int), topology@),
        decreases monitor_ifaces@.len() - i,
    {
        assert(names.take(i + 1).drop_last() =~= names.take(i as int));
        assert(names.take(i + 1).last() == monitor_ifaces@[i as int]@);
        if !has_text_before(monitor_ifaces, i, monitor_ifaces[i].as_str()) {
            if let Some(ifindex) = find_last_named(topology, monitor_ifaces[i].as_str()) {
                let ghost before = watched_views(r@);
                r.push((ifindex, monitor_ifaces[i].clone()));
                assert(watched_views(r@) =~= before.push((ifindex, monitor_ifaces@[i as int]@)));
            }
        }
        i += 1;
    }
    assert(names.take(i as int) =~= names);
    r
}

/// How far a counter of an interface went.
#[derive(Clone, Copy, Debug, PartialEq, Eq, Structural)]
pub struct IfaceDelta {
    pub ifindex: u32,
    pub ip_version: u8,
    pub direction: u8,
    pub bytes: u64,
}

/// What a counter stood at, zero where that is not known.
pub open spec fn count_at<KV>(m: Map<KV, u64>, k: KV) -> u64 {
    if m.dom().contains(k) {
        m[k]
    } else {
        0
    }
}

/// What a counter stood at.
pub(crate) fn previous<K: Key>(t: &Table<K, u64>, k: &K) -> (r: u64)
    requires
        t.wf(),
    ensures
        r == count_at(t@, k@),
{
    match t.get(k) {
        Some(n) => *n,
        None => 0,
    }
}

/// How far the counters of an interface went, and what counters stand at then.
pub open spec fn iface_counted(
    stats: Seq<(InterfaceTrafficKey, TrafficValue)>,
    prev: Map<(u32, u8, u8, Seq<u8>), u64>,
    ifindex: u32,
) -> (Seq<IfaceDelta>, Map<(u32, u8, u8, Seq<u8>), u64>)
    decreases stats.len(),
{
    if stats.len() == 0 {
        (Seq::empty(), prev)
    } else {
        let (list, m) = iface_counted(stats.drop_last(), prev, ifindex);
        let (k, v) = stats.last();
        if k.ifindex != ifindex {
            (list, m)
        } else {
            (
                list.push(
                    IfaceDelta {
                        ifindex,
                        ip_version: k.ip_version,
                        direction: k.direction,
                        bytes: counter_delta(v.bytes, count_at(m, k@)),
                    },
                ),
                m.insert(k@, v.bytes),
            )
        }
    }
}

/// How far the counters of all watched interfaces went, and what counters stand at
/// then.
pub open spec fn ifaces_counted(
    watched: Seq<(u32, Seq<char>)>,
    stats: Seq<(InterfaceTrafficKey, TrafficValue)>,
    prev: Map<(u32, u8, u8, Seq<u8>), u64>,
) -> (Seq<IfaceDelta>, Map<(u32, u8, u8, Seq<u8>), u64>)
    decreases watched.len(),
{
    if watched.len() == 0 {
        (Seq::empty(), prev)
    } else {
        let (list, m) = ifaces_counted(watched.drop_last(), stats, prev);
        let (more, n) = iface_counted(stats, m, watched.last().0);
        (list + more, n)
    }
}

/// How far the counters of watched interfaces went since the last snapshot.
pub fn interface_deltas(
    watched: &Vec<(u32, String)>,
    stats: &Table<InterfaceTrafficKey, TrafficValue>,
    prev: &mut Table<InterfaceTrafficKey, u64>,
) -> (r: Vec<IfaceDelta>)
    requires
        old(prev).wf(),
    ensures
        final(prev).wf(),
        (r@, final(prev)@) == ifaces_counted(watched_views(watched@), stats.entries@, old(prev)@),
{
    let ghost p0 = prev@;
    let ghost ws = watched_views(watched@);
    let ghost es = stats.entries@;
    let mut r: Vec<IfaceDelta> = Vec::new();
    let mut i: usize = 0;
    assert(ws.take(0) =~= Seq::empty());
    while i < watched.len()
        invariant
            i <= watched@.len(),
            ws == watched_views(watched@),
            es == stats.entries@,
            prev.wf(),
            (r@, prev@) == ifaces_counted(ws.take(i as int), es, p0),
        decreases watched@.len() - i,
    {
        assert(ws.take(i + 1).drop_last() =~= ws.take(i as int));
        assert(ws.take(i + 1).last().0 == watched@[i as int].0);
        let ifindex = watched[i].0;
        let ghost list = r@;
        let ghost m = prev@;
        let mut j: usize = 0;
        assert(es.take(0) =~= Seq::empty());
        assert(list + iface_counted(es.take(0), m, ifindex).0 =~= list);
        while j < stats.entries.len()
            invariant
                j <= stats.entries@.len(),
                es == stats.entries@,
                prev.wf(),
                r@ == list + iface_counted(es.take(j as int), m, ifindex).0,
                prev@ == iface_counted(es.take(j as int), m, ifindex).1,
            decreases stats.entries@.len() - j,
        {
            assert(es.take(j + 1).drop_last() =~= es.take(j as int));
            let k = &stats.entries[j].0;
            let v = &stats.entries[j].1;
            if k.ifindex == ifindex {
                let ghost before = r@;
                let bytes = delta_bytes(v.bytes, previous(prev, k));
                prev.insert(*k, v.bytes);
                r.push(
                    IfaceDelta { ifindex, ip_version: k.ip_version, direction: k.direction, bytes },
                );
                assert(r@ =~= list + iface_counted(es.take(j + 1), m, ifindex).0);
            }
            j += 1;
        }
        assert(es.take(j as int) =~= es);
        i += 1;
    }
    assert(ws.take(i as int) =~= ws);
    r
}

/// The traffic of an interface, from how far its counters went and the rates.
pub open spec fn iface_metrics(deltas: Seq<IfaceDelta>, rates: Seq<u64>, ifindex: u32) -> CounterQuad
    decreases deltas.len(),
{
    if deltas.len() == 0 {
        zero_quad()
    } else {
        let q = iface_metrics(deltas.drop_last(), rates, ifindex);
        let d = deltas.last();
        if d.ifindex == ifindex {
            filled(q, d.ip_version, d.direction, d.bytes, rates[deltas.len() - 1])
        } else {
            q
        }
    }
}

fn sum_iface(deltas: &Vec<IfaceDelta>, rates: &Vec<u64>, ifindex: u32) -> (r: CounterQuad)
    requires
        deltas@.len() == rates@.len(),
    ensures
        r == iface_metrics(deltas@, rates@, ifindex),
{
    let mut q = CounterQuad::default();
    let mut i: usize = 0;
    assert(deltas@.take(0) =~= Seq::empty());
    while i < deltas.len()
        invariant
            i <= deltas@.len(),
            deltas@.len() == rates@.len(),
            q == iface_metrics(deltas@.take(i as int), rates@, ifindex),
        decreases deltas@.len() - i,
    {
        assert(deltas@.take(i + 1).drop_last() =~= deltas@.take(i as int));
        let d = &deltas[i];
        if d.ifindex == ifindex {
            fill_quad(d.ip_version, d.direction, &mut q, d.bytes, rates[i]);
        }
        i += 1;
    }
    assert(deltas@.take(i as int) =~= deltas@);
    q
}

/// The rows of watched interfaces and the totals of interfaces then.
pub open spec fn rows_built(
    watched: Seq<(u32, Seq<char>)>,
    deltas: Seq<IfaceDelta>,
    rates: Seq<u64>,
    topology: Seq<InterfaceModel>,
    totals: Map<u32, CounterQuad>,
) -> (Seq<OverviewModel>, Map<u32, CounterQuad>)
    decreases watched.len(),
{
    if watched.len() == 0 {
        (Seq::empty(), totals)
    } else {
        let (rows, m) = rows_built(watched.drop_last(), deltas, rates, topology, totals);
        let (ifindex, name) = watched.last();
        let metrics = iface_metrics(deltas, rates, ifindex);
        let total = sum_quad(quad_at(m, ifindex), metrics);
        (
            rows.push(
                OverviewModel {
                    ifindex,
                    ifname: name,
                    zone: match find_index(topology, ifindex) {
                        Some(x) => x.zone,
                        None => "unknown"@,
                    },
                    metrics,
                    cumulative: total,
                },
            ),
            m.insert(ifindex, total),
        )
    }
}

/// The total of an interface.
pub(crate) fn iface_total(t: &Table<u32, CounterQuad>, ifindex: u32) -> (r: CounterQuad)
    requires
        t.wf(),
    ensures
        r == quad_at(t@, ifindex),
{
    match t.get(&ifindex) {
        Some(q) => *q,
        None => CounterQuad::default(),
    }
}

/// The rows of watched interfaces. `rates` holds the rate of each of the `deltas`.
pub fn interface_rows(
    watched: &Vec<(u32, String)>,
    deltas: &Vec<IfaceDelta>,
    rates: &Vec<u64>,
    topology: &TopologySnapshot,
    totals: &mut Table<u32, CounterQuad>,
) -> (r: Vec<InterfaceOverviewItem>)
    requires
        deltas@.len() == rates@.len(),
        old(totals).wf(),
    ensures
        final(totals).wf(),
        (overview_views(r@), final(totals)@) == rows_built(
            watched_views(watched@),
            deltas@,
            rates@,
            topology@,
            old(totals)@,
        ),
{
    let ghost t0 = totals@;
    let ghost ws = watched_views(watched@);
    let mut r: Vec<InterfaceOverviewItem> = Vec::new();
    let mut i: usize = 0;
    assert(ws.take(0) =~= Seq::empty());
    assert(overview_views(r@) =~= Seq::empty());
    while i < watched.len()
        invariant
            i <= watched@.len(),
            deltas@.len() == rates@.len(),
            ws == watched_views(watched@),
            totals.wf(),
            (overview_views(r@), totals@) == rows_built(
                ws.take(i as int),
                deltas@,
                rates@,
                topology@,
                t0,
            ),
        decreases watched@.len() - i,
    {
        assert(ws.take(i + 1).drop_last() =~= ws.take(i as int));
        assert(ws.take(i + 1).last() == (watched@[i as int].0, watched@[i as int].1@));
        let ifindex = watched[i].0;
        let metrics = sum_iface(deltas, rates, ifindex);
        let mut total = iface_total(totals, ifindex);
        add_quad(&mut total, &metrics);
        totals.insert(ifindex, total);
        let zone = match topology.by_ifindex(ifindex) {
            Some(x) => x.zone.clone(),
            None => copy_text("unknown"),
        };
        let row = InterfaceOverviewItem {
            ifindex,
            ifname: watched[i].1.clone(),
            zone,
            metrics,
            cumulative: total,
        };
        let ghost before = overview_views(r@);
        let ghost rv = row@;
        r.push(row);
        assert(overview_views(r@) =~= before.push(rv));
        i += 1;
    }
    assert(ws.take(i as int) =~= ws);
    r
}

/// What is to be smoothed of the rows of interfaces.
pub open spec fn iface_jobs_of(rows: Seq<OverviewModel>, smoothed: Map<u32, CounterQuad>) -> Seq<
    RateJob,
> {
    Seq::new(
        rows.len(),
        |i: int|
            RateJob {
                before: rates_of(quad_at(smoothed, rows[i].ifindex)),
                now: Some(rates_of(rows[i].metrics)),
            },
    )
}

/// What is to be smoothed of the rows of interfaces.
pub fn interface_rate_jobs(
    rows: &Vec<InterfaceOverviewItem>,
    smoothed: &Table<u32, CounterQuad>,
) -> (r: Vec<RateJob>)
    requires
        smoothed.wf(),
    ensures
        r@ == iface_jobs_of(overview_views(rows@), smoothed@),
{
    let ghost all = iface_jobs_of(overview_views(rows@), smoothed@);
    let mut r: Vec<RateJob> = Vec::new();
    let mut i: usize = 0;
    while i < rows.len()
        invariant
            i <= rows@.len(),
            smoothed.wf(),
            all == iface_jobs_of(overview_views(rows@), smoothed@),
            r@ == all.take(i as int),
        decreases rows@.len() - i,
    {
        let last = iface_total(smoothed, rows[i].ifindex);
        r.push(RateJob { before: take_rates(&last), now: Some(take_rates(&rows[i].metrics)) });
        assert(all.take(i + 1) =~= all.take(i as int).push(all[i as int]));
        i += 1;
    }
    assert(all.take(i as int) =~= all);
    r
}

/// Rows with smoothed rates.
pub open spec fn rows_smoothed(rows: Seq<OverviewModel>, rates: Seq<Rates>) -> Seq<OverviewModel> {
    Seq::new(
        rows.len(),
        |i: int|
            OverviewModel { metrics: with_rates(rows[i].metrics, rates[i]), ..rows[i] },
    )
}

/// The smoothed rates that are remembered.
pub open spec fn rates_noted(
    rows: Seq<OverviewModel>,
    rates: Seq<Rates>,
    smoothed: Map<u32, CounterQuad>,
) -> Map<u32, CounterQuad>
    decreases rows.len(),
{
    if rows.len() == 0 {
        smoothed
    } else {
        let m = rates_noted(rows.drop_last(), rates, smoothed);
        let k = rows.last().ifindex;
        m.insert(k, with_rates(quad_at(m, k), rates[rows.len() - 1]))
    }
}

/// Puts smoothed rates into the rows of interfaces and remembers them.
pub fn set_interface_rates(
    rows: &mut Vec<InterfaceOverviewItem>,
    smoothed: &mut Table<u32, CounterQuad>,
    rates: &Vec<Rates>,
)
    requires
        old(smoothed).wf(),
        rates@.len() == old(rows)@.len(),
    ensures
        final(smoothed).wf(),
        overview_views(final(rows)@) == rows_smoothed(overview_views(old(rows)@), rates@),
        final(smoothed)@ == rates_noted(overview_views(old(rows)@), rates@, old(smoothed)@),
{
    let ghost all = overview_views(rows@);
    let ghost s0 = smoothed@;
    let mut i: usize = 0;
    assert(all.take(0) =~= Seq::empty());
    while i < rows.len()
        invariant
            i <= rows@.len(),
            rates@.len() == rows@.len(),
            all.len() == rows@.len(),
            smoothed.wf(),
            forall|j: int|
                0 <= j < i ==> (#[trigger] rows@[j])@ == (OverviewModel {
                    metrics: with_rates(all[j].metrics, rates@[j]),
                    ..all[j]
                }),
            forall|j: int| i <= j < rows@.len() ==> (#[trigger] rows@[j])@ == all[j],
            smoothed@ == rates_noted(all.take(i as int), rates@, s0),
        decreases rows@.len() - i,
    {
        assert(all.take(i + 1).drop_last() =~= all.take(i as int));
        assert(all.take(i + 1).last() == all[i as int]);
        assert(rows@[i as int]@ == all[i as int]);
        let ifindex = rows[i].ifindex;
        let last = iface_total(smoothed, ifindex);
        smoothed.insert(ifindex, put_rates(&last, &rates[i]));
        let metrics = put_rates(&rows[i].metrics, &rates[i]);
        let slot = &mut rows[i];
        slot.metrics = metrics;
        i += 1;
    }
    assert(all.take(i as int) =~= all);
    assert(overview_views(rows@) =~= rows_smoothed(all, rates@));
}

} // verus!
