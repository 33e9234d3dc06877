//! A snapshot of all traffic. It takes three steps, since rates are worked out between
//! them: the counters are read on, rows are drafted with the rates of now, and the
//! snapshot is finished with smoothed rates.
use crate::bucket::{zero_quad, CounterQuad};
use crate::collect::{
    iface_jobs_of, ifaces_counted, interface_deltas, interface_rate_jobs, interface_rows,
    rates_noted, rates_of, rows_built, rows_smoothed, set_interface_rates, watched_interfaces,
    watched_of, watched_views, with_rates, IfaceDelta, RateJob, Rates,
};
use crate::dnsrec::copy_texts;
use crate::history::{quad_at, str_view};
use crate::hosts::names_by;
use crate::interfaces::texts_by;
use crate::keys::{DeviceTrafficKey, EcmTrafficKey, InterfaceTrafficKey, TrafficValue};
use crate::offload::{
    amounts_of, attribute_flows, attributed, count_flows, fade_jobs, fade_jobs_of, fade_rates, faded,
    flow_views, flows_counted, flows_kept, inject_flows, injected, key_views, lan_jobs_of,
    lan_rate_jobs, lan_smoothed, no_shares, owners_there, owners_with, set_lan_rates,
    set_wan_rates, wan_rate_job, with_outside_row, zone_iface, AmountModel, Amounts, ShareModel,
    Shares,
};
use crate::rows::{
    add_device_totals, counted_views, device_deltas, device_jobs_of, device_rate_jobs,
    device_rates_noted, devices_counted, fill_devices, group_neighbors, grouped, known_with,
    list_devices, offline_rows, online_devices, online_rows, remember_devices, row_seq, rows_by,
    rows_filled, rows_totalled, set_device_rates, shown_metrics, totals_with,
};
use crate::runtime::{known_by, KnownModel, MonitorRuntime};
use crate::snapshot::{
    device_views, overview_views, DeviceListItem, DeviceModel, InterfaceOverviewItem,
    OverviewModel, SnapshotData,
};
use crate::sort::ordered;
use crate::system::{bytes_opt, list_neighbors_filtered, neighbors_of};
use crate::table::Table;
use crate::text::views;
use crate::topology::{iface_views, InterfaceModel, TopologySnapshot};
use vstd::prelude::*;

verus! {

/// The subnets of interfaces by name; of two interfaces with one name the later one
/// counts.
pub open spec fn subnets_by_name(s: Seq<InterfaceModel>) -> Map<Seq<char>, Seq<Seq<char>>>
    decreases s.len(),
{
    if s.len() == 0 {
        Map::empty()
    } else {
        subnets_by_name(s.drop_last()).insert(
            s.last().name,
            s.last().ipv4_cidrs + s.last().ipv6_cidrs,
        )
    }
}

/// The subnets of the interfaces by their names.
pub fn subnet_map(topology: &TopologySnapshot) -> (r: Table<String, Vec<String>>)
    ensures
        r.wf(),
        texts_by(r@) == subnets_by_name(topology@),
{
    let ghost s = topology@;
    let list = topology.interfaces();
    let mut t: Table<String, Vec<String>> = Table::new();
    let mut i: usize = 0;
    assert(s.take(0) =~= Seq::empty());
    assert(texts_by(t@) =~= Map::empty());
    while i < list.len()
        invariant
            i <= list@.len(),
            s == iface_views(list@),
            t.wf(),
            texts_by(t@) == subnets_by_name(s.take(i as int)),
        decreases list@.len() - i,
    {
        assert(s.take(i + 1).drop_last() =~= s.take(i as int));
        assert(s.take(i + 1).last() == list@[i as int]@);
        let ghost before = t@;
        let mut cidrs = copy_texts(&list[i].ipv4_cidrs);
        let mut more = copy_texts(&list[i].ipv6_cidrs);
        let ghost a = cidrs@;
        let ghost b = more@;
        cidrs.append(&mut more);
        let ghost cv = cidrs@;
        assert(views(cv) =~= views(a) + views(b));
        t.insert(list[i].name.clone(), cidrs);
        assert(texts_by(t@) =~= texts_by(before).insert(list@[i as int].name@, views(cv)));
        i += 1;
    }
    assert(s.take(i as int) =~= s);
    t
}

/// What is read for a snapshot: the counters of interfaces, devices and offloaded
/// flows, the text of the ARP table and the printed IPv6 neighbors.
pub struct Readings<'a> {
    pub ifaces: Table<InterfaceTrafficKey, TrafficValue>,
    pub devices: Table<DeviceTrafficKey, TrafficValue>,
    pub flows: Table<EcmTrafficKey, TrafficValue>,
    pub arp: Option<&'a str>,
    pub neigh: Option<&'a [u8]>,
}

/// How far the counters went since the last snapshot, and the rows of the devices
/// that are there. `any_flow` tells whether there are counters of offloaded flows,
/// and `idle` are the flows that are counted no longer.
pub struct Counts {
    pub watched: Vec<(u32, String)>,
    pub ifaces: Vec<IfaceDelta>,
    pub rows: Table<(u32, [u8; 6]), DeviceListItem>,
    pub devices: Vec<(DeviceTrafficKey, u64)>,
    pub any_flow: bool,
    pub flows: Vec<(EcmTrafficKey, u64)>,
    pub idle: Vec<EcmTrafficKey>,
}

/// Reads the counters on.
pub fn count_traffic(
    runtime: &mut MonitorRuntime,
    topology: &TopologySnapshot,
    monitor_ifaces: &Vec<String>,
    readings: &Readings,
    now_ms: u64,
) -> (r: Counts)
    requires
        old(runtime).wf(),
        readings.flows.wf(),
    ensures
        final(runtime).wf(),
        watched_views(r.watched@) == watched_of(views(monitor_ifaces@), topology@),
        (r.ifaces@, final(runtime).prev_iface_bytes@) == ifaces_counted(
            watched_of(views(monitor_ifaces@), topology@),
            readings.ifaces.entries@,
            old(runtime).prev_iface_bytes@,
        ),
        r.rows.wf(),
        rows_by(r.rows@) == online_rows(
            grouped(
                neighbors_of(
                    str_view(readings.arp),
                    bytes_opt(readings.neigh),
                    views(monitor_ifaces@),
                    subnets_by_name(topology@),
                ),
            ),
            topology@,
            views(monitor_ifaces@),
            known_by(old(runtime).device_registry.entries@),
            names_by(old(runtime).cached_hostnames@),
            now_ms,
        ),
        (counted_views(r.devices@), final(runtime).prev_device_bytes@) == devices_counted(
            readings.devices.entries@,
            r.rows@.dom(),
            old(runtime).prev_device_bytes@,
        ),
        r.any_flow == (readings.flows.entries@.len() > 0),
        ({
            let f = flows_counted(
                readings.flows.entries@,
                old(runtime).prev_ecm_bytes@,
                old(runtime).ecm_last_active_ms@,
                now_ms,
            );
            let there = readings.flows@.dom();
            &&& flow_views(r.flows@) == f.counted
            &&& key_views(r.idle@) == f.idle
            &&& final(runtime).prev_ecm_bytes@ == if r.any_flow {
                flows_kept(f.prev, there, f.idle)
            } else {
                old(runtime).prev_ecm_bytes@
            }
            &&& final(runtime).ecm_last_active_ms@ == if r.any_flow {
                flows_kept(f.active, there, f.idle)
            } else {
                old(runtime).ecm_last_active_ms@
            }
        }),
        *final(runtime) == (MonitorRuntime {
            prev_iface_bytes: final(runtime).prev_iface_bytes,
            prev_device_bytes: final(runtime).prev_device_bytes,
            prev_ecm_bytes: final(runtime).prev_ecm_bytes,
            ecm_last_active_ms: final(runtime).ecm_last_active_ms,
            ..*old(runtime)
        }),
{
    let watched = watched_interfaces(monitor_ifaces, topology);
    let ifaces = interface_deltas(&watched, &readings.ifaces, &mut runtime.prev_iface_bytes);
    let subnets = subnet_map(topology);
    let neighbors = list_neighbors_filtered(monitor_ifaces, &subnets, readings.arp, readings.neigh);
    let groups = group_neighbors(&neighbors);
    let rows = online_devices(
        &groups,
        topology,
        monitor_ifaces,
        &runtime.device_registry.entries,
        &runtime.cached_hostnames,
        now_ms,
    );
    let devices = device_deltas(&rows, &readings.devices, &mut runtime.prev_device_bytes);
    let counted = count_flows(
        &readings.flows,
        &mut runtime.prev_ecm_bytes,
        &mut runtime.ecm_last_active_ms,
        now_ms,
    );
    Counts {
        watched,
        ifaces,
        rows,
        devices,
        any_flow: readings.flows.len() > 0,
        flows: counted.counted,
        idle: counted.idle,
    }
}

/// Two lists of rows tell of the same devices; only their traffic may differ.
pub open spec fn same_devices(
    a: Seq<((u32, [u8; 6]), DeviceListItem)>,
    b: Seq<((u32, [u8; 6]), DeviceListItem)>,
) -> bool {
    &&& a.len() == b.len()
    &&& forall|i: int|
        0 <= i < a.len() ==> (#[trigger] a[i]).0@ == b[i].0@ && a[i].1@ == (DeviceModel {
            metrics: a[i].1@.metrics,
            cumulative: a[i].1@.cumulative,
            ..b[i].1@
        })
}

proof fn lemma_same_owners(
    a: Seq<((u32, [u8; 6]), DeviceListItem)>,
    b: Seq<((u32, [u8; 6]), DeviceListItem)>,
)
    requires
        same_devices(a, b),
    ensures
        owners_there(a) == owners_there(b),
    decreases a.len(),
{
    if a.len() > 0 {
        assert(a[a.len() - 1].0@ == b[a.len() - 1].0@);
        assert(same_devices(a.drop_last(), b.drop_last()));
        lemma_same_owners(a.drop_last(), b.drop_last());
    }
}

proof fn lemma_same_known(
    known: Map<(u32, Seq<u8>), KnownModel>,
    a: Seq<((u32, [u8; 6]), DeviceListItem)>,
    b: Seq<((u32, [u8; 6]), DeviceListItem)>,
    now_ms: u64,
)
    requires
        same_devices(a, b),
    ensures
        known_with(known, a, now_ms) == known_with(known, b, now_ms),
    decreases a.len(),
{
    if a.len() > 0 {
        assert(a[a.len() - 1].0@ == b[a.len() - 1].0@);
        assert(same_devices(a.drop_last(), b.drop_last()));
        lemma_same_known(known, a.drop_last(), b.drop_last(), now_ms);
    }
}

proof fn lemma_filled(
    m: Map<(u32, Seq<u8>), DeviceModel>,
    counted: Seq<((u32, Seq<u8>, u8, u8), u64)>,
    rates: Seq<u64>,
    k: (u32, Seq<u8>),
)
    ensures
        rows_filled(m, counted, rates).dom().contains(k) == m.dom().contains(k),
        m.dom().contains(k) ==> rows_filled(m, counted, rates)[k] == (DeviceModel {
            metrics: rows_filled(m, counted, rates)[k].metrics,
            ..m[k]
        }),
    decreases counted.len(),
{
    if counted.len() > 0 {
        lemma_filled(m, counted.drop_last(), rates, k);
        let c = counted.last().0;
        lemma_filled(m, counted.drop_last(), rates, (c.0, c.1));
    }
}

/// The same keys in the same order, and no row that tells of another device.
proof fn lemma_same_devices(
    a: Table<(u32, [u8; 6]), DeviceListItem>,
    b: Table<(u32, [u8; 6]), DeviceListItem>,
    counted: Seq<((u32, Seq<u8>, u8, u8), u64)>,
    rates: Seq<u64>,
)
    requires
        a.wf(),
        b.wf(),
        a.keys() == b.keys(),
        rows_by(a@) == rows_filled(rows_by(b@), counted, rates),
    ensures
        same_devices(a.entries@, b.entries@),
{
    assert(a.keys().len() == a.entries@.len());
    assert(b.keys().len() == b.entries@.len());
    assert forall|i: int| 0 <= i < a.entries@.len() implies (#[trigger] a.entries@[i]).0@
        == b.entries@[i].0@ && a.entries@[i].1@ == (DeviceModel {
        metrics: a.entries@[i].1@.metrics,
        cumulative: a.entries@[i].1@.cumulative,
        ..b.entries@[i].1@
    }) by {
        assert(a.keys()[i] == b.keys()[i]);
        let k = a.entries@[i].0@;
        a.lemma_entry(i);
        b.lemma_entry(i);
        lemma_filled(rows_by(b@), counted, rates, k);
        assert(rows_by(a@)[k] == a.entries@[i].1@);
        assert(rows_by(b@)[k] == b.entries@[i].1@);
    }
}

/// The rates of now, in bits per second, of each of the counts.
pub struct RawRates {
    pub ifaces: Vec<u64>,
    pub devices: Vec<u64>,
    pub flows: Vec<u64>,
}

/// What is to be smoothed: the rates of the rows of interfaces and devices, those of
/// offloaded traffic that were shown last and may fade, and those of offloaded traffic
/// by interface and to the outside.
pub struct RateJobs {
    pub ifaces: Vec<RateJob>,
    pub devices: Vec<RateJob>,
    pub fades: Vec<RateJob>,
    pub lan: Vec<RateJob>,
    pub wan: RateJob,
}

/// Rows with the rates of now, and what is to be smoothed.
pub struct Draft {
    pub interfaces: Vec<InterfaceOverviewItem>,
    pub rows: Table<(u32, [u8; 6]), DeviceListItem>,
    pub lan: Table<u32, CounterQuad>,
    pub wan: CounterQuad,
    pub unresolved: CounterQuad,
    pub jobs: RateJobs,
}

/// The offloaded traffic of a snapshot by owner, and the rows of devices with all
/// their traffic.
pub open spec fn shares_of(
    counts: Counts,
    rates: RawRates,
    before: MonitorRuntime,
    topology: Seq<InterfaceModel>,
    now_ms: u64,
) -> ShareModel {
    let start = no_shares(
        rows_filled(rows_by(counts.rows@), counted_views(counts.devices@), rates.devices@),
    );
    if counts.any_flow {
        attributed(
            start,
            flow_views(counts.flows@),
            rates.flows@,
            owners_with(
                owners_there(counts.rows.entries@),
                before.device_registry.entries.entries@,
                now_ms,
            ),
            topology,
            known_by(before.device_registry.entries@),
            now_ms,
        )
    } else {
        start
    }
}

/// Drafts the rows with the rates of now.
pub fn draft_snapshot(
    runtime: &mut MonitorRuntime,
    topology: &TopologySnapshot,
    counts: Counts,
    rates: &RawRates,
    now_ms: u64,
) -> (r: Draft)
    requires
        old(runtime).wf(),
        counts.rows.wf(),
        rates.ifaces@.len() == counts.ifaces@.len(),
        rates.devices@.len() == counts.devices@.len(),
        rates.flows@.len() == counts.flows@.len(),
    ensures
        final(runtime).wf(),
        (overview_views(r.interfaces@), final(runtime).cumulative_iface@) == rows_built(
            watched_views(counts.watched@),
            counts.ifaces@,
            rates.ifaces@,
            topology@,
            old(runtime).cumulative_iface@,
        ),
        r.rows.wf(),
        r.lan.wf(),
        ({
            let s = shares_of(counts, *rates, *old(runtime), topology@, now_ms);
            &&& rows_by(r.rows@) == rows_totalled(s.rows, old(runtime).cumulative_device@)
            &&& final(runtime).cumulative_device@ == totals_with(
                s.rows,
                old(runtime).cumulative_device@,
            )
            &&& r.lan@ == s.lan
            &&& r.wan == s.wan
            &&& r.unresolved == s.unresolved
            &&& final(runtime).ecm_active_devices@ == if counts.any_flow {
                s.devices
            } else {
                old(runtime).ecm_active_devices@
            }
        }),
        r.jobs.ifaces@ == iface_jobs_of(
            overview_views(r.interfaces@),
            old(runtime).smoothed_iface_rates@,
        ),
        r.jobs.devices@ == device_jobs_of(r.rows.entries@, old(runtime).smoothed_rates@),
        r.jobs.fades@ == fade_jobs_of(old(runtime).smoothed_lan_ecm_rates.entries@),
        r.jobs.lan@ == lan_jobs_of(r.lan.entries@, old(runtime).smoothed_lan_ecm_rates@),
        r.jobs.wan == (RateJob {
            before: rates_of(
                match old(runtime).smoothed_wan_ecm_rates {
                    Some(q) => q,
                    None => zero_quad(),
                },
            ),
            now: if r.wan == zero_quad() {
                None
            } else {
                Some(rates_of(r.wan))
            },
        }),
        *final(runtime) == (MonitorRuntime {
            cumulative_iface: final(runtime).cumulative_iface,
            cumulative_device: final(runtime).cumulative_device,
            ecm_active_devices: final(runtime).ecm_active_devices,
            ..*old(runtime)
        }),
{
    let interfaces = interface_rows(
        &counts.watched,
        &counts.ifaces,
        &rates.ifaces,
        topology,
        &mut runtime.cumulative_iface,
    );
    let iface_jobs = interface_rate_jobs(&interfaces, &runtime.smoothed_iface_rates);
    let ghost there = counts.rows;
    let any = counts.any_flow;
    let mut filled_rows = counts.rows;
    fill_devices(&mut filled_rows, &counts.devices, &rates.devices);
    proof {
        lemma_same_devices(filled_rows, there, counted_views(counts.devices@), rates.devices@);
        lemma_same_owners(filled_rows.entries@, there.entries@);
    }
    let shares = attribute_flows(
        filled_rows,
        any,
        &counts.flows,
        &rates.flows,
        topology,
        &runtime.device_registry.entries,
        now_ms,
    );
    let ghost s = shares@;
    assert(s == shares_of(counts, *rates, *old(runtime), topology@, now_ms));
    let Shares { mut rows, lan, wan, unresolved, devices } = shares;
    if any {
        runtime.ecm_active_devices = devices;
    }
    add_device_totals(&mut rows, &mut runtime.cumulative_device);
    let jobs = RateJobs {
        ifaces: iface_jobs,
        devices: device_rate_jobs(&rows, &runtime.smoothed_rates),
        fades: fade_jobs(&runtime.smoothed_lan_ecm_rates),
        lan: lan_rate_jobs(&lan, &runtime.smoothed_lan_ecm_rates),
        wan: wan_rate_job(&runtime.smoothed_wan_ecm_rates, &wan),
    };
    Draft { interfaces, rows, lan, wan, unresolved, jobs }
}

/// The smoothed rates of each of the jobs of a draft.
pub struct SmoothRates {
    pub ifaces: Vec<Rates>,
    pub devices: Vec<Rates>,
    pub fades: Vec<Rates>,
    pub lan: Vec<Rates>,
    pub wan: Rates,
}

/// The rows of devices as they are shown.
pub open spec fn rows_shown(
    entries: Seq<((u32, [u8; 6]), DeviceListItem)>,
    rates: Seq<Rates>,
    active: Set<(u32, Seq<u8>)>,
) -> Seq<DeviceModel> {
    Seq::new(
        entries.len(),
        |i: int|
            DeviceModel {
                metrics: shown_metrics(
                    entries[i].1.metrics,
                    active.contains(entries[i].0@),
                    rates[i],
                ),
                ..entries[i].1@
            },
    )
}

/// The offloaded traffic that is added to the rows of interfaces.
pub open spec fn amounts_shown(
    draft: Draft,
    rates: SmoothRates,
    before: MonitorRuntime,
    topology: Seq<InterfaceModel>,
    device_rates: Map<(u32, Seq<u8>), CounterQuad>,
) -> AmountModel {
    AmountModel {
        lan_shown: lan_smoothed(
            draft.lan.entries@,
            rates.lan@,
            faded(before.smoothed_lan_ecm_rates.entries@, rates.fades@, draft.lan@).1,
        ),
        lan: draft.lan@,
        wan_shown: with_rates(draft.wan, rates.wan),
        wan: draft.wan,
        unresolved: draft.unresolved,
        lan_ifindex: match zone_iface(topology, "lan"@) {
            Some(x) => Some(x.ifindex),
            None => None,
        },
        device_rates,
    }
}

/// Finishes a snapshot with the smoothed rates of its draft. The devices come in the
/// order of rows. Where offloaded traffic is not counted, nothing of it is shown or
/// remembered.
pub fn collect_snapshot(
    runtime: &mut MonitorRuntime,
    topology: &TopologySnapshot,
    monitor_ifaces: &Vec<String>,
    draft: Draft,
    rates: &SmoothRates,
    enable_ecm: bool,
    now_ms: u64,
) -> (r: SnapshotData)
    requires
        old(runtime).wf(),
        draft.rows.wf(),
        draft.lan.wf(),
        rates.ifaces@.len() == draft.interfaces@.len(),
        rates.devices@.len() == draft.rows.entries@.len(),
        rates.fades@.len() == old(runtime).smoothed_lan_ecm_rates.entries@.len(),
        rates.lan@.len() == draft.lan.entries@.len(),
    ensures
        final(runtime).wf(),
        r.timestamp_ms == now_ms,
        final(runtime).smoothed_iface_rates@ == rates_noted(
            overview_views(draft.interfaces@),
            rates.ifaces@,
            old(runtime).smoothed_iface_rates@,
        ),
        final(runtime).smoothed_rates@ == device_rates_noted(
            draft.rows.entries@,
            rates.devices@,
            old(runtime).ecm_active_devices@,
            old(runtime).smoothed_rates@,
        ),
        known_by(final(runtime).device_registry.entries@) == known_with(
            known_by(old(runtime).device_registry.entries@),
            draft.rows.entries@,
            now_ms,
        ),
        ordered(r.devices@),
        device_views(r.devices@).to_multiset() == (rows_shown(
            draft.rows.entries@,
            rates.devices@,
            old(runtime).ecm_active_devices@,
        ) + offline_rows(
            final(runtime).device_registry.entries.entries@,
            draft.rows@.dom(),
            topology@,
            views(monitor_ifaces@),
            old(runtime).cumulative_device@,
        )).to_multiset(),
        !enable_ecm ==> {
            &&& overview_views(r.interfaces@) == rows_smoothed(
                overview_views(draft.interfaces@),
                rates.ifaces@,
            )
            &&& *final(runtime) == (MonitorRuntime {
                smoothed_iface_rates: final(runtime).smoothed_iface_rates,
                smoothed_rates: final(runtime).smoothed_rates,
                device_registry: final(runtime).device_registry,
                ..*old(runtime)
            })
        },
        enable_ecm ==> {
            let s = injected(
                with_outside_row(
                    rows_smoothed(overview_views(draft.interfaces@), rates.ifaces@),
                    topology@,
                    old(runtime).cumulative_iface@,
                ),
                old(runtime).cumulative_iface@,
                amounts_shown(
                    draft,
                    *rates,
                    *old(runtime),
                    topology@,
                    final(runtime).smoothed_rates@,
                ),
            );
            &&& overview_views(r.interfaces@) == s.rows
            &&& final(runtime).cumulative_iface@ == s.totals
            &&& final(runtime).smoothed_lan_ecm_rates@ == lan_smoothed(
                draft.lan.entries@,
                rates.lan@,
                faded(
                    old(runtime).smoothed_lan_ecm_rates.entries@,
                    rates.fades@,
                    draft.lan@,
                ).0,
            )
            &&& final(runtime).smoothed_wan_ecm_rates == Some(with_rates(draft.wan, rates.wan))
            &&& *final(runtime) == (MonitorRuntime {
                smoothed_iface_rates: final(runtime).smoothed_iface_rates,
                smoothed_rates: final(runtime).smoothed_rates,
                device_registry: final(runtime).device_registry,
                cumulative_iface: final(runtime).cumulative_iface,
                smoothed_lan_ecm_rates: final(runtime).smoothed_lan_ecm_rates,
                smoothed_wan_ecm_rates: final(runtime).smoothed_wan_ecm_rates,
                ..*old(runtime)
            })
        },
{
    let ghost whole = draft;
    let ghost drafted = draft.rows;
    let Draft { mut interfaces, mut rows, lan, wan, unresolved, jobs: _ } = draft;
    set_interface_rates(&mut interfaces, &mut runtime.smoothed_iface_rates, &rates.ifaces);
    set_device_rates(
        &mut rows,
        &mut runtime.smoothed_rates,
        &runtime.ecm_active_devices,
        &rates.devices,
    );
    proof {
        let active = old(runtime).ecm_active_devices@;
        assert(row_seq(rows.entries@) =~= rows_shown(drafted.entries@, rates.devices@, active));
        assert(same_devices(rows.entries@, drafted.entries@)) by {
            assert forall|i: int| 0 <= i < rows.entries@.len() implies (#[trigger] rows.entries@[i]).0@
                == drafted.entries@[i].0@ by {
                assert(rows.keys()[i] == drafted.keys()[i]);
            }
        }
        assert(rows@.dom() =~= drafted@.dom()) by {
            assert forall|k: (u32, Seq<u8>)| rows@.dom().contains(k) == drafted@.dom().contains(k) by {
                if rows.has(k) {
                    let i = rows.place(k);
                    assert(rows.keys()[i] == drafted.keys()[i]);
                    assert(drafted.entries@[i].0@ == k);
                }
                if drafted.has(k) {
                    let i = drafted.place(k);
                    assert(rows.keys()[i] == drafted.keys()[i]);
                    assert(rows.entries@[i].0@ == k);
                }
            }
        }
        lemma_same_known(
            known_by(runtime.device_registry.entries@),
            rows.entries@,
            drafted.entries@,
            now_ms,
        );
    }
    remember_devices(&rows, &mut runtime.device_registry.entries, now_ms);
    let devices = list_devices(
        &rows,
        &runtime.device_registry.entries,
        topology,
        monitor_ifaces,
        &runtime.cumulative_device,
    );
    if enable_ecm {
        let mut lan_shown = fade_rates(&mut runtime.smoothed_lan_ecm_rates, &lan, &rates.fades);
        set_lan_rates(&lan, &rates.lan, &mut runtime.smoothed_lan_ecm_rates, &mut lan_shown);
        let wan_shown = set_wan_rates(&mut runtime.smoothed_wan_ecm_rates, &wan, &rates.wan);
        let amounts = Amounts { lan_shown, lan, wan_shown, wan, unresolved };
        inject_flows(
            &mut interfaces,
            &mut runtime.cumulative_iface,
            topology,
            &amounts,
            &runtime.smoothed_rates,
        );
        assert(amounts_of(amounts, topology@, runtime.smoothed_rates@) == amounts_shown(
            whole,
            *rates,
            *old(runtime),
            topology@,
            runtime.smoothed_rates@,
        ));
    }
    SnapshotData { timestamp_ms: now_ms, interfaces, devices }
}

/// Whether traffic has at least the bytes of other traffic, in each direction of each
/// IP version.
pub open spec fn no_less(a: CounterQuad, b: CounterQuad) -> bool {
    &&& a.up_v4_bytes >= b.up_v4_bytes
    &&& a.down_v4_bytes >= b.down_v4_bytes
    &&& a.up_v6_bytes >= b.up_v6_bytes
    &&& a.down_v6_bytes >= b.down_v6_bytes
}

/// The totals of a device never fall.
pub proof fn law_device_totals_never_fall(
    rows: Map<(u32, Seq<u8>), DeviceModel>,
    totals: Map<(u32, Seq<u8>), CounterQuad>,
    k: (u32, Seq<u8>),
)
    ensures
        no_less(quad_at(totals_with(rows, totals), k), quad_at(totals, k)),
{
}

/// The totals of an interface never fall: neither when its rows are built nor when
/// offloaded traffic is added to them.
pub proof fn law_interface_totals_never_fall(
    watched: Seq<(u32, Seq<char>)>,
    deltas: Seq<IfaceDelta>,
    rates: Seq<u64>,
    topology: Seq<InterfaceModel>,
    totals: Map<u32, CounterQuad>,
    rows: Seq<OverviewModel>,
    a: AmountModel,
    k: u32,
)
    ensures
        no_less(
            quad_at(rows_built(watched, deltas, rates, topology, totals).1, k),
            quad_at(totals, k),
        ),
        no_less(quad_at(injected(rows, totals, a).totals, k), quad_at(totals, k)),
    decreases watched.len() + rows.len(),
{
    if watched.len() > 0 {
        law_interface_totals_never_fall(
            watched.drop_last(),
            deltas,
            rates,
            topology,
            totals,
            rows,
            a,
            k,
        );
    }
    if rows.len() > 0 {
        law_interface_totals_never_fall(
            watched,
            deltas,
            rates,
            topology,
            totals,
            rows.drop_last(),
            a,
            k,
        );
    }
}

proof fn lemma_faded_at(
    entries: Seq<(u32, CounterQuad)>,
    rates: Seq<Rates>,
    lan: Map<u32, CounterQuad>,
    k: u32,
)
    requires
        lan.dom().contains(k),
        forall|i: int, j: int|
            0 <= i < j < entries.len() ==> (#[trigger] entries[i]).0 != (#[trigger] entries[j]).0,
    ensures
        forall|j: int|
            0 <= j < entries.len() && (#[trigger] entries[j]).0 == k ==> faded(
                entries,
                rates,
                lan,
            ).0.dom().contains(k) && faded(entries, rates, lan).0[k] == entries[j].1,
        (forall|j: int| 0 <= j < entries.len() ==> (#[trigger] entries[j]).0 != k) ==> !faded(
            entries,
            rates,
            lan,
        ).0.dom().contains(k),
    decreases entries.len(),
{
    if entries.len() > 0 {
        let before = entries.drop_last();
        assert forall|i: int, j: int| 0 <= i < j < before.len() implies (#[trigger] before[i]).0
            != (#[trigger] before[j]).0 by {
            assert(before[i] == entries[i] && before[j] == entries[j]);
        }
        lemma_faded_at(before, rates, lan, k);
        assert forall|j: int| 0 <= j < before.len() implies #[trigger] before[j] == entries[j] by {}
        assert forall|j: int| 0 <= j < entries.len() && (#[trigger] entries[j]).0 == k implies faded(
            entries,
            rates,
            lan,
        ).0.dom().contains(k) && faded(entries, rates, lan).0[k] == entries[j].1 by {
            if j < before.len() {
                assert(before[j] == entries[j]);
                assert(entries[entries.len() - 1].0 != k);
            }
        }
        if forall|j: int| 0 <= j < entries.len() ==> (#[trigger] entries[j]).0 != k {
            assert forall|j: int| 0 <= j < before.len() implies (#[trigger] before[j]).0 != k by {
                assert(entries[j].0 != k);
            }
            assert(entries[entries.len() - 1].0 != k);
        }
    }
}

/// What is to be smoothed of the offloaded traffic of interfaces is the same before
/// and after the rates of other interfaces fade.
pub proof fn law_fading_spares_the_active(
    lan: Table<u32, CounterQuad>,
    smoothed: Table<u32, CounterQuad>,
    rates: Seq<Rates>,
)
    requires
        lan.wf(),
        smoothed.wf(),
        rates.len() == smoothed.entries@.len(),
    ensures
        lan_jobs_of(lan.entries@, faded(smoothed.entries@, rates, lan@).0) == lan_jobs_of(
            lan.entries@,
            smoothed@,
        ),
{
    let after = faded(smoothed.entries@, rates, lan@).0;
    assert forall|i: int| 0 <= i < lan.entries@.len() implies quad_at(
        after,
        (#[trigger] lan.entries@[i]).0,
    ) == quad_at(smoothed@, lan.entries@[i].0) by {
        let k = lan.entries@[i].0;
        lan.lemma_entry(i);
        lemma_faded_at(smoothed.entries@, rates, lan@, k);
        if smoothed.has(k) {
            let j = smoothed.place(k);
            smoothed.lemma_entry(j);
        }
    }
    assert(lan_jobs_of(lan.entries@, after) =~= lan_jobs_of(lan.entries@, smoothed@));
}

} // verus!
