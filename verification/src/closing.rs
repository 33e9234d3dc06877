//! That what is listed, stored or told one by one is done to the last one.
use crate::api::rows_of_range;
use crate::bucket::CounterQuad;
use crate::collect::Rates;
use crate::conntrack::{all_inserted, event_step, events_applied, FlowState};
use crate::desired::pairs_of;
use crate::history::{
    all_finalized, devices_closed, devices_sampled, hourly_of, ifaces_closed, ifaces_sampled,
    quad_at, CompletedModel, HistogramModel, SeriesModel,
};
use crate::hours::{
    bytes_of_all, capped, law_total_is_the_sum_of_hours, sample_bytes, sample_rate, Lane,
};
use crate::keys::{DeviceTrafficKey, EcmTrafficKey, TrafficValue};
use crate::limits::{rates_of, RateLimitValue};
use crate::mac::mac_text;
use crate::moved::grown;
use crate::netlink::{NetlinkError, ParsedFlowModel};
use crate::offload::{
    attributed, flows_counted, local_networks, outside_mac, unresolved_mac, with_flow, with_flows,
    with_outside_row, with_summary, zone_iface, ShareModel,
};
use crate::options::{complete, refused_value, NumberOption, RawOptions};
use crate::policy::{limits_shown, not_on};
use crate::rows::{online_row, online_rows, shown_metrics, GroupModel};
use crate::runtime::{recovered_devices, recovered_ifaces, KnownDevice, KnownModel};
use crate::snapshot::{DeviceListItem, InterfaceOverviewItem, OverviewModel};
use crate::telling::{lane_rate, law_rest_is_shown_on_its_row};
use crate::topology::{find_index, InterfaceModel};
use vstd::prelude::*;

verus! {

/// Every message of the kernel is acted on in its order, up to the last one.
pub proof fn law_every_event_is_acted_on(
    states: Seq<FlowState>,
    ms: Seq<(u16, Seq<u8>)>,
    big: bool,
)
    requires
        states.len() == ms.len() + 1,
        forall|i: int|
            0 <= i < ms.len() ==> event_step(states[i], (#[trigger] ms[i]).0, ms[i].1, big) == Ok::<
                FlowState,
                NetlinkError,
            >(states[i + 1]),
    ensures
        events_applied(states[0], ms, false, big) == (states.last(), None::<NetlinkError>),
        events_applied(states[0], ms, true, big) == (states.last(), Some(NetlinkError::Message)),
    decreases ms.len(),
{
    if ms.len() > 0 {
        let st = states.drop_first();
        let rest = ms.drop_first();
        assert forall|i: int| 0 <= i < rest.len() implies event_step(
            st[i],
            (#[trigger] rest[i]).0,
            rest[i].1,
            big,
        ) == Ok::<FlowState, NetlinkError>(st[i + 1]) by {
            assert(rest[i] == ms[i + 1]);
        }
        assert(event_step(states[0], ms[0].0, ms[0].1, big) == Ok::<FlowState, NetlinkError>(
            states[1],
        ));
        law_every_event_is_acted_on(st, rest, big);
        assert(st.last() == states.last());
    }
}

/// Every connection of a listing is known afterwards, where each has a number of its own or none.
pub proof fn law_listed_connections_are_known(l: Seq<ParsedFlowModel>, i: int)
    requires
        0 <= i < l.len() <= 100_000,
        forall|a: int, b: int|
            0 <= a < b < l.len() ==> (#[trigger] l[a]).key != (#[trigger] l[b]).key && (
            l[a].flow.id is None || l[a].flow.id != l[b].flow.id),
    ensures
        ({
            let s = all_inserted(FlowState { flows: Map::empty(), ids: Map::empty() }, l);
            &&& s.flows.dom().contains(l[i].key)
            &&& s.flows[l[i].key] == l[i].flow
        }),
{
    lemma_listed(l);
}

proof fn lemma_listed(l: Seq<ParsedFlowModel>)
    requires
        l.len() <= 100_000,
        forall|a: int, b: int|
            0 <= a < b < l.len() ==> (#[trigger] l[a]).key != (#[trigger] l[b]).key && (
            l[a].flow.id is None || l[a].flow.id != l[b].flow.id),
    ensures
        ({
            let s = all_inserted(FlowState { flows: Map::empty(), ids: Map::empty() }, l);
            &&& s.flows.dom().finite()
            &&& s.flows.len() <= l.len()
            &&& forall|i: int|
                0 <= i < l.len() ==> s.flows.dom().contains((#[trigger] l[i]).key)
                    && s.flows[l[i].key] == l[i].flow
            &&& forall|id: u32| #[trigger]
                s.ids.dom().contains(id) ==> exists|i: int|
                    0 <= i < l.len() && (#[trigger] l[i]).flow.id == Some(id)
        }),
    decreases l.len(),
{
    let none = FlowState { flows: Map::empty(), ids: Map::empty() };
    if l.len() > 0 {
        let front = l.drop_last();
        let n = l.len() - 1;
        let p = l[n];
        assert(l.last() == p);
        assert forall|a: int, b: int| 0 <= a < b < front.len() implies (#[trigger] front[a]).key != (
        #[trigger] front[b]).key && (front[a].flow.id is None || front[a].flow.id
            != front[b].flow.id) by {
            assert(front[a] == l[a] && front[b] == l[b]);
        }
        lemma_listed(front);
        let s = all_inserted(none, front);
        let r = all_inserted(none, l);
        if let Some(id) = p.flow.id {
            if s.ids.dom().contains(id) {
                let i = choose|i: int| 0 <= i < front.len() && (#[trigger] front[i]).flow.id == Some(id);
                assert(front[i] == l[i]);
                assert(l[i].flow.id is None || l[i].flow.id != l[n].flow.id);
                assert(false);
            }
        }
        assert(s.flows.len() < 100_000);
        assert(r.flows == s.flows.insert(p.key, p.flow));
        assert forall|i: int| 0 <= i < l.len() implies r.flows.dom().contains((#[trigger] l[i]).key)
            && r.flows[l[i].key] == l[i].flow by {
            if i < n {
                assert(front[i] == l[i]);
                assert(l[i].key != l[n].key);
            }
        }
        assert forall|id: u32| #[trigger] r.ids.dom().contains(id) implies exists|i: int|
            0 <= i < l.len() && (#[trigger] l[i]).flow.id == Some(id) by {
            if s.ids.dom().contains(id) {
                let i = choose|i: int| 0 <= i < front.len() && (#[trigger] front[i]).flow.id == Some(id);
                assert(l[i] == front[i]);
            } else {
                assert(l[n].flow.id == Some(id));
            }
        }
    }
}

/// When an hour is over, what it held is handed on under the name of its interface: of every
/// interface whose current hour began at another time than the new one.
pub proof fn law_finished_hour_of_an_interface_is_handed_on(
    s: SeriesModel<u32>,
    rows: Seq<InterfaceOverviewItem>,
    start: u64,
    end: u64,
    cap: nat,
    i: int,
)
    requires
        0 <= i < rows.len(),
        forall|a: int, b: int|
            0 <= a < b < rows.len() ==> (#[trigger] rows[a]).ifindex != (
            #[trigger] rows[b]).ifindex,
        s.current.dom().contains(rows[i].ifindex),
        s.current[rows[i].ifindex].start_ts_ms != start,
    ensures
        ifaces_closed(s, rows, start, end, cap).contains(
            CompletedModel {
                iface: rows[i].ifname@,
                mac: None,
                bucket: s.current[rows[i].ifindex].finalized(),
            },
        ),
    decreases rows.len(),
{
    let front = rows.drop_last();
    let n = rows.len() - 1;
    let k = rows[i].ifindex;
    let x = CompletedModel { iface: rows[i].ifname@, mac: None, bucket: s.current[k].finalized() };
    assert(rows[n] == rows.last());
    let r = ifaces_closed(s, rows, start, end, cap);
    let before = ifaces_closed(s, front, start, end, cap);
    if i < n {
        assert(front[i] == rows[i]);
        assert forall|a: int, b: int| 0 <= a < b < front.len() implies (
        #[trigger] front[a]).ifindex != (#[trigger] front[b]).ifindex by {
            assert(front[a] == rows[a] && front[b] == rows[b]);
        }
        law_finished_hour_of_an_interface_is_handed_on(s, front, start, end, cap, i);
        let j = choose|j: int| 0 <= j < before.len() && before[j] == x;
        assert(r[j] == x);
    } else {
        assert forall|a: int| 0 <= a < front.len() implies (#[trigger] front[a]).ifindex != k by {
            assert(front[a] == rows[a]);
            assert(rows[a].ifindex != rows[n].ifindex);
        }
        lemma_other_current(s, front, start, end, cap, k);
        assert(r[r.len() - 1] == x);
    }
}

proof fn lemma_other_current(
    s: SeriesModel<u32>,
    rows: Seq<InterfaceOverviewItem>,
    start: u64,
    end: u64,
    cap: nat,
    k: u32,
)
    requires
        forall|a: int| 0 <= a < rows.len() ==> (#[trigger] rows[a]).ifindex != k,
    ensures
        ({
            let t = ifaces_sampled(s, rows, start, end, cap);
            &&& t.current.dom().contains(k) <==> s.current.dom().contains(k)
            &&& s.current.dom().contains(k) ==> t.current[k] == s.current[k]
        }),
    decreases rows.len(),
{
    if rows.len() > 0 {
        let front = rows.drop_last();
        assert forall|a: int| 0 <= a < front.len() implies (#[trigger] front[a]).ifindex != k by {
            assert(front[a] == rows[a]);
        }
        assert(rows[rows.len() - 1].ifindex != k);
        lemma_other_current(s, front, start, end, cap, k);
    }
}

/// When an hour is over, what it held is handed on for every device that is sampled, under its
/// hardware address and the name of its interface.
pub proof fn law_finished_hour_of_a_device_is_handed_on(
    s: SeriesModel<(u32, Seq<char>)>,
    rows: Seq<DeviceListItem>,
    start: u64,
    end: u64,
    cap: nat,
    i: int,
)
    requires
        0 <= i < rows.len(),
        rows[i].online,
        forall|a: int, b: int|
            0 <= a < b < rows.len() ==> ((#[trigger] rows[a]).ifindex, rows[a].mac@) != ((
            #[trigger] rows[b]).ifindex, rows[b].mac@),
        s.current.dom().contains((rows[i].ifindex, rows[i].mac@)),
        s.current[(rows[i].ifindex, rows[i].mac@)].start_ts_ms != start,
    ensures
        devices_closed(s, rows, start, end, cap).contains(
            CompletedModel {
                iface: rows[i].logical_iface@,
                mac: Some(rows[i].mac@),
                bucket: s.current[(rows[i].ifindex, rows[i].mac@)].finalized(),
            },
        ),
    decreases rows.len(),
{
    let front = rows.drop_last();
    let n = rows.len() - 1;
    let k = (rows[i].ifindex, rows[i].mac@);
    let x = CompletedModel {
        iface: rows[i].logical_iface@,
        mac: Some(rows[i].mac@),
        bucket: s.current[k].finalized(),
    };
    assert(rows[n] == rows.last());
    let r = devices_closed(s, rows, start, end, cap);
    let before = devices_closed(s, front, start, end, cap);
    if i < n {
        assert(front[i] == rows[i]);
        assert forall|a: int, b: int| 0 <= a < b < front.len() implies ((
        #[trigger] front[a]).ifindex, front[a].mac@) != ((#[trigger] front[b]).ifindex, front[b].mac@) by {
            assert(front[a] == rows[a] && front[b] == rows[b]);
        }
        law_finished_hour_of_a_device_is_handed_on(s, front, start, end, cap, i);
        let j = choose|j: int| 0 <= j < before.len() && before[j] == x;
        assert(r[j] == x);
    } else {
        assert forall|a: int| 0 <= a < front.len() implies ((
        #[trigger] front[a]).ifindex, front[a].mac@) != k by {
            assert(front[a] == rows[a]);
            assert((rows[a].ifindex, rows[a].mac@) != (rows[n].ifindex, rows[n].mac@));
        }
        lemma_other_device(s, front, start, end, cap, k);
        assert(r[r.len() - 1] == x);
    }
}

proof fn lemma_other_device(
    s: SeriesModel<(u32, Seq<char>)>,
    rows: Seq<DeviceListItem>,
    start: u64,
    end: u64,
    cap: nat,
    k: (u32, Seq<char>),
)
    requires
        forall|a: int| 0 <= a < rows.len() ==> ((#[trigger] rows[a]).ifindex, rows[a].mac@) != k,
    ensures
        ({
            let t = devices_sampled(s, rows, start, end, cap);
            &&& t.current.dom().contains(k) <==> s.current.dom().contains(k)
            &&& s.current.dom().contains(k) ==> t.current[k] == s.current[k]
        }),
    decreases rows.len(),
{
    if rows.len() > 0 {
        let front = rows.drop_last();
        assert forall|a: int| 0 <= a < front.len() implies ((
        #[trigger] front[a]).ifindex, front[a].mac@) != k by {
            assert(front[a] == rows[a]);
        }
        let l = rows[rows.len() - 1];
        assert((l.ifindex, l.mac@) != k);
        lemma_other_device(s, front, start, end, cap, k);
    }
}

/// Every counter of the offload engine that was seen before and grew is counted, by as much as it
/// grew.
pub proof fn law_every_offload_counter_is_counted(
    stats: Seq<(EcmTrafficKey, TrafficValue)>,
    prev: Map<(Seq<u32>, u8, u8, Seq<u8>), u64>,
    active: Map<(Seq<u32>, u8, u8, Seq<u8>), u64>,
    now_ms: u64,
    i: int,
)
    requires
        0 <= i < stats.len(),
        forall|a: int, b: int|
            0 <= a < b < stats.len() ==> (#[trigger] stats[a]).0@ != (#[trigger] stats[b]).0@,
        prev.dom().contains(stats[i].0@),
        grown(stats[i].1.bytes, prev, stats[i].0@) > 0,
    ensures
        flows_counted(stats, prev, active, now_ms).counted.contains(
            (stats[i].0@, grown(stats[i].1.bytes, prev, stats[i].0@) as u64),
        ),
    decreases stats.len(),
{
    let front = stats.drop_last();
    let n = stats.len() - 1;
    let k = stats[i].0@;
    let x = (k, grown(stats[i].1.bytes, prev, k) as u64);
    assert(stats[n] == stats.last());
    let f = flows_counted(front, prev, active, now_ms);
    let r = flows_counted(stats, prev, active, now_ms);
    if i < n {
        assert(front[i] == stats[i]);
        assert forall|a: int, b: int| 0 <= a < b < front.len() implies (#[trigger] front[a]).0@ != (
        #[trigger] front[b]).0@ by {
            assert(front[a] == stats[a] && front[b] == stats[b]);
        }
        law_every_offload_counter_is_counted(front, prev, active, now_ms, i);
        let j = choose|j: int| 0 <= j < f.counted.len() && f.counted[j] == x;
        assert(r.counted[j] == x);
    } else {
        assert forall|a: int| 0 <= a < front.len() implies (#[trigger] front[a]).0@ != k by {
            assert(front[a] == stats[a]);
            assert(stats[a].0@ != stats[n].0@);
        }
        lemma_other_counter(front, prev, active, now_ms, k);
        assert(r.counted[r.counted.len() - 1] == x);
    }
}

proof fn lemma_other_counter(
    stats: Seq<(EcmTrafficKey, TrafficValue)>,
    prev: Map<(Seq<u32>, u8, u8, Seq<u8>), u64>,
    active: Map<(Seq<u32>, u8, u8, Seq<u8>), u64>,
    now_ms: u64,
    k: (Seq<u32>, u8, u8, Seq<u8>),
)
    requires
        forall|a: int| 0 <= a < stats.len() ==> (#[trigger] stats[a]).0@ != k,
    ensures
        ({
            let f = flows_counted(stats, prev, active, now_ms);
            &&& f.prev.dom().contains(k) <==> prev.dom().contains(k)
            &&& prev.dom().contains(k) ==> f.prev[k] == prev[k]
        }),
    decreases stats.len(),
{
    if stats.len() > 0 {
        let front = stats.drop_last();
        assert forall|a: int| 0 <= a < front.len() implies (#[trigger] front[a]).0@ != k by {
            assert(front[a] == stats[a]);
        }
        assert(stats[stats.len() - 1].0@ != k);
        lemma_other_counter(front, prev, active, now_ms, k);
    }
}

/// A setting that needs another is refused without it: the log of the offload engine needs the
/// engine, DNS needs traffic, and a certificate and its key need each other.
pub proof fn law_settings_need_each_other(raw: RawOptions)
    ensures
        complete(raw) ==> !(raw.enable_ecm_log && !raw.enable_ecm),
        complete(raw) ==> !(raw.enable_dns && !raw.enable_traffic),
        complete(raw) ==> !(raw.tls_cert is Some && raw.tls_key is None),
        complete(raw) ==> !(raw.tls_key is Some && raw.tls_cert is None),
        !raw.enable_ecm_log && !raw.enable_dns && raw.tls_cert is None && raw.tls_key is None
            ==> complete(raw),
        raw.enable_ecm && raw.enable_traffic && raw.tls_cert is Some && raw.tls_key is Some
            ==> complete(raw),
{
}

/// A number that a setting does not take is refused, whichever setting it is, and nothing is where
/// none is given.
pub proof fn law_wrong_number_is_refused(raw: RawOptions)
    ensures
        raw.port matches Some(t) && NumberOption::Port.value(t@) is None ==> refused_value(
            raw,
        ) is Some,
        raw.ring_buffer matches Some(t) && NumberOption::RingBuffer.value(t@) is None
            ==> refused_value(raw) is Some,
        raw.dns_max_records matches Some(t) && NumberOption::DnsMaxRecords.value(t@) is None
            ==> refused_value(raw) is Some,
        raw.dns_flush_interval matches Some(t) && NumberOption::DnsFlushInterval.value(
            t@,
        ) is None ==> refused_value(raw) is Some,
        raw.history_window_minutes matches Some(t) && NumberOption::HistoryWindowMinutes.value(
            t@,
        ) is None ==> refused_value(raw) is Some,
        raw.device_ttl_days matches Some(t) && NumberOption::DeviceTtlDays.value(t@) is None
            ==> refused_value(raw) is Some,
        raw.netlink_priority matches Some(t) && NumberOption::NetlinkPriority.value(t@) is None
            ==> refused_value(raw) is Some,
        raw.tcx_anchor_ingress_id matches Some(t) && NumberOption::TcxAnchorIngressId.value(
            t@,
        ) is None ==> refused_value(raw) is Some,
        raw.tcx_anchor_egress_id matches Some(t) && NumberOption::TcxAnchorEgressId.value(
            t@,
        ) is None ==> refused_value(raw) is Some,
        raw.port is None && raw.ring_buffer is None && raw.dns_max_records is None
            && raw.dns_flush_interval is None && raw.history_window_minutes is None
            && raw.device_ttl_days is None && raw.netlink_priority is None
            && raw.tcx_anchor_ingress_id is None && raw.tcx_anchor_egress_id is None
            ==> refused_value(raw) is None,
{
}

/// Every group of neighbors that is a device is listed under its interface and hardware address.
pub proof fn law_every_device_there_is_listed(
    gs: Seq<GroupModel>,
    topology: Seq<InterfaceModel>,
    monitor: Seq<Seq<char>>,
    known: Map<(u32, Seq<u8>), KnownModel>,
    hosts: Map<Seq<u8>, Seq<char>>,
    now_ms: u64,
    i: int,
)
    requires
        0 <= i < gs.len(),
        online_row(gs[i], topology, monitor, known, hosts, now_ms) is Some,
        forall|j: int|
            i < j < gs.len() ==> (online_row(
                #[trigger] gs[j],
                topology,
                monitor,
                known,
                hosts,
                now_ms,
            ) matches Some(r) ==> (r.ifindex, gs[j].mac) != (
                online_row(gs[i], topology, monitor, known, hosts, now_ms)->0.ifindex,
                gs[i].mac,
            )),
    ensures
        ({
            let r = online_row(gs[i], topology, monitor, known, hosts, now_ms)->0;
            let m = online_rows(gs, topology, monitor, known, hosts, now_ms);
            m.dom().contains((r.ifindex, gs[i].mac)) && m[(r.ifindex, gs[i].mac)] == r
        }),
    decreases gs.len(),
{
    let front = gs.drop_last();
    let n = gs.len() - 1;
    assert(gs[n] == gs.last());
    if i < n {
        assert(front[i] == gs[i]);
        assert forall|j: int| i < j < front.len() implies (online_row(
            #[trigger] front[j],
            topology,
            monitor,
            known,
            hosts,
            now_ms,
        ) matches Some(r) ==> (r.ifindex, front[j].mac) != (
            online_row(front[i], topology, monitor, known, hosts, now_ms)->0.ifindex,
            front[i].mac,
        )) by {
            assert(front[j] == gs[j]);
        }
        law_every_device_there_is_listed(front, topology, monitor, known, hosts, now_ms, i);
        assert(online_row(gs[n], topology, monitor, known, hosts, now_ms) matches Some(r) ==> (
            r.ifindex,
            gs[n].mac,
        ) != (online_row(gs[i], topology, monitor, known, hosts, now_ms)->0.ifindex, gs[i].mac));
    }
}

/// The rates that are shown of an active device are the smoothed ones, and of another its own; its
/// bytes are shown as they are.
pub proof fn law_active_device_shows_smoothed_rates(
    q: CounterQuad,
    active: bool,
    r: Rates,
    lane: Lane,
)
    ensures
        sample_bytes(shown_metrics(q, active, r), lane) == sample_bytes(q, lane),
        active ==> sample_rate(shown_metrics(q, active, r), lane) == lane_rate(r, lane),
        !active ==> sample_rate(shown_metrics(q, active, r), lane) == sample_rate(q, lane),
{
}

/// After a restart every known device is shown offline, with its total, and every interface that is
/// there with its own.
pub proof fn law_restart_shows_what_was_known(
    entries: Seq<((u32, [u8; 6]), KnownDevice)>,
    totals: Map<(u32, Seq<u8>), CounterQuad>,
    i: int,
)
    requires
        0 <= i < entries.len(),
    ensures
        ({
            let rows = recovered_devices(entries, totals);
            let d = entries[i].1@;
            let k = entries[i].0;
            &&& rows.len() == entries.len()
            &&& !rows[i].online
            &&& rows[i].ifindex == k.0
            &&& rows[i].mac == mac_text(k.1@)
            &&& rows[i].ipv4 == d.ipv4
            &&& rows[i].ipv6 == d.ipv6
            &&& rows[i].hostname == d.hostname
            &&& rows[i].logical_iface == d.logical_iface
            &&& rows[i].last_seen_ms == d.last_seen_ms
            &&& rows[i].cumulative == quad_at(totals, k@)
        }),
{
}

/// After a restart every interface that is there and has a total is shown with it.
pub proof fn law_restart_shows_the_totals(
    entries: Seq<(u32, CounterQuad)>,
    topology: Seq<InterfaceModel>,
    i: int,
)
    requires
        0 <= i < entries.len(),
    ensures
        find_index(topology, entries[i].0) matches Some(x) ==> tells_total(
            recovered_ifaces(entries, topology),
            x,
            entries[i],
        ),
    decreases entries.len(),
{
    let front = entries.drop_last();
    let n = entries.len() - 1;
    assert(entries[n] == entries.last());
    let r = recovered_ifaces(entries, topology);
    let before = recovered_ifaces(front, topology);
    if let Some(x) = find_index(topology, entries[i].0) {
        if i < n {
            assert(front[i] == entries[i]);
            law_restart_shows_the_totals(front, topology, i);
            let j = choose|j: int| 0 <= j < before.len() && is_total(#[trigger] before[j], x, entries[i]);
            assert(is_total(r[j], x, entries[i]));
        } else {
            assert(is_total(r[r.len() - 1], x, entries[i]));
        }
    }
}

/// Whether a row is that of an interface with its total.
pub open spec fn is_total(r: OverviewModel, x: InterfaceModel, e: (u32, CounterQuad)) -> bool {
    r.ifindex == e.0 && r.ifname == x.name && r.zone == x.zone && r.cumulative == e.1
}

/// Whether one of the rows is that of an interface with its total.
pub open spec fn tells_total(
    rows: Seq<OverviewModel>,
    x: InterfaceModel,
    e: (u32, CounterQuad),
) -> bool {
    exists|j: int| 0 <= j < rows.len() && is_total(#[trigger] rows[j], x, e)
}

/// The rows of the interfaces have one of the outside wherever the router has an interface there.
pub proof fn law_outside_has_a_row(
    rows: Seq<OverviewModel>,
    topology: Seq<InterfaceModel>,
    totals: Map<u32, CounterQuad>,
    i: int,
)
    ensures
        ({
            let r = with_outside_row(rows, topology, totals);
            &&& rows.len() <= r.len() <= rows.len() + 1
            &&& 0 <= i < rows.len() ==> r[i] == rows[i]
            &&& zone_iface(topology, "wan"@) is Some ==> has_outside_row(r)
            &&& has_outside_row(rows) ==> r == rows
            &&& r.len() > rows.len() ==> (zone_iface(topology, "wan"@) matches Some(x)
                && r.last().ifindex == x.ifindex && r.last().ifname == x.name && r.last().cumulative
                == quad_at(totals, x.ifindex))
        }),
{
    let r = with_outside_row(rows, topology, totals);
    if r.len() > rows.len() {
        assert(r[rows.len() as int].zone == "wan"@);
    }
    if has_outside_row(rows) {
        let j = choose|j: int| 0 <= j < rows.len() && (#[trigger] rows[j]).zone == "wan"@;
        assert(rows[j].zone == "wan"@);
    }
}

/// Whether one of the rows is of the outside.
pub open spec fn has_outside_row(rows: Seq<OverviewModel>) -> bool {
    exists|j: int| 0 <= j < rows.len() && (#[trigger] rows[j]).zone == "wan"@
}

/// Every flow is given to its owner, in the order of the flows.
pub proof fn law_every_flow_is_given_to_its_owner(
    states: Seq<ShareModel>,
    counted: Seq<((Seq<u32>, u8, u8, Seq<u8>), u64)>,
    rates: Seq<u64>,
    owners: Map<(Seq<u32>, u8), (u32, Seq<u8>)>,
    nets: Seq<(u32, u32, u32)>,
    known: Map<(u32, Seq<u8>), KnownModel>,
    now_ms: u64,
)
    requires
        states.len() == counted.len() + 1,
        forall|i: int|
            0 <= i < counted.len() ==> states[i + 1] == with_flow(
                states[i],
                (#[trigger] counted[i]).0,
                counted[i].1,
                rates[i],
                owners,
                nets,
                known,
                now_ms,
            ),
    ensures
        with_flows(states[0], counted, rates, owners, nets, known, now_ms) == states.last(),
    decreases counted.len(),
{
    if counted.len() > 0 {
        let st = states.drop_last();
        let front = counted.drop_last();
        let n = counted.len() - 1;
        assert forall|i: int| 0 <= i < front.len() implies st[i + 1] == with_flow(
            st[i],
            (#[trigger] front[i]).0,
            front[i].1,
            rates[i],
            owners,
            nets,
            known,
            now_ms,
        ) by {
            assert(front[i] == counted[i]);
        }
        law_every_flow_is_given_to_its_owner(st, front, rates, owners, nets, known, now_ms);
        assert(st.last() == states[n]);
        assert(states[n + 1] == with_flow(
            states[n],
            counted[n].0,
            counted[n].1,
            rates[n],
            owners,
            nets,
            known,
            now_ms,
        ));
    }
}

/// What the flows leave for the outside is shown on a row with the address 02:00:00:00:00:00 on its
/// first interface, and what cannot be told apart on one with the address 02:00:00:00:00:01 on the
/// first interface of the inside.
pub proof fn law_rest_of_the_flows_is_shown(
    s: ShareModel,
    counted: Seq<((Seq<u32>, u8, u8, Seq<u8>), u64)>,
    rates: Seq<u64>,
    owners: Map<(Seq<u32>, u8), (u32, Seq<u8>)>,
    topology: Seq<InterfaceModel>,
    known: Map<(u32, Seq<u8>), KnownModel>,
    now_ms: u64,
    lane: Lane,
)
    ensures
        ({
            let t = with_flows(s, counted, rates, owners, local_networks(topology), known, now_ms);
            let r = attributed(s, counted, rates, owners, topology, known, now_ms);
            let out = seq![2u8, 0, 0, 0, 0, 0];
            let unknown = seq![2u8, 0, 0, 0, 0, 1];
            &&& zone_iface(topology, "wan"@) matches Some(x) ==> {
                let k = (x.ifindex, out);
                &&& r.rows.dom().contains(k)
                &&& !t.rows.dom().contains(k) ==> sample_bytes(r.rows[k].metrics, lane)
                    == sample_bytes(t.wan, lane) && r.rows[k].hostname == "WAN (External)"@
            }
            &&& zone_iface(topology, "lan"@) matches Some(x) ==> {
                let k = (x.ifindex, unknown);
                &&& r.rows.dom().contains(k)
                &&& !t.rows.dom().contains(k) ==> sample_bytes(r.rows[k].metrics, lane)
                    == sample_bytes(t.unresolved, lane) && r.rows[k].hostname
                    == "Unresolved (LAN)"@
            }
        }),
{
    let out = seq![2u8, 0, 0, 0, 0, 0];
    let unknown = seq![2u8, 0, 0, 0, 0, 1];
    assert(out[5] != unknown[5]);
    assert(outside_mac() =~= out);
    assert(unresolved_mac() =~= unknown);
    let t = with_flows(s, counted, rates, owners, local_networks(topology), known, now_ms);
    let u = with_summary(
        t,
        zone_iface(topology, "wan"@),
        out,
        "WAN (External)"@,
        t.wan,
        now_ms,
    );
    if let Some(x) = zone_iface(topology, "wan"@) {
        law_rest_is_shown_on_its_row(t, x, out, "WAN (External)"@, t.wan, now_ms, lane);
    }
    if let Some(x) = zone_iface(topology, "lan"@) {
        law_rest_is_shown_on_its_row(
            u,
            x,
            unknown,
            "Unresolved (LAN)"@,
            t.unresolved,
            now_ms,
            lane,
        );
    }
}

/// The limits of interfaces are shown one by one, each with its own rates.
pub proof fn law_limits_are_shown(entries: Seq<(String, RateLimitValue)>, i: int)
    requires
        0 <= i < entries.len(),
    ensures
        limits_shown(entries).len() == entries.len(),
        limits_shown(entries)[i].0 == entries[i].0@,
        limits_shown(entries)[i].1 == rates_of(entries[i].1),
{
}

/// Without its limit for guests an interface spares no device any more; those of others stay spared.
pub proof fn law_spared_devices_of_others_stay(
    m: Map<(Seq<char>, Seq<u8>), ()>,
    iface: Seq<char>,
    k: (Seq<char>, Seq<u8>),
)
    ensures
        k.0 == iface ==> !not_on(m, iface).dom().contains(k),
        k.0 != iface ==> (not_on(m, iface).dom().contains(k) <==> m.dom().contains(k)),
{
}

/// Each device that is counted is told once.
pub proof fn law_counted_devices_are_told_once(keys: Seq<DeviceTrafficKey>, d: (u32, Seq<u8>))
    ensures
        pairs_of(keys).no_duplicates(),
        pairs_of(keys).contains(d) <==> exists|i: int|
            0 <= i < keys.len() && ((#[trigger] keys[i]).ifindex, keys[i].mac@) == d,
    decreases keys.len(),
{
    let r = pairs_of(keys);
    if keys.len() > 0 {
        let front = keys.drop_last();
        let n = keys.len() - 1;
        let before = pairs_of(front);
        law_counted_devices_are_told_once(front, d);
        assert(keys[n] == keys.last());
        if before.contains(d) {
            let i = choose|i: int|
                0 <= i < front.len() && ((#[trigger] front[i]).ifindex, front[i].mac@) == d;
            assert(keys[i] == front[i]);
            let j = choose|j: int| 0 <= j < before.len() && before[j] == d;
            assert(r[j] == d);
        }
        if r.contains(d) && !before.contains(d) {
            let j = choose|j: int| 0 <= j < r.len() && r[j] == d;
            if j < before.len() {
                assert(before[j] == d);
            }
            assert((keys[n].ifindex, keys[n].mac@) == d);
        }
        if exists|i: int| 0 <= i < keys.len() && ((#[trigger] keys[i]).ifindex, keys[i].mac@) == d {
            let i = choose|i: int|
                0 <= i < keys.len() && ((#[trigger] keys[i]).ifindex, keys[i].mac@) == d;
            if i < n {
                assert(front[i] == keys[i]);
            } else if !before.contains(d) {
                assert(r[r.len() - 1] == d);
            }
        }
        if r.len() > before.len() {
            assert forall|i: int, j: int| 0 <= i < j < r.len() implies r[i] != r[j] by {
                if j == before.len() {
                    assert(before.contains(before[i]));
                } else {
                    assert(before[i] != before[j]);
                }
            }
        }
    }
}

/// The total of an interface over a range is the sum of its hours in the range.
pub proof fn law_range_total_is_the_sum_of_its_hours(
    rows: Seq<OverviewModel>,
    h: HistogramModel,
    start: u64,
    end: u64,
    i: int,
    lane: Lane,
)
    requires
        0 <= i < rows.len(),
    ensures
        rows_of_range(rows, h, start, end).len() == rows.len(),
        rows_of_range(rows, h, start, end)[i].ifindex == rows[i].ifindex,
        rows_of_range(rows, h, start, end)[i].metrics == rows[i].metrics,
        sample_bytes(rows_of_range(rows, h, start, end)[i].cumulative, lane) == capped(
            bytes_of_all(all_finalized(hourly_of(h.iface, rows[i].ifindex, start, end)), lane),
        ),
{
    law_total_is_the_sum_of_hours(
        all_finalized(hourly_of(h.iface, rows[i].ifindex, start, end)),
        lane,
    );
}

} // verus!
