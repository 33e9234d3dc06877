//! Traffic that a hardware engine forwards past the packet counters. It is counted
//! by address, so it has to be found out whose it is.
use crate::bucket::{
    add_quad, counter_delta, delta_bytes, fill_quad, filled, sum_quad, zero_quad, CounterQuad,
};
use crate::cidr::{cidr_parts, ipv4_key, ipv6_key, parse_cidr_to_u32, v4_key, v6_key};
use crate::collect::{
    iface_total, put_rates, rates_of, take_rates, with_rates, RateJob, Rates,
};
use crate::deviceset::DeviceSet;
use crate::dnsrec::copy_texts;
use crate::history::quad_at;
use crate::keys::{EcmTrafficKey, TrafficValue};
use crate::mac::{mac_text, to_string};
use crate::rows::{fill_row, row_filled, rows_by};
use crate::runtime::{known_by, KnownDevice, KnownModel};
use crate::snapshot::{
    overview_views, DeviceListItem, DeviceModel, InterfaceOverviewItem, OverviewModel,
};
use crate::table::{Key, Table};
use crate::text::{copy_text, text_eq, trim, trimmed, views};
use crate::topology::{iface_views, InterfaceModel, TopologySnapshot};
use vstd::prelude::*;

verus! {

/// The sum of the counters that each processor keeps.
pub open spec fn cpu_sum(s: Seq<TrafficValue>) -> TrafficValue
    decreases s.len(),
{
    if s.len() == 0 {
        TrafficValue { packets: 0, bytes: 0 }
    } else {
        let v = cpu_sum(s.drop_last());
        TrafficValue {
            packets: v.packets.wrapping_add(s.last().packets),
            bytes: v.bytes.wrapping_add(s.last().bytes),
        }
    }
}

/// The sum of the counters that each processor keeps.
pub fn sum_per_cpu(values: &Vec<TrafficValue>) -> (r: TrafficValue)
    ensures
        r == cpu_sum(values@),
{
    let mut r = TrafficValue { packets: 0, bytes: 0 };
    let mut i: usize = 0;
    assert(values@.take(0) =~= Seq::empty());
    while i < values.len()
        invariant
            i <= values@.len(),
            r == cpu_sum(values@.take(i as int)),
        decreases values@.len() - i,
    {
        assert(values@.take(i + 1).drop_last() =~= values@.take(i as int));
        r = TrafficValue {
            packets: r.packets.wrapping_add(values[i].packets),
            bytes: r.bytes.wrapping_add(values[i].bytes),
        };
        i += 1;
    }
    assert(values@.take(i as int) =~= values@);
    r
}

/// How long a counter may stand still before it is given up.
pub const ECM_IDLE_TIMEOUT_MS: u64 = 30_000;

/// How long the addresses of a device that is gone still count as its own.
pub const ECM_HISTORY_FALLBACK_MS: u64 = 600_000;

/// How far counters went: those that count, those that stood still for too long,
/// what counters stand at then, and when each last moved.
#[verifier::ext_equal]
pub struct FlowModel {
    pub counted: Seq<((Seq<u32>, u8, u8, Seq<u8>), u64)>,
    pub idle: Seq<(Seq<u32>, u8, u8, Seq<u8>)>,
    pub prev: Map<(Seq<u32>, u8, u8, Seq<u8>), u64>,
    pub active: Map<(Seq<u32>, u8, u8, Seq<u8>), u64>,
}

/// After one counter is looked at. One that was not there before counts from where
/// it stands.
pub open spec fn flow_step(
    f: FlowModel,
    k: (Seq<u32>, u8, u8, Seq<u8>),
    bytes: u64,
    now_ms: u64,
) -> FlowModel {
    if !f.prev.dom().contains(k) {
        FlowModel { prev: f.prev.insert(k, bytes), ..f }
    } else {
        let delta = counter_delta(bytes, f.prev[k]);
        let prev = f.prev.insert(k, bytes);
        if delta != 0 {
            FlowModel {
                counted: f.counted.push((k, delta)),
                prev,
                active: f.active.insert(k, now_ms),
                ..f
            }
        } else {
            let last = if f.active.dom().contains(k) {
                f.active[k]
            } else {
                now_ms
            };
            if now_ms - last >= ECM_IDLE_TIMEOUT_MS {
                FlowModel { idle: f.idle.push(k), prev, ..f }
            } else {
                FlowModel { counted: f.counted.push((k, delta)), prev, ..f }
            }
        }
    }
}

/// After all counters are looked at.
pub open spec fn flows_counted(
    stats: Seq<(EcmTrafficKey, TrafficValue)>,
    prev: Map<(Seq<u32>, u8, u8, Seq<u8>), u64>,
    active: Map<(Seq<u32>, u8, u8, Seq<u8>), u64>,
    now_ms: u64,
) -> FlowModel
    decreases stats.len(),
{
    if stats.len() == 0 {
        FlowModel { counted: Seq::empty(), idle: Seq::empty(), prev, active }
    } else {
        flow_step(
            flows_counted(stats.drop_last(), prev, active, now_ms),
            stats.last().0@,
            stats.last().1.bytes,
            now_ms,
        )
    }
}

/// What is kept of counters: those that are there and did not stand still for too
/// long.
pub open spec fn flows_kept(
    m: Map<(Seq<u32>, u8, u8, Seq<u8>), u64>,
    there: Set<(Seq<u32>, u8, u8, Seq<u8>)>,
    idle: Seq<(Seq<u32>, u8, u8, Seq<u8>)>,
) -> Map<(Seq<u32>, u8, u8, Seq<u8>), u64> {
    Map::new(
        |k: (Seq<u32>, u8, u8, Seq<u8>)|
            m.dom().contains(k) && there.contains(k) && !idle.contains(k),
        |k: (Seq<u32>, u8, u8, Seq<u8>)| m[k],
    )
}

/// Counted flows over plain values.
pub open spec fn flow_views(v: Seq<(EcmTrafficKey, u64)>) -> Seq<
    ((Seq<u32>, u8, u8, Seq<u8>), u64),
> {
    Seq::new(v.len(), |i: int| (v[i].0@, v[i].1))
}

/// Keys over plain values.
pub open spec fn key_views(v: Seq<EcmTrafficKey>) -> Seq<(Seq<u32>, u8, u8, Seq<u8>)> {
    Seq::new(v.len(), |i: int| v[i]@)
}

fn has_key(v: &Vec<EcmTrafficKey>, k: &EcmTrafficKey) -> (r: bool)
    ensures
        r == key_views(v@).contains(k@),
{
    let mut i: usize = 0;
    while i < v.len()
        invariant
            i <= v@.len(),
            forall|j: int| 0 <= j < i ==> key_views(v@)[j] != k@,
        decreases v@.len() - i,
    {
        if v[i].same(k) {
            assert(key_views(v@)[i as int] == k@);
            return true;
        }
        i += 1;
    }
    false
}

fn keep_flows(
    t: &mut Table<EcmTrafficKey, u64>,
    stats: &Table<EcmTrafficKey, TrafficValue>,
    idle: &Vec<EcmTrafficKey>,
)
    requires
        old(t).wf(),
        stats.wf(),
    ensures
        final(t).wf(),
        final(t)@ == flows_kept(old(t)@, stats@.dom(), key_views(idle@)),
{
    let ghost m = t@;
    let ghost there = stats@.dom();
    let ghost gone = key_views(idle@);
    let mut i: usize = 0;
    while i < t.len()
        invariant
            t.wf(),
            stats.wf(),
            there == stats@.dom(),
            gone == key_views(idle@),
            i <= t.entries@.len(),
            t@.submap_of(m),
            forall|j: int|
                0 <= j < i ==> there.contains((#[trigger] t.entries@[j]).0@) && !gone.contains(
                    t.entries@[j].0@,
                ),
            forall|k: (Seq<u32>, u8, u8, Seq<u8>)| #[trigger]
                m.dom().contains(k) && there.contains(k) && !gone.contains(k)
                    ==> t@.dom().contains(k),
        decreases t.entries@.len() - i,
    {
        proof {
            t.lemma_entry(i as int);
        }
        let keep = stats.contains(&t.entries[i].0) && !has_key(idle, &t.entries[i].0);
        if keep {
            i += 1;
        } else {
            let ghost mid = *t;
            let _ = t.remove_at(i);
            assert forall|j: int| 0 <= j < i implies there.contains(
                (#[trigger] t.entries@[j]).0@,
            ) && !gone.contains(t.entries@[j].0@) by {
                assert(t.entries@[j] == mid.entries@[j]);
            }
        }
    }
    assert forall|k: (Seq<u32>, u8, u8, Seq<u8>)| #[trigger] t@.dom().contains(k) implies there.contains(
        k,
    ) && !gone.contains(k) by {
        let p = t.place(k);
        t.lemma_entry(p);
    }
    assert(t@ =~= flows_kept(m, there, gone));
}

/// What was counted, and the counters that can be given up.
#[derive(Debug)]
pub struct FlowCount {
    pub counted: Vec<(EcmTrafficKey, u64)>,
    pub idle: Vec<EcmTrafficKey>,
}

/// How far the counters of offloaded traffic went. Where there are none at all,
/// what is remembered of them stays.
pub fn count_flows(
    stats: &Table<EcmTrafficKey, TrafficValue>,
    prev: &mut Table<EcmTrafficKey, u64>,
    active: &mut Table<EcmTrafficKey, u64>,
    now_ms: u64,
) -> (r: FlowCount)
    requires
        stats.wf(),
        old(prev).wf(),
        old(active).wf(),
    ensures
        final(prev).wf(),
        final(active).wf(),
        ({
            let f = flows_counted(stats.entries@, old(prev)@, old(active)@, now_ms);
            &&& flow_views(r.counted@) == f.counted
            &&& key_views(r.idle@) == f.idle
            &&& stats.entries@.len() > 0 ==> final(prev)@ == flows_kept(
                f.prev,
                stats@.dom(),
                f.idle,
            ) && final(active)@ == flows_kept(f.active, stats@.dom(), f.idle)
            &&& stats.entries@.len() == 0 ==> final(prev)@ == old(prev)@ && final(active)@ == old(
                active,
            )@
        }),
{
    let ghost p0 = prev@;
    let ghost a0 = active@;
    let ghost es = stats.entries@;
    let mut counted: Vec<(EcmTrafficKey, u64)> = Vec::new();
    let mut idle: Vec<EcmTrafficKey> = Vec::new();
    let mut i: usize = 0;
    assert(es.take(0) =~= Seq::empty());
    assert(flow_views(counted@) =~= Seq::empty());
    assert(key_views(idle@) =~= Seq::empty());
    while i < stats.entries.len()
        invariant
            i <= stats.entries@.len(),
            es == stats.entries@,
            prev.wf(),
            active.wf(),
            (FlowModel {
                counted: flow_views(counted@),
                idle: key_views(idle@),
                prev: prev@,
                active: active@,
            }) == flows_counted(es.take(i as int), p0, a0, now_ms),
        decreases stats.entries@.len() - i,
    {
        assert(es.take(i + 1).drop_last() =~= es.take(i as int));
        let k = stats.entries[i].0;
        let bytes = stats.entries[i].1.bytes;
        let ghost c0 = flow_views(counted@);
        let ghost i0 = key_views(idle@);
        match prev.get(&k) {
            None => {
                prev.insert(k, bytes);
            },
            Some(last) => {
                let delta = delta_bytes(bytes, *last);
                prev.insert(k, bytes);
                if delta == 0 {
                    let moved: u64 = match active.get(&k) {
                        Some(t) => *t,
                        None => now_ms,
                    };
                    if now_ms.saturating_sub(moved) >= ECM_IDLE_TIMEOUT_MS {
                        idle.push(k);
                        assert(key_views(idle@) =~= i0.push(k@));
                    } else {
                        counted.push((k, delta));
                        assert(flow_views(counted@) =~= c0.push((k@, delta)));
                    }
                } else {
                    active.insert(k, now_ms);
                    counted.push((k, delta));
                    assert(flow_views(counted@) =~= c0.push((k@, delta)));
                }
            },
        }
        i += 1;
    }
    assert(es.take(i as int) =~= es);
    if stats.entries.len() > 0 {
        keep_flows(prev, stats, &idle);
        keep_flows(active, stats, &idle);
    }
    FlowCount { counted, idle }
}

/// A map in which an address may get an owner.
pub open spec fn with_owner(
    m: Map<(Seq<u32>, u8), (u32, Seq<u8>)>,
    address: Option<(Seq<u32>, u8)>,
    owner: (u32, Seq<u8>),
    replace: bool,
) -> Map<(Seq<u32>, u8), (u32, Seq<u8>)> {
    match address {
        Some(k) => if replace || !m.dom().contains(k) {
            m.insert(k, owner)
        } else {
            m
        },
        None => m,
    }
}

/// A map in which addresses may get an owner.
pub open spec fn with_owners(
    m: Map<(Seq<u32>, u8), (u32, Seq<u8>)>,
    texts: Seq<Seq<char>>,
    six: bool,
    owner: (u32, Seq<u8>),
    replace: bool,
) -> Map<(Seq<u32>, u8), (u32, Seq<u8>)>
    decreases texts.len(),
{
    if texts.len() == 0 {
        m
    } else {
        with_owner(
            with_owners(m, texts.drop_last(), six, owner, replace),
            if six {
                v6_key(texts.last())
            } else {
                v4_key(texts.last())
            },
            owner,
            replace,
        )
    }
}

/// The owners of addresses: the devices that are there.
pub open spec fn owners_there(entries: Seq<((u32, [u8; 6]), DeviceListItem)>) -> Map<
    (Seq<u32>, u8),
    (u32, Seq<u8>),
>
    decreases entries.len(),
{
    if entries.len() == 0 {
        Map::empty()
    } else {
        let (k, row) = entries.last();
        with_owners(
            with_owners(owners_there(entries.drop_last()), row@.ipv4, false, k@, true),
            row@.ipv6,
            true,
            k@,
            true,
        )
    }
}

/// The owners of addresses with the devices that were there not long ago, which
/// take no address from another.
pub open spec fn owners_with(
    m: Map<(Seq<u32>, u8), (u32, Seq<u8>)>,
    entries: Seq<((u32, [u8; 6]), KnownDevice)>,
    now_ms: u64,
) -> Map<(Seq<u32>, u8), (u32, Seq<u8>)>
    decreases entries.len(),
{
    if entries.len() == 0 {
        m
    } else {
        let before = owners_with(m, entries.drop_last(), now_ms);
        let (k, d) = entries.last();
        if now_ms - d.last_seen_ms > ECM_HISTORY_FALLBACK_MS {
            before
        } else {
            with_owners(
                with_owners(before, d@.ipv4, false, k@, false),
                d@.ipv6,
                true,
                k@,
                false,
            )
        }
    }
}

/// Owners over plain values.
pub open spec fn owners_by(m: Map<(Seq<u32>, u8), (u32, [u8; 6])>) -> Map<
    (Seq<u32>, u8),
    (u32, Seq<u8>),
> {
    Map::new(|k: (Seq<u32>, u8)| m.dom().contains(k), |k: (Seq<u32>, u8)| (m[k].0, m[k].1@))
}

fn add_owners(
    t: &mut Table<([u32; 4], u8), (u32, [u8; 6])>,
    list: &Vec<String>,
    six: bool,
    owner: &(u32, [u8; 6]),
    replace: bool,
)
    requires
        old(t).wf(),
    ensures
        final(t).wf(),
        owners_by(final(t)@) == with_owners(
            owners_by(old(t)@),
            views(list@),
            six,
            owner@,
            replace,
        ),
{
    let ghost m = owners_by(t@);
    let ghost s = views(list@);
    let mut i: usize = 0;
    assert(s.take(0) =~= Seq::empty());
    while i < list.len()
        invariant
            i <= list@.len(),
            s == views(list@),
            t.wf(),
            owners_by(t@) == with_owners(m, s.take(i as int), six, owner@, replace),
        decreases list@.len() - i,
    {
        assert(s.take(i + 1).drop_last() =~= s.take(i as int));
        assert(s.take(i + 1).last() == list@[i as int]@);
        let key = if six {
            ipv6_key(list[i].as_str())
        } else {
            ipv4_key(list[i].as_str())
        };
        if let Some(k) = key {
            if replace || !t.contains(&k) {
                let ghost before = t@;
                t.insert(k, *owner);
                assert(owners_by(t@) =~= owners_by(before).insert((k.0@, k.1), owner@));
            }
        }
        i += 1;
    }
    assert(s.take(i as int) =~= s);
}

fn address_owners(
    rows: &Table<(u32, [u8; 6]), DeviceListItem>,
    registry: &Table<(u32, [u8; 6]), KnownDevice>,
    now_ms: u64,
) -> (r: Table<([u32; 4], u8), (u32, [u8; 6])>)
    ensures
        r.wf(),
        owners_by(r@) == owners_with(owners_there(rows.entries@), registry.entries@, now_ms),
{
    let mut t: Table<([u32; 4], u8), (u32, [u8; 6])> = Table::new();
    let ghost es = rows.entries@;
    let mut i: usize = 0;
    assert(es.take(0) =~= Seq::empty());
    assert(owners_by(t@) =~= Map::empty());
    while i < rows.entries.len()
        invariant
            i <= rows.entries@.len(),
            es == rows.entries@,
            t.wf(),
            owners_by(t@) == owners_there(es.take(i as int)),
        decreases rows.entries@.len() - i,
    {
        assert(es.take(i + 1).drop_last() =~= es.take(i as int));
        let e = &rows.entries[i];
        add_owners(&mut t, &e.1.ipv4, false, &e.0, true);
        add_owners(&mut t, &e.1.ipv6, true, &e.0, true);
        i += 1;
    }
    assert(es.take(i as int) =~= es);
    let ghost there = owners_by(t@);
    let ghost ks = registry.entries@;
    let mut i: usize = 0;
    assert(ks.take(0) =~= Seq::empty());
    while i < registry.entries.len()
        invariant
            i <= registry.entries@.len(),
            ks == registry.entries@,
            t.wf(),
            owners_by(t@) == owners_with(there, ks.take(i as int), now_ms),
        decreases registry.entries@.len() - i,
    {
        assert(ks.take(i + 1).drop_last() =~= ks.take(i as int));
        let e = &registry.entries[i];
        if now_ms.saturating_sub(e.1.last_seen_ms) <= ECM_HISTORY_FALLBACK_MS {
            add_owners(&mut t, &e.1.ipv4, false, &e.0, false);
            add_owners(&mut t, &e.1.ipv6, true, &e.0, false);
        }
        i += 1;
    }
    assert(ks.take(i as int) =~= ks);
    t
}

/// The networks of a list, with the number of the interface that they are on.
pub open spec fn networks_in(cidrs: Seq<Seq<char>>, ifindex: u32) -> Seq<(u32, u32, u32)>
    decreases cidrs.len(),
{
    if cidrs.len() == 0 {
        Seq::empty()
    } else {
        let before = networks_in(cidrs.drop_last(), ifindex);
        match cidr_parts(cidrs.last()) {
            Some((net, mask)) => before.push((ifindex, net, mask)),
            None => before,
        }
    }
}

/// The IPv4 networks of the interfaces that do not lead outside.
pub open spec fn local_networks(s: Seq<InterfaceModel>) -> Seq<(u32, u32, u32)>
    decreases s.len(),
{
    if s.len() == 0 {
        Seq::empty()
    } else {
        let before = local_networks(s.drop_last());
        if s.last().zone == "wan"@ {
            before
        } else {
            before + networks_in(s.last().ipv4_cidrs, s.last().ifindex)
        }
    }
}

fn list_networks(topology: &TopologySnapshot) -> (r: Vec<(u32, u32, u32)>)
    ensures
        r@ == local_networks(topology@),
{
    let list = topology.interfaces();
    let ghost s = topology@;
    let mut r: Vec<(u32, u32, u32)> = Vec::new();
    let mut i: usize = 0;
    assert(s.take(0) =~= Seq::empty());
    while i < list.len()
        invariant
            i <= list@.len(),
            s == iface_views(list@),
            r@ == local_networks(s.take(i as int)),
        decreases list@.len() - i,
    {
        assert(s.take(i + 1).drop_last() =~= s.take(i as int));
        assert(s.take(i + 1).last() == list@[i as int]@);
        let x = &list[i];
        if !text_eq(x.zone.as_str(), "wan") {
            let ghost before = r@;
            let ghost cs = views(x.ipv4_cidrs@);
            let mut j: usize = 0;
            assert(before + networks_in(cs.take(0), x.ifindex) =~= before);
            while j < x.ipv4_cidrs.len()
                invariant
                    j <= x.ipv4_cidrs@.len(),
                    cs == views(x.ipv4_cidrs@),
                    r@ == before + networks_in(cs.take(j as int), x.ifindex),
                decreases x.ipv4_cidrs@.len() - j,
            {
                assert(cs.take(j + 1).drop_last() =~= cs.take(j as int));
                assert(cs.take(j + 1).last() == x.ipv4_cidrs@[j as int]@);
                if let Some((net, mask)) = parse_cidr_to_u32(x.ipv4_cidrs[j].as_str()) {
                    r.push((x.ifindex, net, mask));
                    assert(r@ =~= before + networks_in(cs.take(j + 1), x.ifindex));
                }
                j += 1;
            }
            assert(cs.take(j as int) =~= cs);
        }
        i += 1;
    }
    assert(s.take(i as int) =~= s);
    r
}

/// The interfaces with a network that holds an address, each once.
pub open spec fn holding_ifaces(nets: Seq<(u32, u32, u32)>, ip: u32) -> Seq<u32>
    decreases nets.len(),
{
    if nets.len() == 0 {
        Seq::empty()
    } else {
        let before = holding_ifaces(nets.drop_last(), ip);
        let (ifindex, net, mask) = nets.last();
        if ip & mask == net & mask && !before.contains(ifindex) {
            before.push(ifindex)
        } else {
            before
        }
    }
}

fn find_holding(nets: &Vec<(u32, u32, u32)>, ip: u32) -> (r: Vec<u32>)
    ensures
        r@ == holding_ifaces(nets@, ip),
{
    let mut r: Vec<u32> = Vec::new();
    let mut i: usize = 0;
    assert(nets@.take(0) =~= Seq::empty());
    while i < nets.len()
        invariant
            i <= nets@.len(),
            r@ == holding_ifaces(nets@.take(i as int), ip),
        decreases nets@.len() - i,
    {
        assert(nets@.take(i + 1).drop_last() =~= nets@.take(i as int));
        let (ifindex, net, mask) = nets[i];
        if ip & mask == net & mask {
            let mut j: usize = 0;
            while j < r.len() && r[j] != ifindex
                invariant
                    j <= r@.len(),
                    forall|x: int| 0 <= x < j ==> r@[x] != ifindex,
                decreases r@.len() - j,
            {
                j += 1;
            }
            if j == r.len() {
                assert(!r@.contains(ifindex));
                r.push(ifindex);
            } else {
                assert(r@[j as int] == ifindex);
            }
        }
        i += 1;
    }
    assert(nets@.take(i as int) =~= nets@);
    r
}

/// Whose a flow is.
pub enum OwnerModel {
    /// A device's.
    Device((u32, Seq<u8>)),
    /// That of some device on an interface.
    Network(u32),
    /// That of a device here that cannot be told.
    Unresolved,
    /// The outside's.
    Outside,
}

/// Whether the first word of an IPv6 address is that of a local one: a unique local
/// address, fc00::/7, or a link-local one, fe80::/10.
pub open spec fn is_local_word(w: u32) -> bool {
    w / 0x200_0000 == 0x7e || w / 0x40_0000 == 0x3fa
}

/// Whose a flow is: that of the device with its address; else, for IPv4, that of the
/// one interface whose networks hold the address. Traffic that is certainly local
/// never counts as the outside's.
pub open spec fn flow_owner(
    k: (Seq<u32>, u8, u8, Seq<u8>),
    owners: Map<(Seq<u32>, u8), (u32, Seq<u8>)>,
    nets: Seq<(u32, u32, u32)>,
) -> OwnerModel {
    if owners.dom().contains((k.0, k.1)) {
        OwnerModel::Device(owners[(k.0, k.1)])
    } else if k.1 == 4 && holding_ifaces(nets, k.0[0]).len() == 1 {
        OwnerModel::Network(holding_ifaces(nets, k.0[0])[0])
    } else if k.1 == 6 && is_local_word(k.0[0]) {
        OwnerModel::Unresolved
    } else {
        OwnerModel::Outside
    }
}

/// The offloaded traffic by owner, and the rows of devices with it.
#[verifier::ext_equal]
pub struct ShareModel {
    pub rows: Map<(u32, Seq<u8>), DeviceModel>,
    pub lan: Map<u32, CounterQuad>,
    pub wan: CounterQuad,
    pub unresolved: CounterQuad,
    pub devices: Set<(u32, Seq<u8>)>,
}

/// The row of a known device whose traffic shows that it is still there.
pub open spec fn revived_row(d: KnownModel, now_ms: u64) -> DeviceModel {
    DeviceModel {
        ifindex: d.ifindex,
        logical_iface: d.logical_iface,
        subnet: d.subnet,
        ipv4: d.ipv4,
        ipv6: d.ipv6,
        mac: mac_text(d.mac),
        hostname: if trimmed(d.hostname).len() == 0 {
            "-"@
        } else {
            d.hostname
        },
        metrics: zero_quad(),
        cumulative: zero_quad(),
        online: true,
        last_seen_ms: now_ms,
        neighbor_state: None,
    }
}

/// The rows with that of a known device whose traffic shows that it is there.
pub open spec fn rows_revived(
    rows: Map<(u32, Seq<u8>), DeviceModel>,
    known: Map<(u32, Seq<u8>), KnownModel>,
    d: (u32, Seq<u8>),
    now_ms: u64,
) -> Map<(u32, Seq<u8>), DeviceModel> {
    if !rows.dom().contains(d) && known.dom().contains(d) {
        rows.insert(d, revived_row(known[d], now_ms))
    } else {
        rows
    }
}

/// The shares with one more flow.
pub open spec fn with_flow(
    s: ShareModel,
    k: (Seq<u32>, u8, u8, Seq<u8>),
    bytes: u64,
    bps: u64,
    owners: Map<(Seq<u32>, u8), (u32, Seq<u8>)>,
    nets: Seq<(u32, u32, u32)>,
    known: Map<(u32, Seq<u8>), KnownModel>,
    now_ms: u64,
) -> ShareModel {
    match flow_owner(k, owners, nets) {
        OwnerModel::Device(d) => {
            let rows = rows_revived(s.rows, known, d, now_ms);
            if rows.dom().contains(d) {
                ShareModel {
                    rows: rows.insert(d, row_filled(rows[d], k.1, k.2, bytes, bps)),
                    lan: s.lan.insert(d.0, filled(quad_at(s.lan, d.0), k.1, k.2, bytes, bps)),
                    devices: s.devices.insert(d),
                    ..s
                }
            } else {
                s
            }
        },
        OwnerModel::Network(i) => ShareModel {
            lan: s.lan.insert(i, filled(quad_at(s.lan, i), k.1, k.2, bytes, bps)),
            ..s
        },
        OwnerModel::Unresolved => ShareModel {
            unresolved: filled(s.unresolved, k.1, k.2, bytes, bps),
            ..s
        },
        OwnerModel::Outside => ShareModel { wan: filled(s.wan, k.1, k.2, bytes, bps), ..s },
    }
}

/// The shares of all flows.
pub open spec fn with_flows(
    s: ShareModel,
    counted: Seq<((Seq<u32>, u8, u8, Seq<u8>), u64)>,
    rates: Seq<u64>,
    owners: Map<(Seq<u32>, u8), (u32, Seq<u8>)>,
    nets: Seq<(u32, u32, u32)>,
    known: Map<(u32, Seq<u8>), KnownModel>,
    now_ms: u64,
) -> ShareModel
    decreases counted.len(),
{
    if counted.len() == 0 {
        s
    } else {
        with_flow(
            with_flows(s, counted.drop_last(), rates, owners, nets, known, now_ms),
            counted.last().0,
            counted.last().1,
            rates[counted.len() - 1],
            owners,
            nets,
            known,
            now_ms,
        )
    }
}

/// The first interface of a zone.
pub open spec fn zone_iface(s: Seq<InterfaceModel>, zone: Seq<char>) -> Option<InterfaceModel>
    decreases s.len(),
{
    if s.len() == 0 {
        None
    } else {
        match zone_iface(s.drop_last(), zone) {
            Some(x) => Some(x),
            None => if s.last().zone == zone {
                Some(s.last())
            } else {
                None
            },
        }
    }
}

/// The row that stands for traffic of no device.
pub open spec fn summary_row(
    x: InterfaceModel,
    mac: Seq<u8>,
    hostname: Seq<char>,
    now_ms: u64,
) -> DeviceModel {
    DeviceModel {
        ifindex: x.ifindex,
        logical_iface: x.name,
        subnet: Seq::empty(),
        ipv4: Seq::empty(),
        ipv6: Seq::empty(),
        mac: mac_text(mac),
        hostname,
        metrics: zero_quad(),
        cumulative: zero_quad(),
        online: true,
        last_seen_ms: now_ms,
        neighbor_state: None,
    }
}

/// The shares with a row on the first interface of a zone for traffic of no device.
pub open spec fn with_summary(
    s: ShareModel,
    iface: Option<InterfaceModel>,
    mac: Seq<u8>,
    hostname: Seq<char>,
    amount: CounterQuad,
    now_ms: u64,
) -> ShareModel {
    match iface {
        Some(x) => {
            let k = (x.ifindex, mac);
            let row = if s.rows.dom().contains(k) {
                s.rows[k]
            } else {
                summary_row(x, mac, hostname, now_ms)
            };
            ShareModel {
                rows: s.rows.insert(
                    k,
                    DeviceModel {
                        online: true,
                        last_seen_ms: now_ms,
                        metrics: if amount == zero_quad() {
                            row.metrics
                        } else {
                            sum_quad(row.metrics, amount)
                        },
                        ..row
                    },
                ),
                devices: if amount == zero_quad() {
                    s.devices
                } else {
                    s.devices.insert(k)
                },
                ..s
            }
        },
        None => s,
    }
}

/// The address under which traffic to the outside is shown.
pub open spec fn outside_mac() -> Seq<u8> {
    seq![2u8, 0, 0, 0, 0, 0]
}

/// The address under which local traffic of an unknown device is shown.
pub open spec fn unresolved_mac() -> Seq<u8> {
    seq![2u8, 0, 0, 0, 0, 1]
}

/// The shares of all flows with the rows for what is no device's.
pub open spec fn attributed(
    s: ShareModel,
    counted: Seq<((Seq<u32>, u8, u8, Seq<u8>), u64)>,
    rates: Seq<u64>,
    owners: Map<(Seq<u32>, u8), (u32, Seq<u8>)>,
    topology: Seq<InterfaceModel>,
    known: Map<(u32, Seq<u8>), KnownModel>,
    now_ms: u64,
) -> ShareModel {
    let t = with_flows(s, counted, rates, owners, local_networks(topology), known, now_ms);
    with_summary(
        with_summary(
            t,
            zone_iface(topology, "wan"@),
            outside_mac(),
            "WAN (External)"@,
            t.wan,
            now_ms,
        ),
        zone_iface(topology, "lan"@),
        unresolved_mac(),
        "Unresolved (LAN)"@,
        t.unresolved,
        now_ms,
    )
}

/// The offloaded traffic by owner, and the rows of devices with it.
pub struct Shares {
    pub rows: Table<(u32, [u8; 6]), DeviceListItem>,
    pub lan: Table<u32, CounterQuad>,
    pub wan: CounterQuad,
    pub unresolved: CounterQuad,
    pub devices: DeviceSet,
}

impl View for Shares {
    type V = ShareModel;

    open spec fn view(&self) -> ShareModel {
        ShareModel {
            rows: rows_by(self.rows@),
            lan: self.lan@,
            wan: self.wan,
            unresolved: self.unresolved,
            devices: self.devices@,
        }
    }
}

/// The shares before any flow.
pub open spec fn no_shares(rows: Map<(u32, Seq<u8>), DeviceModel>) -> ShareModel {
    ShareModel {
        rows,
        lan: Map::empty(),
        wan: zero_quad(),
        unresolved: zero_quad(),
        devices: Set::empty(),
    }
}

fn fill_lan(lan: &mut Table<u32, CounterQuad>, ifindex: u32, ip_version: u8, direction: u8, bytes: u64, bps: u64)
    requires
        old(lan).wf(),
    ensures
        final(lan).wf(),
        final(lan)@ == old(lan)@.insert(
            ifindex,
            filled(quad_at(old(lan)@, ifindex), ip_version, direction, bytes, bps),
        ),
{
    let mut q = iface_total(lan, ifindex);
    fill_quad(ip_version, direction, &mut q, bytes, bps);
    lan.insert(ifindex, q);
}

impl Shares {
    pub open spec fn wf(self) -> bool {
        self.rows.wf() && self.lan.wf()
    }

    fn revive(
        &mut self,
        registry: &Table<(u32, [u8; 6]), KnownDevice>,
        key: &(u32, [u8; 6]),
        now_ms: u64,
    )
        requires
            old(self).wf(),
            registry.wf(),
        ensures
            final(self).wf(),
            final(self)@ == (ShareModel {
                rows: rows_revived(old(self)@.rows, known_by(registry@), key@, now_ms),
                ..old(self)@
            }),
    {
        let ghost m = self.rows@;
        if !self.rows.contains(key) {
            if let Some(known) = registry.get(key) {
                let hostname = if trim(known.hostname.as_str()).as_str().is_empty() {
                    copy_text("-")
                } else {
                    known.hostname.clone()
                };
                let row = DeviceListItem {
                    ifindex: known.ifindex,
                    logical_iface: known.logical_iface.clone(),
                    subnet: known.subnet.clone(),
                    ipv4: copy_texts(&known.ipv4),
                    ipv6: copy_texts(&known.ipv6),
                    mac: to_string(&known.mac),
                    hostname,
                    metrics: CounterQuad::default(),
                    cumulative: CounterQuad::default(),
                    online: true,
                    last_seen_ms: now_ms,
                    neighbor_state: None,
                };
                let ghost rv = row@;
                self.rows.insert(*key, row);
                assert(rows_by(self.rows@) =~= rows_by(m).insert(key@, rv));
            }
        }
    }

    fn add_flow(
        &mut self,
        k: &EcmTrafficKey,
        bytes: u64,
        bps: u64,
        owners: &Table<([u32; 4], u8), (u32, [u8; 6])>,
        nets: &Vec<(u32, u32, u32)>,
        registry: &Table<(u32, [u8; 6]), KnownDevice>,
        now_ms: u64,
    )
        requires
            old(self).wf(),
            owners.wf(),
            registry.wf(),
        ensures
            final(self).wf(),
            final(self)@ == with_flow(
                old(self)@,
                k@,
                bytes,
                bps,
                owners_by(owners@),
                nets@,
                known_by(registry@),
                now_ms,
            ),
    {
        match owners.get(&(k.ip, k.ip_version)) {
            Some(owner) => {
                self.revive(registry, owner, now_ms);
                if let Some(p) = self.rows.find(owner) {
                    fill_row(&mut self.rows, p, k.ip_version, k.direction, bytes, bps);
                    self.devices.insert(owner.0, owner.1);
                    fill_lan(&mut self.lan, owner.0, k.ip_version, k.direction, bytes, bps);
                }
            },
            None => {
                if k.ip_version == 4 {
                    let found = find_holding(nets, k.ip[0]);
                    if found.len() == 1 {
                        fill_lan(&mut self.lan, found[0], k.ip_version, k.direction, bytes, bps);
                        return;
                    }
                }
                let local = k.ip_version == 6 && (k.ip[0] / 0x200_0000 == 0x7e || k.ip[0]
                    / 0x40_0000 == 0x3fa);
                if local {
                    fill_quad(k.ip_version, k.direction, &mut self.unresolved, bytes, bps);
                } else {
                    fill_quad(k.ip_version, k.direction, &mut self.wan, bytes, bps);
                }
            },
        }
    }

    fn add_summary(
        &mut self,
        ifindex: u32,
        name: &str,
        mac: [u8; 6],
        hostname: &str,
        amount: CounterQuad,
        now_ms: u64,
        Ghost(x): Ghost<InterfaceModel>,
    )
        requires
            old(self).wf(),
            x.ifindex == ifindex,
            x.name == name@,
        ensures
            final(self).wf(),
            final(self)@ == with_summary(
                old(self)@,
                Some(x),
                mac@,
                hostname@,
                amount,
                now_ms,
            ),
    {
        let ghost m = self.rows@;
        let key = (ifindex, mac);
        let mut row = match self.rows.get(&key) {
            Some(row) => row.clone(),
            None => {
                let row = DeviceListItem {
                    ifindex,
                    logical_iface: copy_text(name),
                    subnet: String::new(),
                    ipv4: Vec::new(),
                    ipv6: Vec::new(),
                    mac: to_string(&mac),
                    hostname: copy_text(hostname),
                    metrics: CounterQuad::default(),
                    cumulative: CounterQuad::default(),
                    online: true,
                    last_seen_ms: now_ms,
                    neighbor_state: None,
                };
                assert(row@.ipv4 =~= Seq::empty());
                assert(row@.ipv6 =~= Seq::empty());
                assert(row@.subnet =~= Seq::empty());
                row
            },
        };
        row.online = true;
        row.last_seen_ms = now_ms;
        if !amount.is_empty() {
            add_quad(&mut row.metrics, &amount);
            self.devices.insert(ifindex, mac);
        }
        let ghost rv = row@;
        self.rows.insert(key, row);
        assert(rows_by(self.rows@) =~= rows_by(m).insert((ifindex, mac@), rv));
    }
}

/// The first interface of a zone.
pub fn first_of_zone(topology: &TopologySnapshot, zone: &str) -> (r: Option<(u32, String)>)
    ensures
        match r {
            Some((ifindex, name)) => zone_iface(topology@, zone@) matches Some(x) && x.ifindex
                == ifindex && x.name == name@,
            None => zone_iface(topology@, zone@) is None,
        },
{
    let list = topology.interfaces();
    let ghost s = topology@;
    let mut found: Option<(u32, String)> = None;
    let mut i: usize = 0;
    assert(s.take(0) =~= Seq::empty());
    while i < list.len()
        invariant
            i <= list@.len(),
            s == iface_views(list@),
            match found {
                Some((ifindex, name)) => zone_iface(s.take(i as int), zone@) matches Some(x)
                    && x.ifindex == ifindex && x.name == name@,
                None => zone_iface(s.take(i as int), zone@) is None,
            },
        decreases list@.len() - i,
    {
        assert(s.take(i + 1).drop_last() =~= s.take(i as int));
        assert(s.take(i + 1).last() == list@[i as int]@);
        if found.is_none() && text_eq(list[i].zone.as_str(), zone) {
            found = Some((list[i].ifindex, list[i].name.clone()));
        }
        i += 1;
    }
    assert(s.take(i as int) =~= s);
    found
}

/// Finds out whose the counted flows are and adds them to the rows. `rates` holds
/// the rate of each of the `counted`. Where there was no counter at all nothing
/// happens.
pub fn attribute_flows(
    rows: Table<(u32, [u8; 6]), DeviceListItem>,
    any: bool,
    counted: &Vec<(EcmTrafficKey, u64)>,
    rates: &Vec<u64>,
    topology: &TopologySnapshot,
    registry: &Table<(u32, [u8; 6]), KnownDevice>,
    now_ms: u64,
) -> (r: Shares)
    requires
        rows.wf(),
        registry.wf(),
        rates@.len() == counted@.len(),
    ensures
        r.wf(),
        !any ==> r@ == no_shares(rows_by(rows@)),
        any ==> r@ == attributed(
            no_shares(rows_by(rows@)),
            flow_views(counted@),
            rates@,
            owners_with(owners_there(rows.entries@), registry.entries@, now_ms),
            topology@,
            known_by(registry@),
            now_ms,
        ),
{
    let ghost before = no_shares(rows_by(rows@));
    let owners = address_owners(&rows, registry, now_ms);
    let nets = list_networks(topology);
    let ghost os = owners_by(owners@);
    let ghost known = known_by(registry@);
    let ghost cs = flow_views(counted@);
    let mut s = Shares {
        rows,
        lan: Table::new(),
        wan: CounterQuad::default(),
        unresolved: CounterQuad::default(),
        devices: DeviceSet::empty(),
    };
    if !any {
        return s;
    }
    let mut i: usize = 0;
    assert(cs.take(0) =~= Seq::empty());
    while i < counted.len()
        invariant
            i <= counted@.len(),
            rates@.len() == counted@.len(),
            cs == flow_views(counted@),
            os == owners_by(owners@),
            known == known_by(registry@),
            owners.wf(),
            registry.wf(),
            s.wf(),
            s@ == with_flows(before, cs.take(i as int), rates@, os, nets@, known, now_ms),
        decreases counted@.len() - i,
    {
        assert(cs.take(i + 1).drop_last() =~= cs.take(i as int));
        assert(cs.take(i + 1).last() == (counted@[i as int].0@, counted@[i as int].1));
        s.add_flow(&counted[i].0, counted[i].1, rates[i], &owners, &nets, registry, now_ms);
        i += 1;
    }
    assert(cs.take(i as int) =~= cs);
    let wan = s.wan;
    let unresolved = s.unresolved;
    if let Some((ifindex, name)) = first_of_zone(topology, "wan") {
        let mac: [u8; 6] = [2, 0, 0, 0, 0, 0];
        assert(mac@ =~= outside_mac());
        let ghost x = zone_iface(topology@, "wan"@)->0;
        s.add_summary(ifindex, name.as_str(), mac, "WAN (External)", wan, now_ms, Ghost(x));
    }
    if let Some((ifindex, name)) = first_of_zone(topology, "lan") {
        let mac: [u8; 6] = [2, 0, 0, 0, 0, 1];
        assert(mac@ =~= unresolved_mac());
        let ghost x = zone_iface(topology@, "lan"@)->0;
        s.add_summary(ifindex, name.as_str(), mac, "Unresolved (LAN)", unresolved, now_ms, Ghost(x));
    }
    s
}

/// What is to fade of the rates of interfaces.
pub open spec fn fade_jobs_of(entries: Seq<(u32, CounterQuad)>) -> Seq<RateJob> {
    Seq::new(entries.len(), |i: int| RateJob { before: rates_of(entries[i].1), now: None })
}

/// What is to fade of the rates of interfaces.
pub fn fade_jobs(smoothed: &Table<u32, CounterQuad>) -> (r: Vec<RateJob>)
    ensures
        r@ == fade_jobs_of(smoothed.entries@),
{
    let ghost all = fade_jobs_of(smoothed.entries@);
    let mut r: Vec<RateJob> = Vec::new();
    let mut i: usize = 0;
    while i < smoothed.entries.len()
        invariant
            i <= smoothed.entries@.len(),
            all == fade_jobs_of(smoothed.entries@),
            r@ == all.take(i as int),
        decreases smoothed.entries@.len() - i,
    {
        r.push(RateJob { before: take_rates(&smoothed.entries[i].1), now: None });
        assert(all.take(i + 1) =~= all.take(i as int).push(all[i as int]));
        i += 1;
    }
    assert(all.take(i as int) =~= all);
    r
}

/// The rates that are remembered and those that are shown after those of interfaces
/// without offloaded traffic faded. Rates that are gone are forgotten.
pub open spec fn faded(
    entries: Seq<(u32, CounterQuad)>,
    rates: Seq<Rates>,
    lan: Map<u32, CounterQuad>,
) -> (Map<u32, CounterQuad>, Map<u32, CounterQuad>)
    decreases entries.len(),
{
    if entries.len() == 0 {
        (Map::empty(), Map::empty())
    } else {
        let (kept, shown) = faded(entries.drop_last(), rates, lan);
        let (k, q) = entries.last();
        let f = with_rates(zero_quad(), rates[entries.len() - 1]);
        if lan.dom().contains(k) {
            (kept.insert(k, q), shown)
        } else if f == zero_quad() {
            (kept, shown)
        } else {
            (kept.insert(k, f), shown.insert(k, f))
        }
    }
}

/// Lets the rates of interfaces without offloaded traffic fade. `rates` holds what
/// each rate fades to. Tells what is shown.
pub fn fade_rates(
    smoothed: &mut Table<u32, CounterQuad>,
    lan: &Table<u32, CounterQuad>,
    rates: &Vec<Rates>,
) -> (r: Table<u32, CounterQuad>)
    requires
        lan.wf(),
        rates@.len() == old(smoothed).entries@.len(),
    ensures
        final(smoothed).wf(),
        r.wf(),
        (final(smoothed)@, r@) == faded(old(smoothed).entries@, rates@, lan@),
{
    let ghost es = smoothed.entries@;
    let mut kept: Table<u32, CounterQuad> = Table::new();
    let mut shown: Table<u32, CounterQuad> = Table::new();
    let mut i: usize = 0;
    assert(es.take(0) =~= Seq::empty());
    while i < smoothed.entries.len()
        invariant
            i <= smoothed.entries@.len(),
            rates@.len() == smoothed.entries@.len(),
            es == smoothed.entries@,
            lan.wf(),
            kept.wf(),
            shown.wf(),
            (kept@, shown@) == faded(es.take(i as int), rates@, lan@),
        decreases smoothed.entries@.len() - i,
    {
        assert(es.take(i + 1).drop_last() =~= es.take(i as int));
        let k = smoothed.entries[i].0;
        if lan.contains(&k) {
            kept.insert(k, smoothed.entries[i].1);
        } else {
            let f = put_rates(&CounterQuad::default(), &rates[i]);
            if !f.is_empty() {
                kept.insert(k, f);
                shown.insert(k, f);
            }
        }
        i += 1;
    }
    assert(es.take(i as int) =~= es);
    *smoothed = kept;
    shown
}

/// What is to be smoothed of the offloaded traffic of interfaces.
pub open spec fn lan_jobs_of(
    entries: Seq<(u32, CounterQuad)>,
    smoothed: Map<u32, CounterQuad>,
) -> Seq<RateJob> {
    Seq::new(
        entries.len(),
        |i: int|
            RateJob {
                before: rates_of(quad_at(smoothed, entries[i].0)),
                now: Some(rates_of(entries[i].1)),
            },
    )
}

/// What is to be smoothed of the offloaded traffic of interfaces.
pub fn lan_rate_jobs(lan: &Table<u32, CounterQuad>, smoothed: &Table<u32, CounterQuad>) -> (r: Vec<
    RateJob,
>)
    requires
        smoothed.wf(),
    ensures
        r@ == lan_jobs_of(lan.entries@, smoothed@),
{
    let ghost all = lan_jobs_of(lan.entries@, smoothed@);
    let mut r: Vec<RateJob> = Vec::new();
    let mut i: usize = 0;
    while i < lan.entries.len()
        invariant
            i <= lan.entries@.len(),
            smoothed.wf(),
            all == lan_jobs_of(lan.entries@, smoothed@),
            r@ == all.take(i as int),
        decreases lan.entries@.len() - i,
    {
        let last = iface_total(smoothed, lan.entries[i].0);
        r.push(
            RateJob {
                before: take_rates(&last),
                now: Some(take_rates(&lan.entries[i].1)),
            },
        );
        assert(all.take(i + 1) =~= all.take(i as int).push(all[i as int]));
        i += 1;
    }
    assert(all.take(i as int) =~= all);
    r
}

/// The map with the offloaded traffic of interfaces at smoothed rates.
pub open spec fn lan_smoothed(
    entries: Seq<(u32, CounterQuad)>,
    rates: Seq<Rates>,
    m: Map<u32, CounterQuad>,
) -> Map<u32, CounterQuad>
    decreases entries.len(),
{
    if entries.len() == 0 {
        m
    } else {
        lan_smoothed(entries.drop_last(), rates, m).insert(
            entries.last().0,
            with_rates(entries.last().1, rates[entries.len() - 1]),
        )
    }
}

/// Remembers and shows the offloaded traffic of interfaces at smoothed rates.
pub fn set_lan_rates(
    lan: &Table<u32, CounterQuad>,
    rates: &Vec<Rates>,
    smoothed: &mut Table<u32, CounterQuad>,
    shown: &mut Table<u32, CounterQuad>,
)
    requires
        old(smoothed).wf(),
        old(shown).wf(),
        rates@.len() == lan.entries@.len(),
    ensures
        final(smoothed).wf(),
        final(shown).wf(),
        final(smoothed)@ == lan_smoothed(lan.entries@, rates@, old(smoothed)@),
        final(shown)@ == lan_smoothed(lan.entries@, rates@, old(shown)@),
{
    let ghost es = lan.entries@;
    let ghost s0 = smoothed@;
    let ghost h0 = shown@;
    let mut i: usize = 0;
    assert(es.take(0) =~= Seq::empty());
    while i < lan.entries.len()
        invariant
            i <= lan.entries@.len(),
            rates@.len() == lan.entries@.len(),
            es == lan.entries@,
            smoothed.wf(),
            shown.wf(),
            smoothed@ == lan_smoothed(es.take(i as int), rates@, s0),
            shown@ == lan_smoothed(es.take(i as int), rates@, h0),
        decreases lan.entries@.len() - i,
    {
        assert(es.take(i + 1).drop_last() =~= es.take(i as int));
        let q = put_rates(&lan.entries[i].1, &rates[i]);
        smoothed.insert(lan.entries[i].0, q);
        shown.insert(lan.entries[i].0, q);
        i += 1;
    }
    assert(es.take(i as int) =~= es);
}

/// What is to be smoothed of the offloaded traffic to the outside; where there is
/// none it fades.
pub fn wan_rate_job(smoothed: &Option<CounterQuad>, wan: &CounterQuad) -> (r: RateJob)
    ensures
        r == (RateJob {
            before: rates_of(
                match *smoothed {
                    Some(q) => q,
                    None => zero_quad(),
                },
            ),
            now: if *wan == zero_quad() {
                None
            } else {
                Some(rates_of(*wan))
            },
        }),
{
    let before = match smoothed {
        Some(q) => take_rates(q),
        None => take_rates(&CounterQuad::default()),
    };
    RateJob {
        before,
        now: if wan.is_empty() {
            None
        } else {
            Some(take_rates(wan))
        },
    }
}

/// Remembers the offloaded traffic to the outside at smoothed rates, and tells what
/// is shown.
pub fn set_wan_rates(smoothed: &mut Option<CounterQuad>, wan: &CounterQuad, rates: &Rates) -> (r:
    CounterQuad)
    ensures
        r == with_rates(*wan, *rates),
        *final(smoothed) == Some(r),
{
    let q = put_rates(wan, rates);
    *smoothed = Some(q);
    q
}

/// Whether a row is of an interface to the outside.
pub open spec fn has_outside(rows: Seq<OverviewModel>) -> bool {
    exists|i: int| 0 <= i < rows.len() && (#[trigger] rows[i]).zone == "wan"@
}

/// The rows with one of the interface to the outside.
pub open spec fn with_outside_row(
    rows: Seq<OverviewModel>,
    topology: Seq<InterfaceModel>,
    totals: Map<u32, CounterQuad>,
) -> Seq<OverviewModel> {
    if has_outside(rows) {
        rows
    } else {
        match zone_iface(topology, "wan"@) {
            Some(x) => rows.push(
                OverviewModel {
                    ifindex: x.ifindex,
                    ifname: x.name,
                    zone: "wan"@,
                    metrics: zero_quad(),
                    cumulative: quad_at(totals, x.ifindex),
                },
            ),
            None => rows,
        }
    }
}

/// The rows of interfaces with offloaded traffic, and the totals of interfaces.
pub struct InjectModel {
    pub rows: Seq<OverviewModel>,
    pub totals: Map<u32, CounterQuad>,
    pub wan_done: bool,
    pub unresolved_done: bool,
}

/// What is added to rows: the offloaded traffic of interfaces as it is shown and as
/// it was counted, that to the outside, and that of no known device, which goes to
/// one interface.
pub struct AmountModel {
    pub lan_shown: Map<u32, CounterQuad>,
    pub lan: Map<u32, CounterQuad>,
    pub wan_shown: CounterQuad,
    pub wan: CounterQuad,
    pub unresolved: CounterQuad,
    pub lan_ifindex: Option<u32>,
    pub device_rates: Map<(u32, Seq<u8>), CounterQuad>,
}

/// A row and its total with the traffic of its interface.
pub open spec fn with_lan(
    row: OverviewModel,
    totals: Map<u32, CounterQuad>,
    a: AmountModel,
) -> (OverviewModel, Map<u32, CounterQuad>) {
    let k = row.ifindex;
    if a.lan_shown.dom().contains(k) {
        let total = if a.lan.dom().contains(k) {
            sum_quad(quad_at(totals, k), a.lan[k])
        } else {
            quad_at(totals, k)
        };
        (
            OverviewModel {
                metrics: sum_quad(row.metrics, a.lan_shown[k]),
                cumulative: total,
                ..row
            },
            totals.insert(k, total),
        )
    } else {
        (row, totals)
    }
}

/// After one more row. Traffic to the outside is added to the first row of an
/// interface to the outside only.
pub open spec fn inject_step(s: InjectModel, first: OverviewModel, a: AmountModel) -> InjectModel {
    let (row, totals) = with_lan(first, s.totals, a);
    let k = row.ifindex;
    if row.zone == "wan"@ {
        if s.wan_done {
            InjectModel { rows: s.rows.push(row), totals, ..s }
        } else {
            let total = sum_quad(quad_at(totals, k), a.wan);
            InjectModel {
                rows: s.rows.push(
                    OverviewModel {
                        metrics: sum_quad(row.metrics, a.wan_shown),
                        cumulative: total,
                        ..row
                    },
                ),
                totals: totals.insert(k, total),
                wan_done: true,
                ..s
            }
        }
    } else if a.lan_ifindex == Some(k) && !s.unresolved_done {
        let total = sum_quad(quad_at(totals, k), a.unresolved);
        InjectModel {
            rows: s.rows.push(
                OverviewModel {
                    metrics: if a.device_rates.dom().contains((k, unresolved_mac())) {
                        sum_quad(row.metrics, a.device_rates[(k, unresolved_mac())])
                    } else {
                        row.metrics
                    },
                    cumulative: total,
                    ..row
                },
            ),
            totals: totals.insert(k, total),
            unresolved_done: true,
            ..s
        }
    } else {
        InjectModel { rows: s.rows.push(row), totals, ..s }
    }
}

/// After all rows.
pub open spec fn injected(
    rows: Seq<OverviewModel>,
    totals: Map<u32, CounterQuad>,
    a: AmountModel,
) -> InjectModel
    decreases rows.len(),
{
    if rows.len() == 0 {
        InjectModel { rows: Seq::empty(), totals, wan_done: false, unresolved_done: false }
    } else {
        inject_step(injected(rows.drop_last(), totals, a), rows.last(), a)
    }
}

fn add_outside_row(
    rows: &mut Vec<InterfaceOverviewItem>,
    topology: &TopologySnapshot,
    totals: &Table<u32, CounterQuad>,
)
    requires
        totals.wf(),
    ensures
        overview_views(final(rows)@) == with_outside_row(
            overview_views(old(rows)@),
            topology@,
            totals@,
        ),
{
    let ghost all = overview_views(rows@);
    let mut i: usize = 0;
    while i < rows.len()
        invariant
            i <= rows@.len(),
            all == overview_views(rows@),
            forall|j: int| 0 <= j < i ==> (#[trigger] all[j]).zone != "wan"@,
        decreases rows@.len() - i,
    {
        assert(all[i as int] == rows@[i as int]@);
        if text_eq(rows[i].zone.as_str(), "wan") {
            return;
        }
        i += 1;
    }
    if let Some((ifindex, ifname)) = first_of_zone(topology, "wan") {
        let row = InterfaceOverviewItem {
            ifindex,
            ifname,
            zone: copy_text("wan"),
            metrics: CounterQuad::default(),
            cumulative: iface_total(totals, ifindex),
        };
        let ghost rv = row@;
        rows.push(row);
        assert(overview_views(rows@) =~= all.push(rv));
    }
}

/// The offloaded traffic that is added to the rows of interfaces.
pub struct Amounts {
    pub lan_shown: Table<u32, CounterQuad>,
    pub lan: Table<u32, CounterQuad>,
    pub wan_shown: CounterQuad,
    pub wan: CounterQuad,
    pub unresolved: CounterQuad,
}

/// What is added to rows.
pub open spec fn amounts_of(
    a: Amounts,
    topology: Seq<InterfaceModel>,
    device_rates: Map<(u32, Seq<u8>), CounterQuad>,
) -> AmountModel {
    AmountModel {
        lan_shown: a.lan_shown@,
        lan: a.lan@,
        wan_shown: a.wan_shown,
        wan: a.wan,
        unresolved: a.unresolved,
        lan_ifindex: match zone_iface(topology, "lan"@) {
            Some(x) => Some(x.ifindex),
            None => None,
        },
        device_rates,
    }
}

/// Adds offloaded traffic to the rows and the totals of interfaces. An interface to
/// the outside gets a row if it has none.
pub fn inject_flows(
    rows: &mut Vec<InterfaceOverviewItem>,
    totals: &mut Table<u32, CounterQuad>,
    topology: &TopologySnapshot,
    amounts: &Amounts,
    device_rates: &Table<(u32, [u8; 6]), CounterQuad>,
)
    requires
        old(totals).wf(),
        amounts.lan_shown.wf(),
        amounts.lan.wf(),
        device_rates.wf(),
    ensures
        final(totals).wf(),
        ({
            let s = injected(
                with_outside_row(overview_views(old(rows)@), topology@, old(totals)@),
                old(totals)@,
                amounts_of(*amounts, topology@, device_rates@),
            );
            overview_views(final(rows)@) == s.rows && final(totals)@ == s.totals
        }),
{
    add_outside_row(rows, topology, totals);
    let ghost all = overview_views(rows@);
    let ghost t0 = totals@;
    let ghost a = amounts_of(*amounts, topology@, device_rates@);
    let lan_ifindex = match first_of_zone(topology, "lan") {
        Some((i, _)) => Some(i),
        None => None,
    };
    assert(lan_ifindex == a.lan_ifindex);
    let mut wan_done = false;
    let mut unresolved_done = false;
    let mut i: usize = 0;
    assert(all.take(0) =~= Seq::empty());
    assert(injected(all.take(0), t0, a).rows =~= overview_views(rows@).take(0));
    while i < rows.len()
        invariant
            i <= rows@.len(),
            all.len() == rows@.len(),
            totals.wf(),
            amounts.lan_shown.wf(),
            amounts.lan.wf(),
            device_rates.wf(),
            a == amounts_of(*amounts, topology@, device_rates@),
            lan_ifindex == a.lan_ifindex,
            forall|j: int| i <= j < rows@.len() ==> (#[trigger] rows@[j])@ == all[j],
            ({
                let s = injected(all.take(i as int), t0, a);
                &&& overview_views(rows@).take(i as int) == s.rows
                &&& totals@ == s.totals
                &&& wan_done == s.wan_done
                &&& unresolved_done == s.unresolved_done
            }),
        decreases rows@.len() - i,
    {
        assert(all.take(i + 1).drop_last() =~= all.take(i as int));
        assert(all.take(i + 1).last() == all[i as int]);
        assert(rows@[i as int]@ == all[i as int]);
        let ghost before = overview_views(rows@);
        let mut row = rows[i].clone();
        let k = row.ifindex;
        if let Some(q) = amounts.lan_shown.get(&k) {
            let mut total = iface_total(totals, k);
            if let Some(raw) = amounts.lan.get(&k) {
                add_quad(&mut total, raw);
            }
            totals.insert(k, total);
            row.cumulative = total;
            add_quad(&mut row.metrics, q);
        }
        assert((row@, totals@) == with_lan(all[i as int], injected(all.take(i as int), t0, a).totals, a));
        let unresolved_here = match lan_ifindex {
            Some(x) => x == k,
            None => false,
        };
        if text_eq(row.zone.as_str(), "wan") {
            if !wan_done {
                wan_done = true;
                let mut total = iface_total(totals, k);
                add_quad(&mut total, &amounts.wan);
                totals.insert(k, total);
                row.cumulative = total;
                add_quad(&mut row.metrics, &amounts.wan_shown);
            }
        } else if unresolved_here && !unresolved_done {
            unresolved_done = true;
            let mut total = iface_total(totals, k);
            add_quad(&mut total, &amounts.unresolved);
            totals.insert(k, total);
            row.cumulative = total;
            let mac: [u8; 6] = [2, 0, 0, 0, 0, 1];
            assert(mac@ =~= unresolved_mac());
            if let Some(q) = device_rates.get(&(k, mac)) {
                add_quad(&mut row.metrics, q);
            }
        }
        let ghost rv = row@;
        rows.set(i, row);
        assert(overview_views(rows@) =~= before.update(i as int, rv));
        assert(overview_views(rows@).take(i + 1) =~= before.take(i as int).push(rv));
        i += 1;
    }
    assert(all.take(i as int) =~= all);
    assert(overview_views(rows@).take(i as int) =~= overview_views(rows@));
}

/// Traffic that is certainly local never counts as the outside's: the outside's
/// share is the same after any flow of a local IPv6 address.
pub proof fn law_local_is_not_outside(
    s: ShareModel,
    k: (Seq<u32>, u8, u8, Seq<u8>),
    bytes: u64,
    bps: u64,
    owners: Map<(Seq<u32>, u8), (u32, Seq<u8>)>,
    nets: Seq<(u32, u32, u32)>,
    known: Map<(u32, Seq<u8>), KnownModel>,
    now_ms: u64,
)
    requires
        k.1 == 6,
        is_local_word(k.0[0]),
    ensures
        with_flow(s, k, bytes, bps, owners, nets, known, now_ms).wan == s.wan,
{
}

/// An IPv4 flow counts for an interface without a known device only where just one
/// interface has a network for it, and then not as the outside's.
pub proof fn law_ambiguous_is_not_guessed(
    s: ShareModel,
    k: (Seq<u32>, u8, u8, Seq<u8>),
    bytes: u64,
    bps: u64,
    owners: Map<(Seq<u32>, u8), (u32, Seq<u8>)>,
    nets: Seq<(u32, u32, u32)>,
    known: Map<(u32, Seq<u8>), KnownModel>,
    now_ms: u64,
)
    requires
        k.1 == 4,
        !owners.dom().contains((k.0, k.1)),
        holding_ifaces(nets, k.0[0]).len() != 1,
    ensures
        with_flow(s, k, bytes, bps, owners, nets, known, now_ms).lan == s.lan,
        with_flow(s, k, bytes, bps, owners, nets, known, now_ms).rows == s.rows,
{
}

/// A counter that is seen for the first time counts nothing yet.
pub proof fn law_first_sight_counts_nothing(
    f: FlowModel,
    k: (Seq<u32>, u8, u8, Seq<u8>),
    bytes: u64,
    now_ms: u64,
)
    requires
        !f.prev.dom().contains(k),
    ensures
        flow_step(f, k, bytes, now_ms).counted == f.counted,
        flow_step(f, k, bytes, now_ms).prev[k] == bytes,
{
}

/// A device that is there keeps its addresses whatever devices were there before.
pub proof fn law_present_device_owns(
    m: Map<(Seq<u32>, u8), (u32, Seq<u8>)>,
    entries: Seq<((u32, [u8; 6]), KnownDevice)>,
    now_ms: u64,
    address: (Seq<u32>, u8),
)
    requires
        m.dom().contains(address),
    ensures
        owners_with(m, entries, now_ms).dom().contains(address),
        owners_with(m, entries, now_ms)[address] == m[address],
    decreases entries.len(),
{
    if entries.len() > 0 {
        law_present_device_owns(m, entries.drop_last(), now_ms, address);
        let before = owners_with(m, entries.drop_last(), now_ms);
        let (k, d) = entries.last();
        lemma_owners_kept(before, d@.ipv4, false, k@, address);
        lemma_owners_kept(with_owners(before, d@.ipv4, false, k@, false), d@.ipv6, true, k@, address);
    }
}

proof fn lemma_owners_kept(
    m: Map<(Seq<u32>, u8), (u32, Seq<u8>)>,
    texts: Seq<Seq<char>>,
    six: bool,
    owner: (u32, Seq<u8>),
    address: (Seq<u32>, u8),
)
    requires
        m.dom().contains(address),
    ensures
        with_owners(m, texts, six, owner, false).dom().contains(address),
        with_owners(m, texts, six, owner, false)[address] == m[address],
    decreases texts.len(),
{
    if texts.len() > 0 {
        lemma_owners_kept(m, texts.drop_last(), six, owner, address);
    }
}

} // verus!
