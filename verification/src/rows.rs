//! The steps of a snapshot that tell the traffic of devices: who is there, how far
//! the devices' counters went, what is remembered of them, and the list that is
//! shown.
use crate::bucket::{
    add_quad, counter_delta, delta_bytes, fill_quad, filled, sum_quad, zero_quad, CounterQuad,
};
use crate::cidr::{in_network, ipv4_in_cidr};
use crate::collect::{
    count_at, find_last_named, is_monitored, last_named, monitored, previous, put_rates, rates_of,
    take_rates, with_rates, RateJob, Rates,
};
use crate::deviceset::DeviceSet;
use crate::dnsrec::copy_texts;
use crate::history::quad_at;
use crate::hosts::names_by;
use crate::keys::{mac_eq, DeviceTrafficKey, TrafficValue};
use crate::mac::{mac_text, to_string};
use crate::runtime::{
    known_by, make_offline_row, offline_row, total_of, KnownDevice, KnownModel,
};
use crate::snapshot::{device_views, DeviceListItem, DeviceModel};
use crate::sort::{arrange, law_arranged_is_ordered, lemma_same_mapped, ordered};
use crate::system::{
    better_state, has_char, has_text, neighbor_views, pick_best_neighbor_state,
    FilteredNeighborEntry, NeighborModel,
};
use crate::table::Table;
use crate::text::{
    copy_text, less, starts_with, text_eq, text_less, trim, trimmed, views,
};
use crate::topology::{find_index, Interface, InterfaceModel, TopologySnapshot};
use vstd::prelude::*;

verus! {

/// The addresses of one device on one interface, and its best state.
#[derive(Debug)]
pub struct NeighborGroup {
    pub dev: String,
    pub mac: [u8; 6],
    pub ipv4: Vec<String>,
    pub ipv6: Vec<String>,
    pub state: String,
}

/// A group over plain values.
pub struct GroupModel {
    pub dev: Seq<char>,
    pub mac: Seq<u8>,
    pub ipv4: Seq<Seq<char>>,
    pub ipv6: Seq<Seq<char>>,
    pub state: Seq<char>,
}

impl View for NeighborGroup {
    type V = GroupModel;

    open spec fn view(&self) -> GroupModel {
        GroupModel {
            dev: self.dev@,
            mac: self.mac@,
            ipv4: views(self.ipv4@),
            ipv6: views(self.ipv6@),
            state: self.state@,
        }
    }
}

/// Groups over plain values.
pub open spec fn group_views(v: Seq<NeighborGroup>) -> Seq<GroupModel> {
    Seq::new(v.len(), |i: int| v[i]@)
}

/// A list with a text that it may already hold.
pub open spec fn with_text(s: Seq<Seq<char>>, t: Seq<char>) -> Seq<Seq<char>> {
    if s.contains(t) {
        s
    } else {
        s.push(t)
    }
}

/// A group with one more neighbor.
pub open spec fn group_with(g: GroupModel, n: NeighborModel) -> GroupModel {
    GroupModel {
        ipv4: if n.ip.contains(':') {
            g.ipv4
        } else {
            with_text(g.ipv4, n.ip)
        },
        ipv6: if n.ip.contains(':') {
            with_text(g.ipv6, n.ip)
        } else {
            g.ipv6
        },
        state: better_state(g.state, n.state),
        ..g
    }
}

/// The groups with one more neighbor.
pub open spec fn groups_with(gs: Seq<GroupModel>, n: NeighborModel) -> Seq<GroupModel>
    decreases gs.len(),
{
    if gs.len() == 0 {
        seq![
            group_with(
                GroupModel {
                    dev: n.dev,
                    mac: n.mac,
                    ipv4: Seq::empty(),
                    ipv6: Seq::empty(),
                    state: Seq::empty(),
                },
                n,
            ),
        ]
    } else if gs[0].dev == n.dev && gs[0].mac == n.mac {
        gs.update(0, group_with(gs[0], n))
    } else {
        seq![gs[0]] + groups_with(gs.drop_first(), n)
    }
}

/// Neighbors by interface and address.
pub open spec fn grouped(ns: Seq<NeighborModel>) -> Seq<GroupModel>
    decreases ns.len(),
{
    if ns.len() == 0 {
        Seq::empty()
    } else {
        groups_with(grouped(ns.drop_last()), ns.last())
    }
}

fn join_group(g: &mut NeighborGroup, n: &FilteredNeighborEntry)
    ensures
        final(g)@ == group_with(old(g)@, n@),
{
    let ghost before = g@;
    if has_char(n.ip.as_str(), ':') {
        if !has_text(&g.ipv6, n.ip.as_str()) {
            g.ipv6.push(n.ip.clone());
            assert(g@.ipv6 =~= before.ipv6.push(n.ip@));
        }
    } else {
        if !has_text(&g.ipv4, n.ip.as_str()) {
            g.ipv4.push(n.ip.clone());
            assert(g@.ipv4 =~= before.ipv4.push(n.ip@));
        }
    }
    let state = pick_best_neighbor_state(g.state.as_str(), n.state.as_str());
    g.state = state;
}

fn add_neighbor(list: &mut Vec<NeighborGroup>, n: &FilteredNeighborEntry)
    ensures
        group_views(final(list)@) == groups_with(group_views(old(list)@), n@),
{
    let ghost s = group_views(list@);
    let mut i: usize = 0;
    assert(s.skip(0) =~= s);
    assert(groups_with(s, n@) =~= s.take(0) + groups_with(s.skip(0), n@));
    while i < list.len() && !(text_eq(list[i].dev.as_str(), n.dev.as_str()) && mac_eq(
        &list[i].mac,
        &n.mac,
    ))
        invariant
            i <= list@.len(),
            s == group_views(list@),
            groups_with(s, n@) == s.take(i as int) + groups_with(s.skip(i as int), n@),
        decreases list@.len() - i,
    {
        assert(s.skip(i as int)[0] == list@[i as int]@);
        assert(s.skip(i as int).drop_first() =~= s.skip(i + 1));
        assert(s.take(i as int) + groups_with(s.skip(i as int), n@) =~= s.take(i + 1)
            + groups_with(s.skip(i + 1), n@));
        i += 1;
    }
    if i < list.len() {
        assert(s.skip(i as int)[0] == list@[i as int]@);
        join_group(&mut list[i], n);
        assert(group_views(list@) =~= s.take(i as int) + groups_with(s.skip(i as int), n@));
    } else {
        let mut g = NeighborGroup {
            dev: n.dev.clone(),
            mac: n.mac,
            ipv4: Vec::new(),
            ipv6: Vec::new(),
            state: String::new(),
        };
        assert(g@.ipv4 =~= Seq::empty());
        assert(g@.ipv6 =~= Seq::empty());
        assert(g@.state =~= Seq::empty());
        join_group(&mut g, n);
        let ghost gv = g@;
        list.push(g);
        assert(s.skip(i as int) =~= Seq::empty());
        assert(group_views(list@) =~= s.take(i as int) + seq![gv]);
    }
}

/// Neighbors by interface and address, with all their addresses and their best
/// state.
pub fn group_neighbors(neighbors: &Vec<FilteredNeighborEntry>) -> (r: Vec<NeighborGroup>)
    ensures
        group_views(r@) == grouped(neighbor_views(neighbors@)),
{
    let ghost ns = neighbor_views(neighbors@);
    let mut r: Vec<NeighborGroup> = Vec::new();
    let mut i: usize = 0;
    assert(ns.take(0) =~= Seq::empty());
    assert(group_views(r@) =~= Seq::empty());
    while i < neighbors.len()
        invariant
            i <= neighbors@.len(),
            ns == neighbor_views(neighbors@),
            group_views(r@) == grouped(ns.take(i as int)),
        decreases neighbors@.len() - i,
    {
        assert(ns.take(i + 1).drop_last() =~= ns.take(i as int));
        assert(ns.take(i + 1).last() == neighbors@[i as int]@);
        add_neighbor(&mut r, &neighbors[i]);
        i += 1;
    }
    assert(ns.take(i as int) =~= ns);
    r
}

/// A sorted list with a text put behind the last one that does not come behind it.
pub open spec fn text_slotted(s: Seq<Seq<char>>, x: Seq<char>) -> Seq<Seq<char>>
    decreases s.len(),
{
    if s.len() == 0 || !text_less(x, s.last()) {
        s.push(x)
    } else {
        text_slotted(s.drop_last(), x).push(s.last())
    }
}

fn slot_text(v: &mut Vec<String>, x: String)
    ensures
        views(final(v)@) == text_slotted(views(old(v)@), x@),
{
    let ghost s = views(v@);
    let ghost xv = x@;
    let mut i: usize = v.len();
    assert(s.take(i as int) =~= s);
    assert(text_slotted(s, xv) =~= text_slotted(s.take(i as int), xv) + s.skip(i as int));
    while i > 0 && less(x.as_str(), v[i - 1].as_str())
        invariant
            i <= v@.len(),
            s == views(v@),
            xv == x@,
            text_slotted(s, xv) == text_slotted(s.take(i as int), xv) + s.skip(i as int),
        decreases i,
    {
        let ghost t = s.take(i as int);
        assert(t.drop_last() =~= s.take(i - 1));
        assert(t.last() == v@[i - 1]@);
        assert(text_slotted(t, xv) + s.skip(i as int) =~= text_slotted(s.take(i - 1), xv) + s.skip(
            i - 1,
        ));
        i -= 1;
    }
    let ghost t = s.take(i as int);
    if i > 0 {
        assert(t.last() == v@[i - 1]@);
    }
    v.insert(i, x);
    assert(views(v@) =~= t.push(xv) + s.skip(i as int));
}

/// The texts of a list that are link-local addresses, or those that are none, each
/// part sorted.
pub open spec fn sorted_part(s: Seq<Seq<char>>, link_local: bool) -> Seq<Seq<char>>
    decreases s.len(),
{
    if s.len() == 0 {
        Seq::empty()
    } else if "fe80"@.is_prefix_of(s.last()) == link_local {
        text_slotted(sorted_part(s.drop_last(), link_local), s.last())
    } else {
        sorted_part(s.drop_last(), link_local)
    }
}

/// IPv6 addresses as they are shown: sorted, the link-local ones behind the others.
pub open spec fn ipv6_arranged(s: Seq<Seq<char>>) -> Seq<Seq<char>> {
    sorted_part(s, false) + sorted_part(s, true)
}

fn arrange_ipv6(list: &Vec<String>) -> (r: Vec<String>)
    ensures
        views(r@) == ipv6_arranged(views(list@)),
{
    let ghost s = views(list@);
    let mut global: Vec<String> = Vec::new();
    let mut local: Vec<String> = Vec::new();
    let mut i: usize = 0;
    assert(s.take(0) =~= Seq::empty());
    assert(views(global@) =~= Seq::empty());
    assert(views(local@) =~= Seq::empty());
    while i < list.len()
        invariant
            i <= list@.len(),
            s == views(list@),
            views(global@) == sorted_part(s.take(i as int), false),
            views(local@) == sorted_part(s.take(i as int), true),
        decreases list@.len() - i,
    {
        assert(s.take(i + 1).drop_last() =~= s.take(i as int));
        assert(s.take(i + 1).last() == list@[i as int]@);
        if starts_with(list[i].as_str(), "fe80") {
            slot_text(&mut local, list[i].clone());
        } else {
            slot_text(&mut global, list[i].clone());
        }
        i += 1;
    }
    assert(s.take(i as int) =~= s);
    let ghost g = views(global@);
    let ghost l = views(local@);
    let mut i: usize = 0;
    assert(g + l.take(0) =~= g);
    while i < local.len()
        invariant
            i <= local@.len(),
            l == views(local@),
            views(global@) == g + l.take(i as int),
        decreases local@.len() - i,
    {
        let ghost before = views(global@);
        global.push(local[i].clone());
        assert(views(global@) =~= before.push(l[i as int]));
        assert(before.push(l[i as int]) =~= g + l.take(i + 1));
        i += 1;
    }
    assert(l.take(i as int) =~= l);
    global
}

/// The first network of a list that holds an address.
pub open spec fn holding_network(ip: Seq<char>, cidrs: Seq<Seq<char>>) -> Option<Seq<char>>
    decreases cidrs.len(),
{
    if cidrs.len() == 0 {
        None
    } else {
        match holding_network(ip, cidrs.drop_last()) {
            Some(c) => Some(c),
            None => if in_network(ip, cidrs.last()) {
                Some(cidrs.last())
            } else {
                None
            },
        }
    }
}

/// The subnet that is shown for a device: the network that holds its first IPv4
/// address, or else the interface's first network.
pub open spec fn shown_subnet(ipv4: Seq<Seq<char>>, x: InterfaceModel) -> Seq<char> {
    let held = if ipv4.len() > 0 {
        holding_network(ipv4[0], x.ipv4_cidrs)
    } else {
        None
    };
    match held {
        Some(c) => c,
        None => if x.ipv4_cidrs.len() > 0 {
            x.ipv4_cidrs[0]
        } else if x.ipv6_cidrs.len() > 0 {
            x.ipv6_cidrs[0]
        } else {
            "-"@
        },
    }
}

fn find_network(ip: &str, cidrs: &Vec<String>) -> (r: Option<String>)
    ensures
        match r {
            Some(c) => holding_network(ip@, views(cidrs@)) == Some(c@),
            None => holding_network(ip@, views(cidrs@)) is None,
        },
{
    let ghost s = views(cidrs@);
    let mut found: Option<String> = None;
    let mut i: usize = 0;
    assert(s.take(0) =~= Seq::empty());
    while i < cidrs.len()
        invariant
            i <= cidrs@.len(),
            s == views(cidrs@),
            match found {
                Some(c) => holding_network(ip@, s.take(i as int)) == Some(c@),
                None => holding_network(ip@, s.take(i as int)) is None,
            },
        decreases cidrs@.len() - i,
    {
        assert(s.take(i + 1).drop_last() =~= s.take(i as int));
        assert(s.take(i + 1).last() == cidrs@[i as int]@);
        if found.is_none() && ipv4_in_cidr(ip, cidrs[i].as_str()) {
            found = Some(cidrs[i].clone());
        }
        i += 1;
    }
    assert(s.take(i as int) =~= s);
    found
}

fn choose_subnet(ipv4: &Vec<String>, x: &Interface) -> (r: String)
    ensures
        r@ == shown_subnet(views(ipv4@), x@),
{
    let ghost s = views(ipv4@);
    if ipv4.len() > 0 {
        assert(s[0] == ipv4@[0]@);
        if let Some(c) = find_network(ipv4[0].as_str(), &x.ipv4_cidrs) {
            return c;
        }
    }
    if x.ipv4_cidrs.len() > 0 {
        assert(x@.ipv4_cidrs[0] == x.ipv4_cidrs@[0]@);
        x.ipv4_cidrs[0].clone()
    } else if x.ipv6_cidrs.len() > 0 {
        assert(x@.ipv6_cidrs[0] == x.ipv6_cidrs@[0]@);
        x.ipv6_cidrs[0].clone()
    } else {
        copy_text("-")
    }
}

/// The name that is shown for a device: the one that is known, or else the one that
/// the DHCP server knows.
pub open spec fn shown_name(known: Option<KnownModel>, hosts: Map<Seq<u8>, Seq<char>>, mac: Seq<u8>) -> Seq<
    char,
> {
    if known is Some && trimmed(known->0.hostname).len() > 0 && trimmed(known->0.hostname) != "-"@ {
        known->0.hostname
    } else if hosts.dom().contains(mac) {
        hosts[mac]
    } else {
        "-"@
    }
}

/// The entry under a key.
pub open spec fn at_key<KV, V>(m: Map<KV, V>, k: KV) -> Option<V> {
    if m.dom().contains(k) {
        Some(m[k])
    } else {
        None
    }
}

fn choose_name(
    registry: &Table<(u32, [u8; 6]), KnownDevice>,
    hosts: &Table<[u8; 6], String>,
    key: &(u32, [u8; 6]),
) -> (r: String)
    requires
        registry.wf(),
        hosts.wf(),
    ensures
        r@ == shown_name(at_key(known_by(registry@), key@), names_by(hosts@), key.1@),
{
    if let Some(known) = registry.get(key) {
        let h = trim(known.hostname.as_str());
        if !h.as_str().is_empty() && !text_eq(h.as_str(), "-") {
            return known.hostname.clone();
        }
    }
    match hosts.get(&key.1) {
        Some(h) => h.clone(),
        None => copy_text("-"),
    }
}

/// The row of a device that is there, on an interface that is watched and does not
/// lead outside.
pub open spec fn online_row(
    g: GroupModel,
    topology: Seq<InterfaceModel>,
    monitor: Seq<Seq<char>>,
    known: Map<(u32, Seq<u8>), KnownModel>,
    hosts: Map<Seq<u8>, Seq<char>>,
    now_ms: u64,
) -> Option<DeviceModel> {
    match last_named(topology, g.dev) {
        Some(ifindex) => match find_index(topology, ifindex) {
            Some(x) => if "wan"@.is_prefix_of(x.zone) || !is_monitored(monitor, x.name) || (
            g.ipv4.len() == 0 && g.ipv6.len() == 0) {
                None
            } else {
                Some(
                    DeviceModel {
                        ifindex,
                        logical_iface: x.name,
                        subnet: shown_subnet(g.ipv4, x),
                        ipv4: g.ipv4,
                        ipv6: ipv6_arranged(g.ipv6),
                        mac: mac_text(g.mac),
                        hostname: shown_name(at_key(known, (ifindex, g.mac)), hosts, g.mac),
                        metrics: zero_quad(),
                        cumulative: zero_quad(),
                        online: true,
                        last_seen_ms: now_ms,
                        neighbor_state: Some(g.state),
                    },
                )
            },
            None => None,
        },
        None => None,
    }
}

/// The rows of the devices that are there, by interface and address.
pub open spec fn online_rows(
    gs: Seq<GroupModel>,
    topology: Seq<InterfaceModel>,
    monitor: Seq<Seq<char>>,
    known: Map<(u32, Seq<u8>), KnownModel>,
    hosts: Map<Seq<u8>, Seq<char>>,
    now_ms: u64,
) -> Map<(u32, Seq<u8>), DeviceModel>
    decreases gs.len(),
{
    if gs.len() == 0 {
        Map::empty()
    } else {
        let m = online_rows(gs.drop_last(), topology, monitor, known, hosts, now_ms);
        match online_row(gs.last(), topology, monitor, known, hosts, now_ms) {
            Some(row) => m.insert((row.ifindex, gs.last().mac), row),
            None => m,
        }
    }
}

/// Rows by key, over plain values.
pub open spec fn rows_by(m: Map<(u32, Seq<u8>), DeviceListItem>) -> Map<(u32, Seq<u8>), DeviceModel> {
    Map::new(|k: (u32, Seq<u8>)| m.dom().contains(k), |k: (u32, Seq<u8>)| m[k]@)
}

fn make_online_row(
    g: &NeighborGroup,
    topology: &TopologySnapshot,
    monitor_ifaces: &Vec<String>,
    registry: &Table<(u32, [u8; 6]), KnownDevice>,
    hosts: &Table<[u8; 6], String>,
    now_ms: u64,
) -> (r: Option<DeviceListItem>)
    requires
        registry.wf(),
        hosts.wf(),
    ensures
        match r {
            Some(row) => online_row(
                g@,
                topology@,
                views(monitor_ifaces@),
                known_by(registry@),
                names_by(hosts@),
                now_ms,
            ) == Some(row@),
            None => online_row(
                g@,
                topology@,
                views(monitor_ifaces@),
                known_by(registry@),
                names_by(hosts@),
                now_ms,
            ) is None,
        },
{
    let ifindex = match find_last_named(topology, g.dev.as_str()) {
        Some(i) => i,
        None => {
            return None;
        },
    };
    let x = match topology.by_ifindex(ifindex) {
        Some(x) => x,
        None => {
            return None;
        },
    };
    if starts_with(x.zone.as_str(), "wan") || !monitored(monitor_ifaces, x.name.as_str()) {
        return None;
    }
    if g.ipv4.len() == 0 && g.ipv6.len() == 0 {
        return None;
    }
    Some(
        DeviceListItem {
            ifindex,
            logical_iface: x.name.clone(),
            subnet: choose_subnet(&g.ipv4, x),
            ipv4: copy_texts(&g.ipv4),
            ipv6: arrange_ipv6(&g.ipv6),
            mac: to_string(&g.mac),
            hostname: choose_name(registry, hosts, &(ifindex, g.mac)),
            metrics: CounterQuad::default(),
            cumulative: CounterQuad::default(),
            online: true,
            last_seen_ms: now_ms,
            neighbor_state: Some(g.state.clone()),
        },
    )
}

/// The rows of the devices that are there.
pub fn online_devices(
    groups: &Vec<NeighborGroup>,
    topology: &TopologySnapshot,
    monitor_ifaces: &Vec<String>,
    registry: &Table<(u32, [u8; 6]), KnownDevice>,
    hosts: &Table<[u8; 6], String>,
    now_ms: u64,
) -> (r: Table<(u32, [u8; 6]), DeviceListItem>)
    requires
        registry.wf(),
        hosts.wf(),
    ensures
        r.wf(),
        rows_by(r@) == online_rows(
            group_views(groups@),
            topology@,
            views(monitor_ifaces@),
            known_by(registry@),
            names_by(hosts@),
            now_ms,
        ),
{
    let ghost gs = group_views(groups@);
    let ghost mon = views(monitor_ifaces@);
    let ghost known = known_by(registry@);
    let ghost hs = names_by(hosts@);
    let mut t: Table<(u32, [u8; 6]), DeviceListItem> = Table::new();
    let mut i: usize = 0;
    assert(gs.take(0) =~= Seq::empty());
    assert(rows_by(t@) =~= Map::empty());
    while i < groups.len()
        invariant
            i <= groups@.len(),
            gs == group_views(groups@),
            mon == views(monitor_ifaces@),
            known == known_by(registry@),
            hs == names_by(hosts@),
            registry.wf(),
            hosts.wf(),
            t.wf(),
            rows_by(t@) == online_rows(gs.take(i as int), topology@, mon, known, hs, now_ms),
        decreases groups@.len() - i,
    {
        assert(gs.take(i + 1).drop_last() =~= gs.take(i as int));
        assert(gs.take(i + 1).last() == groups@[i as int]@);
        let g = &groups[i];
        if let Some(row) = make_online_row(g, topology, monitor_ifaces, registry, hosts, now_ms) {
            let ghost before = t@;
            let ghost rv = row@;
            let key = (row.ifindex, g.mac);
            t.insert(key, row);
            assert(rows_by(t@) =~= rows_by(before).insert((rv.ifindex, g.mac@), rv));
        }
        i += 1;
    }
    assert(gs.take(i as int) =~= gs);
    t
}

/// How far the counters of present devices went, and what counters stand at then.
pub open spec fn devices_counted(
    stats: Seq<(DeviceTrafficKey, TrafficValue)>,
    present: Set<(u32, Seq<u8>)>,
    prev: Map<(u32, Seq<u8>, u8, u8), u64>,
) -> (Seq<((u32, Seq<u8>, u8, u8), u64)>, Map<(u32, Seq<u8>, u8, u8), u64>)
    decreases stats.len(),
{
    if stats.len() == 0 {
        (Seq::empty(), prev)
    } else {
        let (list, m) = devices_counted(stats.drop_last(), present, prev);
        let (k, v) = stats.last();
        if present.contains((k.ifindex, k.mac@)) {
            (
                list.push((k@, counter_delta(v.bytes, count_at(m, k@)))),
                m.insert(k@, v.bytes),
            )
        } else {
            (list, m)
        }
    }
}

/// Counted bytes over plain values.
pub open spec fn counted_views(v: Seq<(DeviceTrafficKey, u64)>) -> Seq<
    ((u32, Seq<u8>, u8, u8), u64),
> {
    Seq::new(v.len(), |i: int| (v[i].0@, v[i].1))
}

/// How far the counters of present devices went since the last snapshot.
pub fn device_deltas(
    rows: &Table<(u32, [u8; 6]), DeviceListItem>,
    stats: &Table<DeviceTrafficKey, TrafficValue>,
    prev: &mut Table<DeviceTrafficKey, u64>,
) -> (r: Vec<(DeviceTrafficKey, u64)>)
    requires
        rows.wf(),
        old(prev).wf(),
    ensures
        final(prev).wf(),
        (counted_views(r@), final(prev)@) == devices_counted(
            stats.entries@,
            rows@.dom(),
            old(prev)@,
        ),
{
    let ghost p0 = prev@;
    let ghost es = stats.entries@;
    let mut r: Vec<(DeviceTrafficKey, u64)> = Vec::new();
    let mut i: usize = 0;
    assert(es.take(0) =~= Seq::empty());
    assert(counted_views(r@) =~= Seq::empty());
    while i < stats.entries.len()
        invariant
            i <= stats.entries@.len(),
            es == stats.entries@,
            rows.wf(),
            prev.wf(),
            (counted_views(r@), prev@) == devices_counted(es.take(i as int), rows@.dom(), p0),
        decreases stats.entries@.len() - i,
    {
        assert(es.take(i + 1).drop_last() =~= es.take(i as int));
        let k = &stats.entries[i].0;
        let v = &stats.entries[i].1;
        if rows.contains(&(k.ifindex, k.mac)) {
            let ghost before = counted_views(r@);
            let bytes = delta_bytes(v.bytes, previous(prev, k));
            prev.insert(*k, v.bytes);
            r.push((*k, bytes));
            assert(counted_views(r@) =~= before.push((k@, bytes)));
        }
        i += 1;
    }
    assert(es.take(i as int) =~= es);
    r
}

/// A row with traffic added.
pub open spec fn row_filled(row: DeviceModel, ip_version: u8, direction: u8, bytes: u64, bps: u64) -> DeviceModel {
    DeviceModel { metrics: filled(row.metrics, ip_version, direction, bytes, bps), ..row }
}

/// Adds traffic to the row at a place.
pub(crate) fn fill_row(
    rows: &mut Table<(u32, [u8; 6]), DeviceListItem>,
    i: usize,
    ip_version: u8,
    direction: u8,
    bytes: u64,
    bps: u64,
)
    requires
        old(rows).wf(),
        i < old(rows).entries@.len(),
    ensures
        final(rows).wf(),
        final(rows).keys() == old(rows).keys(),
        final(rows).entries@.len() == old(rows).entries@.len(),
        rows_by(final(rows)@) == rows_by(old(rows)@).insert(
            old(rows).entries@[i as int].0@,
            row_filled(old(rows).entries@[i as int].1@, ip_version, direction, bytes, bps),
        ),
{
    let ghost m = rows@;
    let ghost k = rows.entries@[i as int].0@;
    let mut row = rows.entries[i].1.clone();
    fill_quad(ip_version, direction, &mut row.metrics, bytes, bps);
    let ghost rv = row@;
    rows.set_at(i, row);
    assert(rows_by(rows@) =~= rows_by(m).insert(k, rv));
}

/// The rows with the traffic that was counted.
pub open spec fn rows_filled(
    m: Map<(u32, Seq<u8>), DeviceModel>,
    counted: Seq<((u32, Seq<u8>, u8, u8), u64)>,
    rates: Seq<u64>,
) -> Map<(u32, Seq<u8>), DeviceModel>
    decreases counted.len(),
{
    if counted.len() == 0 {
        m
    } else {
        let before = rows_filled(m, counted.drop_last(), rates);
        let (k, bytes) = counted.last();
        if before.dom().contains((k.0, k.1)) {
            before.insert(
                (k.0, k.1),
                row_filled(before[(k.0, k.1)], k.2, k.3, bytes, rates[counted.len() - 1]),
            )
        } else {
            before
        }
    }
}

/// Adds counted traffic to the rows of devices. `rates` holds the rate of each of
/// the `counted`.
pub fn fill_devices(
    rows: &mut Table<(u32, [u8; 6]), DeviceListItem>,
    counted: &Vec<(DeviceTrafficKey, u64)>,
    rates: &Vec<u64>,
)
    requires
        old(rows).wf(),
        rates@.len() == counted@.len(),
    ensures
        final(rows).wf(),
        final(rows).keys() == old(rows).keys(),
        rows_by(final(rows)@) == rows_filled(
            rows_by(old(rows)@),
            counted_views(counted@),
            rates@,
        ),
{
    let ghost m = rows_by(rows@);
    let ghost keys = rows.keys();
    let ghost cs = counted_views(counted@);
    let mut i: usize = 0;
    assert(cs.take(0) =~= Seq::empty());
    while i < counted.len()
        invariant
            i <= counted@.len(),
            rates@.len() == counted@.len(),
            cs == counted_views(counted@),
            rows.wf(),
            rows.keys() == keys,
            rows_by(rows@) == rows_filled(m, cs.take(i as int), rates@),
        decreases counted@.len() - i,
    {
        assert(cs.take(i + 1).drop_last() =~= cs.take(i as int));
        assert(cs.take(i + 1).last() == (counted@[i as int].0@, counted@[i as int].1));
        let k = &counted[i].0;
        if let Some(p) = rows.find(&(k.ifindex, k.mac)) {
            fill_row(rows, p, k.ip_version, k.direction, counted[i].1, rates[i]);
        }
        i += 1;
    }
    assert(cs.take(i as int) =~= cs);
}

/// A row with its total.
pub open spec fn row_totalled(row: DeviceModel, total: CounterQuad) -> DeviceModel {
    DeviceModel { cumulative: sum_quad(total, row.metrics), ..row }
}

/// The rows with their totals.
pub open spec fn rows_totalled(
    rows: Map<(u32, Seq<u8>), DeviceModel>,
    totals: Map<(u32, Seq<u8>), CounterQuad>,
) -> Map<(u32, Seq<u8>), DeviceModel> {
    Map::new(
        |k: (u32, Seq<u8>)| rows.dom().contains(k),
        |k: (u32, Seq<u8>)| row_totalled(rows[k], quad_at(totals, k)),
    )
}

/// The totals of devices with the traffic of the rows.
pub open spec fn totals_with(
    rows: Map<(u32, Seq<u8>), DeviceModel>,
    totals: Map<(u32, Seq<u8>), CounterQuad>,
) -> Map<(u32, Seq<u8>), CounterQuad> {
    Map::new(
        |k: (u32, Seq<u8>)| totals.dom().contains(k) || rows.dom().contains(k),
        |k: (u32, Seq<u8>)|
            if rows.dom().contains(k) {
                sum_quad(quad_at(totals, k), rows[k].metrics)
            } else {
                totals[k]
            },
    )
}

/// Adds the traffic of the rows to the totals of the devices and puts the totals
/// into the rows.
pub fn add_device_totals(
    rows: &mut Table<(u32, [u8; 6]), DeviceListItem>,
    totals: &mut Table<(u32, [u8; 6]), CounterQuad>,
)
    requires
        old(rows).wf(),
        old(totals).wf(),
    ensures
        final(rows).wf(),
        final(totals).wf(),
        final(rows).keys() == old(rows).keys(),
        rows_by(final(rows)@) == rows_totalled(rows_by(old(rows)@), old(totals)@),
        final(totals)@ == totals_with(rows_by(old(rows)@), old(totals)@),
{
    let ghost m = rows_by(rows@);
    let ghost t0 = totals@;
    let ghost keys = rows.keys();
    let ghost start = *rows;
    let mut i: usize = 0;
    while i < rows.len()
        invariant
            i <= rows.entries@.len(),
            rows.wf(),
            totals.wf(),
            start.wf(),
            m == rows_by(start@),
            keys == start.keys(),
            rows.keys() == keys,
            rows.entries@.len() == start.entries@.len(),
            forall|j: int|
                0 <= j < i ==> (#[trigger] rows.entries@[j]).1@ == row_totalled(
                    start.entries@[j].1@,
                    quad_at(t0, keys[j]),
                ),
            forall|j: int|
                i <= j < rows.entries@.len() ==> #[trigger] rows.entries@[j] == start.entries@[j],
            forall|k: (u32, Seq<u8>)| #[trigger]
                totals@.dom().contains(k) <==> t0.dom().contains(k) || keys.take(i as int).contains(k),
            forall|j: int|
                0 <= j < i ==> totals@[#[trigger] keys[j]] == sum_quad(
                    quad_at(t0, keys[j]),
                    start.entries@[j].1@.metrics,
                ),
            forall|k: (u32, Seq<u8>)|
                t0.dom().contains(k) && !keys.take(i as int).contains(k) ==> #[trigger] totals@[k]
                    == t0[k],
        decreases rows.entries@.len() - i,
    {
        let k = rows.entries[i].0;
        assert(k@ == keys[i as int]) by {
            assert(rows.keys()[i as int] == k@);
        }
        assert(!keys.take(i as int).contains(k@)) by {
            if keys.take(i as int).contains(k@) {
                let j = choose|j: int| 0 <= j < i && keys.take(i as int)[j] == k@;
                assert(start.entries@[j].0@ == start.entries@[i as int].0@);
            }
        }
        let mut total = total_of(totals, &k);
        assert(total == quad_at(t0, k@));
        add_quad(&mut total, &rows.entries[i].1.metrics);
        let mut row = rows.entries[i].1.clone();
        row.cumulative = total;
        let ghost kt = keys.take(i as int);
        totals.insert(k, total);
        rows.set_at(i, row);
        assert(keys.take(i + 1) =~= kt.push(k@));
        assert forall|x: (u32, Seq<u8>)| keys.take(i + 1).contains(x) <==> kt.contains(x) || x == k@ by {
            assert(kt.push(k@)[i as int] == k@);
            if kt.contains(x) {
                let j = choose|j: int| 0 <= j < kt.len() && kt[j] == x;
                assert(kt.push(k@)[j] == x);
            }
        }
        assert forall|j: int| 0 <= j < i implies keys[j] != k@ by {
            assert(kt[j] == keys[j]);
        }
        i += 1;
    }
    proof {
        assert(keys.take(i as int) =~= keys);
        assert forall|k: (u32, Seq<u8>)| m.dom().contains(k) <==> keys.contains(k) by {
            if m.dom().contains(k) {
                let p = start.place(k);
                assert(keys[p] == k);
            }
            if keys.contains(k) {
                let j = choose|j: int| 0 <= j < keys.len() && keys[j] == k;
                start.lemma_entry(j);
            }
        }
        assert(rows_by(rows@) =~= rows_totalled(m, t0)) by {
            assert forall|k: (u32, Seq<u8>)| rows@.dom().contains(k) <==> m.dom().contains(k) by {
                if rows@.dom().contains(k) {
                    let p = rows.place(k);
                    assert(rows.keys()[p] == k);
                }
                if keys.contains(k) {
                    let j = choose|j: int| 0 <= j < keys.len() && keys[j] == k;
                    assert(rows.keys()[j] == rows.entries@[j].0@);
                    rows.lemma_entry(j);
                }
            }
            assert forall|k: (u32, Seq<u8>)| m.dom().contains(k) implies rows@[k]@ == row_totalled(
                m[k],
                quad_at(t0, k),
            ) by {
                let j = choose|j: int| 0 <= j < keys.len() && keys[j] == k;
                assert(rows.keys()[j] == rows.entries@[j].0@);
                rows.lemma_entry(j);
                start.lemma_entry(j);
            }
        }
        assert(totals@ =~= totals_with(m, t0)) by {
            assert forall|k: (u32, Seq<u8>)| totals@.dom().contains(k) implies totals@[k]
                == totals_with(m, t0)[k] by {
                if m.dom().contains(k) {
                    assert(keys.contains(k));
                    let j = choose|j: int| 0 <= j < keys.len() && keys[j] == k;
                    start.lemma_entry(j);
                }
            }
        }
    }
}

/// What is to be smoothed of the rows of devices, in their order.
pub open spec fn device_jobs_of(
    entries: Seq<((u32, [u8; 6]), DeviceListItem)>,
    smoothed: Map<(u32, Seq<u8>), CounterQuad>,
) -> Seq<RateJob> {
    Seq::new(
        entries.len(),
        |i: int|
            RateJob {
                before: rates_of(quad_at(smoothed, entries[i].0@)),
                now: Some(rates_of(entries[i].1.metrics)),
            },
    )
}

/// What is to be smoothed of the rows of devices.
pub fn device_rate_jobs(
    rows: &Table<(u32, [u8; 6]), DeviceListItem>,
    smoothed: &Table<(u32, [u8; 6]), CounterQuad>,
) -> (r: Vec<RateJob>)
    requires
        smoothed.wf(),
    ensures
        r@ == device_jobs_of(rows.entries@, smoothed@),
{
    let ghost all = device_jobs_of(rows.entries@, smoothed@);
    let mut r: Vec<RateJob> = Vec::new();
    let mut i: usize = 0;
    while i < rows.entries.len()
        invariant
            i <= rows.entries@.len(),
            smoothed.wf(),
            all == device_jobs_of(rows.entries@, smoothed@),
            r@ == all.take(i as int),
        decreases rows.entries@.len() - i,
    {
        let e = &rows.entries[i];
        let last = total_of(smoothed, &e.0);
        r.push(RateJob { before: take_rates(&last), now: Some(take_rates(&e.1.metrics)) });
        assert(all.take(i + 1) =~= all.take(i as int).push(all[i as int]));
        i += 1;
    }
    assert(all.take(i as int) =~= all);
    r
}

/// The traffic of a row as it is shown: with smoothed rates where its device has
/// offloaded traffic.
pub open spec fn shown_metrics(q: CounterQuad, active: bool, rates: Rates) -> CounterQuad {
    if active {
        with_rates(q, rates)
    } else {
        q
    }
}

/// The rates that are remembered of devices: the smoothed ones where a device has
/// offloaded traffic, else what was measured.
pub open spec fn device_rates_noted(
    entries: Seq<((u32, [u8; 6]), DeviceListItem)>,
    rates: Seq<Rates>,
    active: Set<(u32, Seq<u8>)>,
    smoothed: Map<(u32, Seq<u8>), CounterQuad>,
) -> Map<(u32, Seq<u8>), CounterQuad>
    decreases entries.len(),
{
    if entries.len() == 0 {
        smoothed
    } else {
        let m = device_rates_noted(entries.drop_last(), rates, active, smoothed);
        let k = entries.last().0@;
        m.insert(
            k,
            if active.contains(k) {
                with_rates(quad_at(m, k), rates[entries.len() - 1])
            } else {
                entries.last().1.metrics
            },
        )
    }
}

/// Puts smoothed rates into the rows of devices that have offloaded traffic, and
/// remembers what is shown. `rates` holds the smoothed rates of each row.
pub fn set_device_rates(
    rows: &mut Table<(u32, [u8; 6]), DeviceListItem>,
    smoothed: &mut Table<(u32, [u8; 6]), CounterQuad>,
    active: &DeviceSet,
    rates: &Vec<Rates>,
)
    requires
        old(rows).wf(),
        old(smoothed).wf(),
        rates@.len() == old(rows).entries@.len(),
    ensures
        final(rows).wf(),
        final(smoothed).wf(),
        final(rows).keys() == old(rows).keys(),
        final(rows).entries@.len() == old(rows).entries@.len(),
        forall|i: int|
            0 <= i < final(rows).entries@.len() ==> (#[trigger] final(rows).entries@[i]).1@ == (
            DeviceModel {
                metrics: shown_metrics(
                    old(rows).entries@[i].1.metrics,
                    active@.contains(old(rows).entries@[i].0@),
                    rates@[i],
                ),
                ..old(rows).entries@[i].1@
            }),
        final(smoothed)@ == device_rates_noted(
            old(rows).entries@,
            rates@,
            active@,
            old(smoothed)@,
        ),
{
    let ghost es = rows.entries@;
    let ghost s0 = smoothed@;
    let ghost keys = rows.keys();
    let mut i: usize = 0;
    assert(es.take(0) =~= Seq::empty());
    while i < rows.len()
        invariant
            i <= rows.entries@.len(),
            rates@.len() == rows.entries@.len(),
            es.len() == rows.entries@.len(),
            rows.wf(),
            smoothed.wf(),
            rows.keys() == keys,
            forall|j: int|
                0 <= j < i ==> (#[trigger] rows.entries@[j]).1@ == (DeviceModel {
                    metrics: shown_metrics(
                        es[j].1.metrics,
                        active@.contains(es[j].0@),
                        rates@[j],
                    ),
                    ..es[j].1@
                }),
            forall|j: int| i <= j < rows.entries@.len() ==> #[trigger] rows.entries@[j] == es[j],
            smoothed@ == device_rates_noted(es.take(i as int), rates@, active@, s0),
        decreases rows.entries@.len() - i,
    {
        assert(es.take(i + 1).drop_last() =~= es.take(i as int));
        assert(rows.entries@[i as int] == es[i as int]);
        let k = rows.entries[i].0;
        if active.contains(k.0, k.1) {
            let last = total_of(smoothed, &k);
            smoothed.insert(k, put_rates(&last, &rates[i]));
            let mut row = rows.entries[i].1.clone();
            row.metrics = put_rates(&row.metrics, &rates[i]);
            rows.set_at(i, row);
        } else {
            smoothed.insert(k, rows.entries[i].1.metrics);
        }
        i += 1;
    }
    assert(es.take(i as int) =~= es);
}

/// A row as it is remembered.
pub open spec fn remembered(row: DeviceModel, mac: Seq<u8>, now_ms: u64) -> KnownModel {
    KnownModel {
        ifindex: row.ifindex,
        mac,
        ipv4: row.ipv4,
        ipv6: row.ipv6,
        hostname: row.hostname,
        logical_iface: row.logical_iface,
        subnet: row.subnet,
        last_seen_ms: now_ms,
    }
}

/// The known devices with those of the rows.
pub open spec fn known_with(
    known: Map<(u32, Seq<u8>), KnownModel>,
    entries: Seq<((u32, [u8; 6]), DeviceListItem)>,
    now_ms: u64,
) -> Map<(u32, Seq<u8>), KnownModel>
    decreases entries.len(),
{
    if entries.len() == 0 {
        known
    } else {
        let (k, row) = entries.last();
        known_with(known, entries.drop_last(), now_ms).insert(k@, remembered(row@, k.1@, now_ms))
    }
}

/// Remembers the devices of the rows.
pub fn remember_devices(
    rows: &Table<(u32, [u8; 6]), DeviceListItem>,
    registry: &mut Table<(u32, [u8; 6]), KnownDevice>,
    now_ms: u64,
)
    requires
        old(registry).wf(),
    ensures
        final(registry).wf(),
        known_by(final(registry)@) == known_with(known_by(old(registry)@), rows.entries@, now_ms),
{
    let ghost k0 = known_by(registry@);
    let ghost es = rows.entries@;
    let mut i: usize = 0;
    assert(es.take(0) =~= Seq::empty());
    while i < rows.entries.len()
        invariant
            i <= rows.entries@.len(),
            es == rows.entries@,
            registry.wf(),
            known_by(registry@) == known_with(k0, es.take(i as int), now_ms),
        decreases rows.entries@.len() - i,
    {
        assert(es.take(i + 1).drop_last() =~= es.take(i as int));
        let k = rows.entries[i].0;
        let row = &rows.entries[i].1;
        let ghost before = registry@;
        let d = KnownDevice {
            ifindex: row.ifindex,
            mac: k.1,
            ipv4: copy_texts(&row.ipv4),
            ipv6: copy_texts(&row.ipv6),
            hostname: row.hostname.clone(),
            logical_iface: row.logical_iface.clone(),
            subnet: row.subnet.clone(),
            last_seen_ms: now_ms,
        };
        let ghost dv = d@;
        registry.insert(k, d);
        assert(known_by(registry@) =~= known_by(before).insert(k@, dv));
        i += 1;
    }
    assert(es.take(i as int) =~= es);
}

/// Whether a known device is shown though it is not there: its interface is
/// watched.
pub open spec fn shown_offline(
    d: KnownModel,
    topology: Seq<InterfaceModel>,
    monitor: Seq<Seq<char>>,
) -> bool {
    monitor.len() == 0 || match find_index(topology, d.ifindex) {
        Some(x) => monitor.contains(x.name),
        None => false,
    }
}

/// The rows of known devices that are not there.
pub open spec fn offline_rows(
    registry: Seq<((u32, [u8; 6]), KnownDevice)>,
    present: Set<(u32, Seq<u8>)>,
    topology: Seq<InterfaceModel>,
    monitor: Seq<Seq<char>>,
    totals: Map<(u32, Seq<u8>), CounterQuad>,
) -> Seq<DeviceModel>
    decreases registry.len(),
{
    if registry.len() == 0 {
        Seq::empty()
    } else {
        let before = offline_rows(registry.drop_last(), present, topology, monitor, totals);
        let (k, d) = registry.last();
        if present.contains(k@) || !shown_offline(d@, topology, monitor) {
            before
        } else {
            before.push(offline_row(d@, d.mac@, d.ifindex, quad_at(totals, k@)))
        }
    }
}

/// The rows of a table in their order.
pub open spec fn row_seq(entries: Seq<((u32, [u8; 6]), DeviceListItem)>) -> Seq<DeviceModel> {
    entries.map_values(|e: ((u32, [u8; 6]), DeviceListItem)| e.1@)
}

/// The rows that are shown: those of the devices that are there and those of the
/// known ones that are not, in the order of rows.
pub fn list_devices(
    rows: &Table<(u32, [u8; 6]), DeviceListItem>,
    registry: &Table<(u32, [u8; 6]), KnownDevice>,
    topology: &TopologySnapshot,
    monitor_ifaces: &Vec<String>,
    totals: &Table<(u32, [u8; 6]), CounterQuad>,
) -> (r: Vec<DeviceListItem>)
    requires
        rows.wf(),
        totals.wf(),
    ensures
        ordered(r@),
        device_views(r@).to_multiset() == (row_seq(rows.entries@) + offline_rows(
            registry.entries@,
            rows@.dom(),
            topology@,
            views(monitor_ifaces@),
            totals@,
        )).to_multiset(),
{
    let mut list: Vec<DeviceListItem> = Vec::new();
    let ghost there = row_seq(rows.entries@);
    let ghost es = registry.entries@;
    let ghost mon = views(monitor_ifaces@);
    let mut present = DeviceSet::empty();
    let mut i: usize = 0;
    assert(device_views(list@) =~= there.take(0));
    while i < rows.entries.len()
        invariant
            i <= rows.entries@.len(),
            rows.wf(),
            there == row_seq(rows.entries@),
            device_views(list@) == there.take(i as int),
            forall|k: (u32, Seq<u8>)| #[trigger]
                present@.contains(k) <==> exists|j: int|
                    0 <= j < i && (#[trigger] rows.entries@[j]).0@ == k,
        decreases rows.entries@.len() - i,
    {
        let ghost before = device_views(list@);
        let ghost seen = present@;
        let e = &rows.entries[i];
        present.insert(e.0.0, e.0.1);
        let row = e.1.clone();
        let ghost rv = row@;
        list.push(row);
        assert(device_views(list@) =~= before.push(rv));
        assert(there.take(i + 1) =~= there.take(i as int).push(there[i as int]));
        assert(rows.entries@[i as int].0@ == (e.0.0, e.0.1@));
        assert forall|k: (u32, Seq<u8>)| #[trigger] present@.contains(k) <==> exists|j: int|
            0 <= j < i + 1 && (#[trigger] rows.entries@[j]).0@ == k by {
            if seen.contains(k) {
                let j = choose|j: int| 0 <= j < i && (#[trigger] rows.entries@[j]).0@ == k;
                assert(rows.entries@[j].0@ == k);
            }
            if exists|j: int| 0 <= j < i + 1 && (#[trigger] rows.entries@[j]).0@ == k {
                let j = choose|j: int| 0 <= j < i + 1 && (#[trigger] rows.entries@[j]).0@ == k;
                if j < i {
                    assert(seen.contains(k));
                }
            }
        }
        i += 1;
    }
    assert(there.take(i as int) =~= there);
    assert(present@ =~= rows@.dom()) by {
        assert forall|k: (u32, Seq<u8>)| present@.contains(k) <==> rows@.dom().contains(k) by {
            if present@.contains(k) {
                let j = choose|j: int| 0 <= j < i && (#[trigger] rows.entries@[j]).0@ == k;
                rows.lemma_entry(j);
            }
            if rows@.dom().contains(k) {
                let p = rows.place(k);
                assert(rows.entries@[p].0@ == k);
            }
        }
    }
    let ghost online = present@;
    let mut i: usize = 0;
    assert(es.take(0) =~= Seq::empty());
    assert(there + offline_rows(es.take(0), online, topology@, mon, totals@) =~= there);
    while i < registry.entries.len()
        invariant
            i <= registry.entries@.len(),
            es == registry.entries@,
            mon == views(monitor_ifaces@),
            online == present@,
            totals.wf(),
            device_views(list@) == there + offline_rows(
                es.take(i as int),
                online,
                topology@,
                mon,
                totals@,
            ),
        decreases registry.entries@.len() - i,
    {
        assert(es.take(i + 1).drop_last() =~= es.take(i as int));
        let k = &registry.entries[i].0;
        let known = &registry.entries[i].1;
        assert(k@ == (k.0, k.1@));
        if !present.contains(k.0, k.1) {
            let shown = monitor_ifaces.len() == 0 || match topology.by_ifindex(known.ifindex) {
                Some(x) => has_text(monitor_ifaces, x.name.as_str()),
                None => false,
            };
            if shown {
                let ghost before = device_views(list@);
                let row = make_offline_row(known, &known.mac, known.ifindex, total_of(totals, k));
                let ghost rv = row@;
                list.push(row);
                assert(device_views(list@) =~= before.push(rv));
                assert(before.push(rv) =~= there + offline_rows(
                    es.take(i + 1),
                    online,
                    topology@,
                    mon,
                    totals@,
                ));
            }
        }
        i += 1;
    }
    assert(es.take(i as int) =~= es);
    let ghost all = list@;
    let r = arrange(list);
    proof {
        law_arranged_is_ordered(all);
        lemma_same_mapped(r@, all, |d: DeviceListItem| d@);
        assert(r@.map_values(|d: DeviceListItem| d@) =~= device_views(r@));
        assert(all.map_values(|d: DeviceListItem| d@) =~= device_views(all));
    }
    r
}

} // verus!
