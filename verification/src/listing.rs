//! Which devices a snapshot lists, and what it says of each.
use crate::bucket::CounterQuad;
use crate::cidr::in_network;
use crate::collect::last_named;
use crate::history::quad_at;
use crate::hours::{sample_bytes, sample_rate, Lane};
use crate::mac::mac_text;
use crate::rows::{
    holding_network, ipv6_arranged, offline_rows, online_row, sorted_part, text_slotted, GroupModel,
};
use crate::runtime::{KnownDevice, KnownModel};
use crate::snapshot::DeviceModel;
use crate::text::trimmed;
use crate::topology::{find_index, InterfaceModel};
use vstd::prelude::*;

verus! {

/// Whether interfaces differ by their numbers and by their names.
pub open spec fn all_differ(s: Seq<InterfaceModel>) -> bool {
    forall|i: int, j: int|
        0 <= i < j < s.len() ==> (#[trigger] s[i]).ifindex != (#[trigger] s[j]).ifindex && s[i].name
            != s[j].name
}

proof fn lemma_found(s: Seq<InterfaceModel>, i: int)
    requires
        all_differ(s),
        0 <= i < s.len(),
    ensures
        last_named(s, s[i].name) == Some(s[i].ifindex),
        find_index(s, s[i].ifindex) == Some(s[i]),
    decreases s.len(),
{
    if i < s.len() - 1 {
        let front = s.drop_last();
        assert(all_differ(front)) by {
            assert forall|a: int, b: int| 0 <= a < b < front.len() implies (
            #[trigger] front[a]).ifindex != (#[trigger] front[b]).ifindex && front[a].name
                != front[b].name by {
                assert(front[a] == s[a] && front[b] == s[b]);
            }
        }
        assert(front[i] == s[i]);
        assert(s[i].name != s[s.len() - 1].name && s[i].ifindex != s[s.len() - 1].ifindex);
        lemma_found(front, i);
    }
}

proof fn lemma_slotted(s: Seq<Seq<char>>, x: Seq<char>)
    ensures
        text_slotted(s, x).to_multiset() == s.to_multiset().insert(x),
    decreases s.len(),
{
    broadcast use vstd::seq_lib::group_to_multiset_ensures;

    if s.len() > 0 {
        lemma_slotted(s.drop_last(), x);
        assert(s =~= s.drop_last().push(s.last()));
        assert(text_slotted(s, x).to_multiset() =~= s.to_multiset().insert(x));
    }
}

/// Whether a text begins like a link-local IPv6 address.
pub open spec fn is_link_local(t: Seq<char>) -> bool {
    t.len() >= 4 && t[0] == 'f' && t[1] == 'e' && t[2] == '8' && t[3] == '0'
}

proof fn lemma_link_local(t: Seq<char>)
    ensures
        "fe80"@.is_prefix_of(t) <==> is_link_local(t),
{
    reveal_strlit("fe80");
    if is_link_local(t) {
        assert("fe80"@ =~= t.subrange(0, 4));
    }
    if "fe80"@.is_prefix_of(t) {
        assert(t.subrange(0, 4)[0] == t[0] && t.subrange(0, 4)[1] == t[1] && t.subrange(0, 4)[2]
            == t[2] && t.subrange(0, 4)[3] == t[3]);
    }
}

proof fn lemma_parts(s: Seq<Seq<char>>)
    ensures
        s.to_multiset() == sorted_part(s, false).to_multiset().add(
            sorted_part(s, true).to_multiset(),
        ),
    decreases s.len(),
{
    broadcast use vstd::seq_lib::group_to_multiset_ensures;

    if s.len() == 0 {
        assert(s =~= Seq::empty());
        assert(sorted_part(s, false) =~= s && sorted_part(s, true) =~= s);
        assert(s.to_multiset() =~= s.to_multiset().add(s.to_multiset()));
    } else {
        let front = s.drop_last();
        lemma_parts(front);
        assert(s =~= front.push(s.last()));
        lemma_slotted(sorted_part(front, "fe80"@.is_prefix_of(s.last())), s.last());
        assert(s.to_multiset() =~= sorted_part(s, false).to_multiset().add(
            sorted_part(s, true).to_multiset(),
        ));
    }
}

proof fn lemma_part_members(s: Seq<Seq<char>>, link_local: bool, i: int)
    requires
        0 <= i < sorted_part(s, link_local).len(),
    ensures
        is_link_local(sorted_part(s, link_local)[i]) == link_local,
    decreases s.len(),
{
    if s.len() > 0 {
        let front = sorted_part(s.drop_last(), link_local);
        if "fe80"@.is_prefix_of(s.last()) == link_local {
            lemma_link_local(s.last());
            assert forall|j: int| 0 <= j < front.len() implies is_link_local(
                #[trigger] front[j],
            ) == link_local by {
                lemma_part_members(s.drop_last(), link_local, j);
            }
            lemma_slotted_members(front, s.last(), link_local, i);
        } else {
            lemma_part_members(s.drop_last(), link_local, i);
        }
    }
}

proof fn lemma_slotted_members(s: Seq<Seq<char>>, x: Seq<char>, link_local: bool, i: int)
    requires
        is_link_local(x) == link_local,
        forall|j: int| 0 <= j < s.len() ==> is_link_local(#[trigger] s[j]) == link_local,
        0 <= i < text_slotted(s, x).len(),
    ensures
        is_link_local(text_slotted(s, x)[i]) == link_local,
    decreases s.len(),
{
    if s.len() > 0 {
        let front = s.drop_last();
        assert forall|j: int| 0 <= j < front.len() implies is_link_local(#[trigger] front[j])
            == link_local by {
            assert(front[j] == s[j]);
        }
        assert(is_link_local(s[s.len() - 1]) == link_local);
        if i < text_slotted(front, x).len() {
            lemma_slotted_members(front, x, link_local, i);
        }
        if i < s.len() {
            assert(is_link_local(s[i]) == link_local);
        }
    }
}

/// The IPv6 addresses of a device are all shown, the link-local ones last.
pub proof fn law_link_local_comes_last(s: Seq<Seq<char>>, i: int, j: int)
    requires
        0 <= i < j < ipv6_arranged(s).len(),
    ensures
        ipv6_arranged(s).to_multiset() == s.to_multiset(),
        is_link_local(ipv6_arranged(s)[i]) ==> is_link_local(ipv6_arranged(s)[j]),
{
    let a = sorted_part(s, false);
    let b = sorted_part(s, true);
    lemma_parts(s);
    vstd::seq_lib::lemma_multiset_commutative(a, b);
    if i < a.len() {
        lemma_part_members(s, false, i);
    } else {
        lemma_part_members(s, true, j - a.len());
    }
}

proof fn lemma_holding(ip: Seq<char>, nets: Seq<Seq<char>>, i: int)
    requires
        0 <= i < nets.len(),
        in_network(ip, nets[i]),
        forall|j: int| 0 <= j < i ==> !in_network(ip, #[trigger] nets[j]),
    ensures
        holding_network(ip, nets) == Some(nets[i]),
    decreases nets.len(),
{
    let front = nets.drop_last();
    if i < front.len() {
        assert(front[i] == nets[i]);
        assert forall|j: int| 0 <= j < i implies !in_network(ip, #[trigger] front[j]) by {
            assert(front[j] == nets[j]);
        }
        lemma_holding(ip, front, i);
    } else {
        lemma_none_holds(ip, front);
    }
}

proof fn lemma_none_holds(ip: Seq<char>, nets: Seq<Seq<char>>)
    requires
        forall|j: int| 0 <= j < nets.len() ==> !in_network(ip, #[trigger] nets[j]),
    ensures
        holding_network(ip, nets) is None,
    decreases nets.len(),
{
    if nets.len() > 0 {
        let front = nets.drop_last();
        assert forall|j: int| 0 <= j < front.len() implies !in_network(ip, #[trigger] front[j]) by {
            assert(front[j] == nets[j]);
        }
        assert(!in_network(ip, nets[nets.len() - 1]));
        lemma_none_holds(ip, front);
    }
}

/// Whether a zone is one of the outside: its name begins with `wan`.
pub open spec fn is_outside(zone: Seq<char>) -> bool {
    zone.len() >= 3 && zone[0] == 'w' && zone[1] == 'a' && zone[2] == 'n'
}

pub(crate) proof fn lemma_outside(zone: Seq<char>)
    ensures
        "wan"@.is_prefix_of(zone) <==> is_outside(zone),
{
    reveal_strlit("wan");
    if is_outside(zone) {
        assert("wan"@ =~= zone.subrange(0, 3));
    }
    if "wan"@.is_prefix_of(zone) {
        assert(zone.subrange(0, 3)[0] == zone[0] && zone.subrange(0, 3)[1] == zone[1]
            && zone.subrange(0, 3)[2] == zone[2]);
    }
}

/// The neighbors of one hardware address on a watched interface that is not one of the outside
/// are a device that is online, with their addresses, the best of their states and no
/// traffic yet. Elsewhere they are no device.
pub proof fn law_neighbors_are_a_device(
    g: GroupModel,
    topology: Seq<InterfaceModel>,
    i: int,
    monitor: Seq<Seq<char>>,
    known: Map<(u32, Seq<u8>), KnownModel>,
    hosts: Map<Seq<u8>, Seq<char>>,
    now_ms: u64,
    lane: Lane,
)
    requires
        all_differ(topology),
        0 <= i < topology.len(),
        topology[i].name == g.dev,
        g.ipv4.len() > 0 || g.ipv6.len() > 0,
    ensures
        ({
            let x = topology[i];
            match online_row(g, topology, monitor, known, hosts, now_ms) {
                Some(r) => {
                    &&& !is_outside(x.zone)
                    &&& monitor.len() == 0 || monitor.contains(x.name)
                    &&& r.ifindex == x.ifindex
                    &&& r.logical_iface == x.name
                    &&& r.ipv4 == g.ipv4
                    &&& r.ipv6 == ipv6_arranged(g.ipv6)
                    &&& r.mac == mac_text(g.mac)
                    &&& r.online
                    &&& r.last_seen_ms == now_ms
                    &&& r.neighbor_state == Some(g.state)
                    &&& sample_bytes(r.metrics, lane) == 0
                    &&& sample_rate(r.metrics, lane) == 0
                    &&& sample_bytes(r.cumulative, lane) == 0
                },
                None => is_outside(x.zone) || (monitor.len() > 0 && !monitor.contains(x.name)),
            }
        }),
{
    lemma_found(topology, i);
    lemma_outside(topology[i].zone);
}

/// A device is shown by the name that it is known by, unless that is blank or a dash; else by the
/// name that its address was leased with; else by a dash.
pub proof fn law_device_is_shown_by_its_name(
    g: GroupModel,
    topology: Seq<InterfaceModel>,
    i: int,
    monitor: Seq<Seq<char>>,
    known: Map<(u32, Seq<u8>), KnownModel>,
    hosts: Map<Seq<u8>, Seq<char>>,
    now_ms: u64,
)
    requires
        all_differ(topology),
        0 <= i < topology.len(),
        topology[i].name == g.dev,
    ensures
        ({
            let k = (topology[i].ifindex, g.mac);
            let own = known.dom().contains(k) && trimmed(known[k].hostname).len() > 0 && trimmed(
                known[k].hostname,
            ) != "-"@;
            online_row(g, topology, monitor, known, hosts, now_ms) matches Some(r) ==> {
                &&& own ==> r.hostname == known[k].hostname
                &&& !own && hosts.dom().contains(g.mac) ==> r.hostname == hosts[g.mac]
                &&& !own && !hosts.dom().contains(g.mac) ==> r.hostname == "-"@
            }
        }),
{
    lemma_found(topology, i);
}

/// A device is shown in the first network of its interface that holds its first IPv4 address.
pub proof fn law_device_is_shown_in_its_network(
    g: GroupModel,
    topology: Seq<InterfaceModel>,
    i: int,
    monitor: Seq<Seq<char>>,
    known: Map<(u32, Seq<u8>), KnownModel>,
    hosts: Map<Seq<u8>, Seq<char>>,
    now_ms: u64,
    n: int,
)
    requires
        all_differ(topology),
        0 <= i < topology.len(),
        topology[i].name == g.dev,
        g.ipv4.len() > 0,
        0 <= n < topology[i].ipv4_cidrs.len(),
        in_network(g.ipv4[0], topology[i].ipv4_cidrs[n]),
        forall|j: int| 0 <= j < n ==> !in_network(g.ipv4[0], #[trigger] topology[i].ipv4_cidrs[j]),
    ensures
        online_row(g, topology, monitor, known, hosts, now_ms) matches Some(r) ==> r.subnet
            == topology[i].ipv4_cidrs[n],
{
    lemma_found(topology, i);
    lemma_holding(g.ipv4[0], topology[i].ipv4_cidrs, n);
}

/// Where no network of its interface holds its first IPv4 address, a device is shown in the first
/// IPv4 network of the interface; else in the first IPv6 network; else in none.
pub proof fn law_device_without_a_network_is_shown_in_the_first(
    g: GroupModel,
    topology: Seq<InterfaceModel>,
    i: int,
    monitor: Seq<Seq<char>>,
    known: Map<(u32, Seq<u8>), KnownModel>,
    hosts: Map<Seq<u8>, Seq<char>>,
    now_ms: u64,
)
    requires
        all_differ(topology),
        0 <= i < topology.len(),
        topology[i].name == g.dev,
        forall|j: int|
            0 <= j < topology[i].ipv4_cidrs.len() && g.ipv4.len() > 0 ==> !in_network(
                g.ipv4[0],
                #[trigger] topology[i].ipv4_cidrs[j],
            ),
    ensures
        online_row(g, topology, monitor, known, hosts, now_ms) matches Some(r) ==> {
            let x = topology[i];
            &&& x.ipv4_cidrs.len() > 0 ==> r.subnet == x.ipv4_cidrs[0]
            &&& x.ipv4_cidrs.len() == 0 && x.ipv6_cidrs.len() > 0 ==> r.subnet == x.ipv6_cidrs[0]
            &&& x.ipv4_cidrs.len() == 0 && x.ipv6_cidrs.len() == 0 ==> r.subnet == "-"@
        },
{
    lemma_found(topology, i);
    if g.ipv4.len() > 0 {
        lemma_none_holds(g.ipv4[0], topology[i].ipv4_cidrs);
    }
}

/// A known device that is not there is listed as offline, with what is known of it, its total
/// and no traffic, where its interface is watched.
pub proof fn law_absent_device_is_listed(
    registry: Seq<((u32, [u8; 6]), KnownDevice)>,
    present: Set<(u32, Seq<u8>)>,
    topology: Seq<InterfaceModel>,
    monitor: Seq<Seq<char>>,
    totals: Map<(u32, Seq<u8>), CounterQuad>,
    i: int,
)
    requires
        0 <= i < registry.len(),
        !present.contains(registry[i].0@),
        monitor.len() == 0 || exists|x: int|
            0 <= x < topology.len() && (#[trigger] topology[x]).ifindex == registry[i].1.ifindex
                && monitor.contains(topology[x].name),
        all_differ(topology),
    ensures
        tells_absent(
            offline_rows(registry, present, topology, monitor, totals),
            registry[i].1@,
            quad_at(totals, registry[i].0@),
        ),
    decreases registry.len(),
{
    let rows = offline_rows(registry, present, topology, monitor, totals);
    let d = registry[i].1;
    if monitor.len() > 0 {
        let x = choose|x: int|
            0 <= x < topology.len() && (#[trigger] topology[x]).ifindex == registry[i].1.ifindex
                && monitor.contains(topology[x].name);
        lemma_found(topology, x);
    }
    if i == registry.len() - 1 {
        assert(is_absent_row(rows[rows.len() - 1], d@));
    } else {
        let front = registry.drop_last();
        assert(front[i] == registry[i]);
        law_absent_device_is_listed(front, present, topology, monitor, totals, i);
        let some = offline_rows(front, present, topology, monitor, totals);
        let j = choose|j: int|
            0 <= j < some.len() && is_absent_row(#[trigger] some[j], d@) && some[j].cumulative
                == quad_at(totals, registry[i].0@);
        assert(rows[j] == some[j]);
    }
}

/// Whether one of the rows is that of a known device which is not there, with its total.
pub open spec fn tells_absent(rows: Seq<DeviceModel>, d: KnownModel, total: CounterQuad) -> bool {
    exists|j: int|
        0 <= j < rows.len() && is_absent_row(#[trigger] rows[j], d) && rows[j].cumulative == total
}

/// Whether a row is that of a known device which is not there.
pub open spec fn is_absent_row(r: DeviceModel, d: KnownModel) -> bool {
    &&& !r.online
    &&& r.ifindex == d.ifindex
    &&& r.mac == mac_text(d.mac)
    &&& r.ipv4 == d.ipv4
    &&& r.ipv6 == d.ipv6
    &&& r.hostname == d.hostname
    &&& r.logical_iface == d.logical_iface
    &&& r.subnet == d.subnet
    &&& r.last_seen_ms == d.last_seen_ms
    &&& r.neighbor_state is None
    &&& sample_bytes(r.metrics, Lane::UpV4) == 0
    &&& sample_bytes(r.metrics, Lane::DownV4) == 0
    &&& sample_bytes(r.metrics, Lane::UpV6) == 0
    &&& sample_bytes(r.metrics, Lane::DownV6) == 0
}

} // verus!
