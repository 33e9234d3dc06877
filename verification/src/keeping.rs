//! What is taken in, kept and left out between one snapshot and the next.
use crate::bucket::AggregatedBucket;
use crate::cidr::{cidr_parts, in_network, prefix_mask, v4_number};
use crate::collect::tracking_of;
use crate::dns::event_read;
use crate::dnsmsg::packet_message;
use crate::ip::{law_v4_text_roundtrip, v4_text};
use crate::keys::{DnsPacketHeader, TrafficValue};
use crate::limits::stale;
use crate::listing::{all_differ, is_outside, lemma_outside};
use crate::monitor::subnets_by_name;
use crate::moved::net_holds;
use crate::number::{dec, law_parse_reads_notation};
use crate::offload::{cpu_sum, local_networks, networks_in};
use crate::persistence::hours_added;
use crate::rows::known_with;
use crate::runtime::KnownModel;
use crate::series::{newest, series_at};
use crate::snapshot::DeviceListItem;
use crate::system::first_missing;
use crate::table::Key;
use crate::topology::{InterfaceInfo, InterfaceModel};
use crate::written::lemma_slash;
use vstd::prelude::*;

verus! {

/// Whether a zone's interface has its devices told apart: any but one of the outside.
pub open spec fn tracks_devices(zone: Seq<char>) -> u8 {
    if is_outside(zone) {
        0
    } else {
        1
    }
}

/// The interfaces that are counted are those that are watched, all of them where none is named;
/// their devices are told apart unless they are interfaces of the outside.
pub proof fn law_watched_interfaces_are_counted(
    s: Seq<InterfaceModel>,
    monitor: Seq<Seq<char>>,
    x: (u32, u8),
)
    ensures
        tracking_of(s, monitor).contains(x) <==> exists|i: int|
            0 <= i < s.len() && (monitor.len() == 0 || monitor.contains((#[trigger] s[i]).name))
                && x == (s[i].ifindex, tracks_devices(s[i].zone)),
    decreases s.len(),
{
    let r = tracking_of(s, monitor);
    if s.len() > 0 {
        let front = s.drop_last();
        let n = s.len() - 1;
        let before = tracking_of(front, monitor);
        law_watched_interfaces_are_counted(front, monitor, x);
        assert(s[n] == s.last());
        lemma_outside(s[n].zone);
        if before.contains(x) {
            let i = choose|i: int|
                0 <= i < front.len() && (monitor.len() == 0 || monitor.contains(
                    (#[trigger] front[i]).name,
                )) && x == (front[i].ifindex, tracks_devices(front[i].zone));
            assert(s[i] == front[i]);
            let j = choose|j: int| 0 <= j < before.len() && before[j] == x;
            assert(r[j] == x);
        }
        if r.contains(x) && !before.contains(x) {
            let j = choose|j: int| 0 <= j < r.len() && r[j] == x;
            if j < before.len() {
                assert(before[j] == x);
            }
            assert(x == (s[n].ifindex, tracks_devices(s[n].zone)));
        }
        if exists|i: int|
            0 <= i < s.len() && (monitor.len() == 0 || monitor.contains((#[trigger] s[i]).name))
                && x == (s[i].ifindex, tracks_devices(s[i].zone)) {
            let i = choose|i: int|
                0 <= i < s.len() && (monitor.len() == 0 || monitor.contains(
                    (#[trigger] s[i]).name,
                )) && x == (s[i].ifindex, tracks_devices(s[i].zone));
            if i < n {
                assert(front[i] == s[i]);
            } else {
                assert(r[r.len() - 1] == x);
            }
        }
    }
}

/// The sum of the bytes that the processors counted.
pub open spec fn bytes_on_all(s: Seq<TrafficValue>) -> int
    decreases s.len(),
{
    if s.len() == 0 {
        0
    } else {
        bytes_on_all(s.drop_last()) + s.last().bytes
    }
}

/// The sum of the packets that the processors counted.
pub open spec fn packets_on_all(s: Seq<TrafficValue>) -> int
    decreases s.len(),
{
    if s.len() == 0 {
        0
    } else {
        packets_on_all(s.drop_last()) + s.last().packets
    }
}

/// A counter is the sum of what each processor counted, as far as it reaches.
pub proof fn law_counter_is_the_sum_of_processors(s: Seq<TrafficValue>)
    ensures
        bytes_on_all(s) >= 0,
        packets_on_all(s) >= 0,
        cpu_sum(s).bytes == bytes_on_all(s) % 0x1_0000_0000_0000_0000,
        cpu_sum(s).packets == packets_on_all(s) % 0x1_0000_0000_0000_0000,
    decreases s.len(),
{
    if s.len() > 0 {
        law_counter_is_the_sum_of_processors(s.drop_last());
    }
}

/// A network of the router holds just the addresses that begin with the same bits, as many as
/// its prefix has.
pub proof fn law_router_network_holds_its_addresses(net: Seq<u8>, n: nat, x: Seq<u8>, ifindex: u32)
    requires
        net.len() == 4,
        x.len() == 4,
        n <= 32,
    ensures
        cidr_parts(v4_text(net) + "/"@ + dec(n)) matches Some((a, m)) && (net_holds(
            (ifindex, a, m),
            v4_number(x),
        ) <==> in_network(v4_text(x), v4_text(net) + "/"@ + dec(n))),
{
    reveal_strlit("/");
    assert("/"@ =~= seq!['/']);
    let t = v4_text(net);
    let s = t + "/"@ + dec(n);
    lemma_slash(net, n);
    law_v4_text_roundtrip(x);
    law_v4_text_roundtrip(net);
    law_parse_reads_notation(n, 10, 255);
    law_parse_reads_notation(n, 10, u32::MAX as int);
    let v = v4_number(net);
    let m = prefix_mask(n as int);
    assert((v & m) & m == v & m) by (bit_vector);
}

/// The networks of the router are those of its interfaces, but not those of the outside.
pub proof fn law_networks_are_those_of_the_inside(
    s: Seq<InterfaceModel>,
    i: int,
    j: int,
    a: u32,
    m: u32,
)
    requires
        0 <= i < s.len(),
        s[i].zone != "wan"@,
        0 <= j < s[i].ipv4_cidrs.len(),
        cidr_parts(s[i].ipv4_cidrs[j]) == Some((a, m)),
    ensures
        local_networks(s).contains((s[i].ifindex, a, m)),
    decreases s.len(),
{
    let front = s.drop_last();
    let n = s.len() - 1;
    let x = (s[i].ifindex, a, m);
    let before = local_networks(front);
    let r = local_networks(s);
    assert(s[n] == s.last());
    if i < n {
        assert(front[i] == s[i]);
        law_networks_are_those_of_the_inside(front, i, j, a, m);
        let k = choose|k: int| 0 <= k < before.len() && before[k] == x;
        assert(r[k] == x);
    } else {
        let more = networks_in(s[n].ipv4_cidrs, s[n].ifindex);
        lemma_networks_in(s[n].ipv4_cidrs, s[n].ifindex, j, a, m);
        let k = choose|k: int| 0 <= k < more.len() && more[k] == x;
        assert(r[before.len() + k] == x);
    }
}

proof fn lemma_networks_in(cidrs: Seq<Seq<char>>, ifindex: u32, j: int, a: u32, m: u32)
    requires
        0 <= j < cidrs.len(),
        cidr_parts(cidrs[j]) == Some((a, m)),
    ensures
        networks_in(cidrs, ifindex).contains((ifindex, a, m)),
    decreases cidrs.len(),
{
    let front = cidrs.drop_last();
    let before = networks_in(front, ifindex);
    let r = networks_in(cidrs, ifindex);
    let x = (ifindex, a, m);
    if j < front.len() {
        assert(front[j] == cidrs[j]);
        lemma_networks_in(front, ifindex, j, a, m);
        let k = choose|k: int| 0 <= k < before.len() && before[k] == x;
        assert(r[k] == x);
    } else {
        assert(r[r.len() - 1] == x);
    }
}

/// What a snapshot tells of a device is remembered: its interface, its addresses, its name, its
/// network and when it was seen. Other devices stay as they were.
pub proof fn law_device_is_remembered(
    known: Map<(u32, Seq<u8>), KnownModel>,
    entries: Seq<((u32, [u8; 6]), DeviceListItem)>,
    now_ms: u64,
    i: int,
    k: (u32, Seq<u8>),
)
    requires
        0 <= i < entries.len(),
        forall|a: int, b: int|
            0 <= a < b < entries.len() ==> (#[trigger] entries[a]).0@ != (#[trigger] entries[b]).0@,
    ensures
        ({
            let r = known_with(known, entries, now_ms);
            let (key, row) = entries[i];
            let d = r[key@];
            &&& r.dom().contains(key@)
            &&& d.ifindex == row.ifindex
            &&& d.mac == key.1@
            &&& d.ipv4 == row@.ipv4
            &&& d.ipv6 == row@.ipv6
            &&& d.hostname == row.hostname@
            &&& d.logical_iface == row.logical_iface@
            &&& d.subnet == row.subnet@
            &&& d.last_seen_ms == now_ms
            &&& (forall|a: int| 0 <= a < entries.len() ==> (#[trigger] entries[a]).0@ != k) ==> (
            r.dom().contains(k) <==> known.dom().contains(k)) && (known.dom().contains(k) ==> r[k]
                == known[k])
        }),
    decreases entries.len(),
{
    let front = entries.drop_last();
    let n = entries.len() - 1;
    assert(entries[n] == entries.last());
    assert forall|a: int, b: int| 0 <= a < b < front.len() implies (#[trigger] front[a]).0@ != (
    #[trigger] front[b]).0@ by {
        assert(front[a] == entries[a] && front[b] == entries[b]);
    }
    if i < n {
        assert(front[i] == entries[i]);
        assert(entries[i].0@ != entries[n].0@);
        law_device_is_remembered(known, front, now_ms, i, k);
    } else if front.len() > 0 {
        law_device_is_remembered(known, front, now_ms, 0, k);
    }
    if forall|a: int| 0 <= a < entries.len() ==> (#[trigger] entries[a]).0@ != k {
        assert(entries[n].0@ != k);
        assert forall|a: int| 0 <= a < front.len() implies (#[trigger] front[a]).0@ != k by {
            assert(front[a] == entries[a]);
        }
    }
}

/// Of limits that are in force those are taken out that are not wanted any more, and no others.
pub proof fn law_unwanted_limits_are_taken_out<K: Key>(existing: Seq<K>, wanted: Set<K::V>, k: K::V)
    ensures
        stale(existing, wanted).contains(k) <==> !wanted.contains(k) && exists|i: int|
            0 <= i < existing.len() && (#[trigger] existing[i])@ == k,
    decreases existing.len(),
{
    let r = stale(existing, wanted);
    if existing.len() > 0 {
        let front = existing.drop_last();
        let n = existing.len() - 1;
        let before = stale(front, wanted);
        law_unwanted_limits_are_taken_out(front, wanted, k);
        assert(existing[n] == existing.last());
        if before.contains(k) {
            let i = choose|i: int| 0 <= i < front.len() && (#[trigger] front[i])@ == k;
            assert(existing[i] == front[i]);
            let j = choose|j: int| 0 <= j < before.len() && before[j] == k;
            assert(r[j] == k);
        }
        if r.contains(k) && !before.contains(k) {
            let j = choose|j: int| 0 <= j < r.len() && r[j] == k;
            if j < before.len() {
                assert(before[j] == k);
            }
            assert(existing[n]@ == k);
        }
        if !wanted.contains(k) && exists|i: int|
            0 <= i < existing.len() && (#[trigger] existing[i])@ == k {
            let i = choose|i: int| 0 <= i < existing.len() && (#[trigger] existing[i])@ == k;
            if i < n {
                assert(front[i] == existing[i]);
            } else {
                assert(r[r.len() - 1] == k);
            }
        }
    }
}

/// Of the named interfaces the first is told that the system does not have; none is where it has
/// them all.
pub proof fn law_missing_interface_is_told(names: Seq<Seq<char>>, all: Seq<InterfaceInfo>)
    ensures
        match first_missing(names, all) {
            None => forall|i: int| 0 <= i < names.len() ==> has_name(all, #[trigger] names[i]),
            Some(t) => exists|i: int|
                0 <= i < names.len() && #[trigger] names[i] == t && !has_name(all, names[i])
                    && forall|j: int| 0 <= j < i ==> has_name(all, #[trigger] names[j]),
        },
    decreases names.len(),
{
    if names.len() > 0 {
        let front = names.drop_last();
        let n = names.len() - 1;
        law_missing_interface_is_told(front, all);
        assert(names[n] == names.last());
        match first_missing(front, all) {
            Some(t) => {
                let i = choose|i: int|
                    0 <= i < front.len() && #[trigger] front[i] == t && !has_name(all, front[i])
                        && forall|j: int| 0 <= j < i ==> has_name(all, #[trigger] front[j]);
                assert(names[i] == t);
                assert forall|j: int| 0 <= j < i implies has_name(all, #[trigger] names[j]) by {
                    assert(front[j] == names[j]);
                }
            },
            None => {
                assert forall|j: int| 0 <= j < n implies has_name(all, #[trigger] names[j]) by {
                    assert(front[j] == names[j]);
                }
            },
        }
    }
}

/// Whether the system has an interface with a name.
pub open spec fn has_name(all: Seq<InterfaceInfo>, name: Seq<char>) -> bool {
    exists|i: int| 0 <= i < all.len() && (#[trigger] all[i]).name@ == name
}

/// A captured packet is read from as many of its bytes as were captured, at most 1600.
pub proof fn law_captured_bytes_are_read(h: DnsPacketHeader, body: Seq<u8>)
    requires
        0 < h.captured_len <= body.len(),
        h.captured_len <= 1600,
    ensures
        event_read(h, body) == packet_message(
            body.take(h.captured_len as int),
            h.ip_offset as int,
            h.ip_version,
        ),
{
}

/// Stored hours are put behind those that are there, in their order, of which the newest are kept.
/// Other series stay as they are.
pub proof fn law_stored_hours_are_put_behind<KV>(
    m: Map<KV, Seq<AggregatedBucket>>,
    k: KV,
    records: Seq<AggregatedBucket>,
    cap: nat,
    other: KV,
)
    requires
        other != k,
        series_at(m, k).len() <= cap,
    ensures
        series_at(hours_added(m, k, records, cap), k) == newest(series_at(m, k) + records, cap),
        series_at(hours_added(m, k, records, cap), other) == series_at(m, other),
    decreases records.len(),
{
    let s = series_at(m, k);
    if records.len() == 0 {
        assert(s + records =~= s);
    } else {
        let front = records.drop_last();
        law_stored_hours_are_put_behind(m, k, front, cap, other);
        let a = newest(s + front, cap).push(records.last());
        assert(s + records =~= (s + front).push(records.last()));
        assert(newest(a, cap) =~= newest(s + records, cap));
    }
}

/// The networks of an interface are found under its name.
pub proof fn law_networks_are_found_by_name(s: Seq<InterfaceModel>, i: int)
    requires
        all_differ(s),
        0 <= i < s.len(),
    ensures
        subnets_by_name(s).dom().contains(s[i].name),
        subnets_by_name(s)[s[i].name] == s[i].ipv4_cidrs + s[i].ipv6_cidrs,
    decreases s.len(),
{
    if i < s.len() - 1 {
        let front = s.drop_last();
        assert(all_differ(front)) by {
            assert forall|a: int, b: int| 0 <= a < b < front.len() implies (
            #[trigger] front[a]).ifindex != (#[trigger] front[b]).ifindex && front[a].name
                != front[b].name by {
                assert(front[a] == s[a] && front[b] == s[b]);
            }
        }
        assert(front[i] == s[i]);
        assert(s[i].name != s[s.len() - 1].name);
        law_networks_are_found_by_name(front, i);
    }
}

} // verus!
