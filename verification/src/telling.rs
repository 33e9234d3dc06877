//! What is told of devices, of their hours and of connections that are asked for.
use crate::api::{device_to_forget, device_to_name, UsageRankingQuery};
use crate::asking::lemma_find_name;
use crate::attach::{address_key, address_of, router_keys, with_addresses};
use crate::bucket::CounterQuad;
use crate::cidr::{v4_key, v6_key};
use crate::collect::{last_named, rates_of, watched_of, with_rates, Rates};
use crate::conntrack::{dump_applied, ips_in};
use crate::history::{first_device, hourly_of, HistogramHistory};
use crate::hours::{capped, sample_bytes, sample_rate, Lane};
use crate::ip::parsed_ip;
use crate::listing::all_differ;
use crate::mac::{law_mac_roundtrip, mac_text};
use crate::neighbors::{is_word, lemma_mac_word};
use crate::netlink::{flow_in, NetlinkError, ParsedFlowModel};
use crate::offload::{owners_there, with_owners, with_summary, zone_iface, ShareModel};
use crate::places::lemma_trimmed;
use crate::runtime::{gone_keys, KnownDevice};
use crate::snapshot::{DeviceListItem, DeviceSeriesKey, OverviewModel};
use crate::text::{lowered, trimmed};
use crate::topology::InterfaceModel;
use crate::usage::{text_view, usage_asked};
use vstd::prelude::*;

verus! {

/// The rate of a lane.
pub open spec fn lane_rate(r: Rates, lane: Lane) -> u64 {
    match lane {
        Lane::UpV4 => r.up_v4,
        Lane::DownV4 => r.down_v4,
        Lane::UpV6 => r.up_v6,
        Lane::DownV6 => r.down_v6,
    }
}

/// Rates are taken and set by their lanes, and the bytes stay as they are.
pub proof fn law_rates_are_set_by_lane(q: CounterQuad, r: Rates, lane: Lane)
    ensures
        lane_rate(rates_of(q), lane) == sample_rate(q, lane),
        sample_rate(with_rates(q, r), lane) == lane_rate(r, lane),
        sample_bytes(with_rates(q, r), lane) == sample_bytes(q, lane),
{
}

/// The interfaces that are watched are those that are named and there, each once.
pub proof fn law_named_interfaces_are_watched(
    names: Seq<Seq<char>>,
    topology: Seq<InterfaceModel>,
    x: (u32, Seq<char>),
)
    ensures
        watched_of(names, topology).contains(x) <==> names.contains(x.1) && last_named(
            topology,
            x.1,
        ) == Some(x.0),
    decreases names.len(),
{
    let r = watched_of(names, topology);
    if names.len() > 0 {
        let front = names.drop_last();
        let n = names.last();
        let before = watched_of(front, topology);
        law_named_interfaces_are_watched(front, topology, x);
        assert(names[names.len() - 1] == n);
        if front.contains(x.1) {
            let i = choose|i: int| 0 <= i < front.len() && front[i] == x.1;
            assert(names[i] == x.1);
        }
        if before.contains(x) {
            let i = choose|i: int| 0 <= i < before.len() && before[i] == x;
            assert(r[i] == x);
        }
        if r.contains(x) && !before.contains(x) {
            let i = choose|i: int| 0 <= i < r.len() && r[i] == x;
            if i < before.len() {
                assert(before[i] == x);
            }
        }
        if names.contains(x.1) && !front.contains(x.1) {
            let i = choose|i: int| 0 <= i < names.len() && names[i] == x.1;
            if i < front.len() {
                assert(front[i] == x.1);
            }
            assert(n == x.1);
            if last_named(topology, n) == Some(x.0) {
                assert(r[r.len() - 1] == x);
            }
        }
    }
}

/// Whether a device has an address of a version among its texts.
pub open spec fn has_key(row: DeviceListItem, address: (Seq<u32>, u8)) -> bool {
    ||| exists|i: int|
        0 <= i < row@.ipv4.len() && v4_key(#[trigger] row@.ipv4[i]) == Some(address)
    ||| exists|i: int|
        0 <= i < row@.ipv6.len() && v6_key(#[trigger] row@.ipv6[i]) == Some(address)
}

proof fn lemma_with_owners(
    m: Map<(Seq<u32>, u8), (u32, Seq<u8>)>,
    texts: Seq<Seq<char>>,
    six: bool,
    owner: (u32, Seq<u8>),
    address: (Seq<u32>, u8),
)
    ensures
        ({
            let r = with_owners(m, texts, six, owner, true);
            let there = exists|i: int|
                0 <= i < texts.len() && (if six {
                    v6_key(#[trigger] texts[i])
                } else {
                    v4_key(texts[i])
                }) == Some(address);
            &&& there ==> r.dom().contains(address) && r[address] == owner
            &&& !there ==> (r.dom().contains(address) <==> m.dom().contains(address)) && (
            m.dom().contains(address) ==> r[address] == m[address])
        }),
    decreases texts.len(),
{
    if texts.len() > 0 {
        let front = texts.drop_last();
        let n = texts.len() - 1;
        lemma_with_owners(m, front, six, owner, address);
        assert(texts[n] == texts.last());
        if exists|i: int|
            0 <= i < front.len() && (if six {
                v6_key(#[trigger] front[i])
            } else {
                v4_key(front[i])
            }) == Some(address) {
            let i = choose|i: int|
                0 <= i < front.len() && (if six {
                    v6_key(#[trigger] front[i])
                } else {
                    v4_key(front[i])
                }) == Some(address);
            assert(texts[i] == front[i]);
        }
        if exists|i: int|
            0 <= i < texts.len() && (if six {
                v6_key(#[trigger] texts[i])
            } else {
                v4_key(texts[i])
            }) == Some(address) {
            let i = choose|i: int|
                0 <= i < texts.len() && (if six {
                    v6_key(#[trigger] texts[i])
                } else {
                    v4_key(texts[i])
                }) == Some(address);
            if i < n {
                assert(front[i] == texts[i]);
            }
        }
    }
}

/// An address belongs to the device that is there and has it: the last one of those listed.
pub proof fn law_address_belongs_to_its_device(
    entries: Seq<((u32, [u8; 6]), DeviceListItem)>,
    i: int,
    address: (Seq<u32>, u8),
)
    requires
        0 <= i < entries.len(),
        has_key(entries[i].1, address),
        forall|j: int| i < j < entries.len() ==> !has_key((#[trigger] entries[j]).1, address),
    ensures
        owners_there(entries).dom().contains(address),
        owners_there(entries)[address] == entries[i].0@,
    decreases entries.len(),
{
    let front = entries.drop_last();
    let n = entries.len() - 1;
    let (k, row) = entries[n];
    assert(entries.last() == entries[n]);
    let before = owners_there(front);
    lemma_with_owners(before, row@.ipv4, false, k@, address);
    lemma_with_owners(with_owners(before, row@.ipv4, false, k@, true), row@.ipv6, true, k@, address);
    if i < n {
        assert(front[i] == entries[i]);
        assert forall|j: int| i < j < front.len() implies !has_key(
            (#[trigger] front[j]).1,
            address,
        ) by {
            assert(front[j] == entries[j]);
        }
        law_address_belongs_to_its_device(front, i, address);
        assert(!has_key(entries[n].1, address));
    }
}

/// The traffic of the outside, or what cannot be told apart, is shown on a row of its own on the
/// first interface of its zone.
pub proof fn law_rest_is_shown_on_its_row(
    s: ShareModel,
    x: InterfaceModel,
    mac: Seq<u8>,
    name: Seq<char>,
    amount: CounterQuad,
    now_ms: u64,
    lane: Lane,
)
    ensures
        ({
            let t = with_summary(s, Some(x), mac, name, amount, now_ms);
            let k = (x.ifindex, mac);
            let before = if s.rows.dom().contains(k) {
                sample_bytes(s.rows[k].metrics, lane) as int
            } else {
                0
            };
            &&& t.rows.dom().contains(k)
            &&& t.rows[k].online
            &&& t.rows[k].last_seen_ms == now_ms
            &&& sample_bytes(t.rows[k].metrics, lane) == capped(before + sample_bytes(amount, lane))
            &&& !s.rows.dom().contains(k) ==> t.rows[k].hostname == name && t.rows[k].mac == mac_text(
                mac,
            ) && t.rows[k].ifindex == x.ifindex && t.rows[k].logical_iface == x.name
            &&& sample_bytes(amount, lane) > 0 ==> t.devices.contains(k)
            &&& t.lan == s.lan && t.wan == s.wan && t.unresolved == s.unresolved
            &&& t.rows.remove(k) =~= s.rows.remove(k)
        }),
{
}

/// The first interface of a zone is found.
pub proof fn law_first_of_a_zone_is_found(s: Seq<InterfaceModel>, zone: Seq<char>)
    ensures
        match zone_iface(s, zone) {
            Some(x) => exists|i: int|
                0 <= i < s.len() && #[trigger] s[i] == x && x.zone == zone && forall|j: int|
                    0 <= j < i ==> (#[trigger] s[j]).zone != zone,
            None => forall|j: int| 0 <= j < s.len() ==> (#[trigger] s[j]).zone != zone,
        },
    decreases s.len(),
{
    if s.len() > 0 {
        let front = s.drop_last();
        let n = s.len() - 1;
        law_first_of_a_zone_is_found(front, zone);
        assert(s[n] == s.last());
        match zone_iface(front, zone) {
            Some(x) => {
                let i = choose|i: int|
                    0 <= i < front.len() && #[trigger] front[i] == x && x.zone == zone
                        && forall|j: int| 0 <= j < i ==> (#[trigger] front[j]).zone != zone;
                assert(s[i] == x);
                assert forall|j: int| 0 <= j < i implies (#[trigger] s[j]).zone != zone by {
                    assert(front[j] == s[j]);
                }
            },
            None => {
                assert forall|j: int| 0 <= j < n implies (#[trigger] s[j]).zone != zone by {
                    assert(front[j] == s[j]);
                }
            },
        }
    }
}

/// Devices are forgotten that were not seen for so many days, and no others; none is where the
/// number of days is zero.
pub proof fn law_device_is_forgotten_after_its_days(
    entries: Seq<((u32, [u8; 6]), KnownDevice)>,
    now_ms: u64,
    days: u32,
    k: (u32, [u8; 6]),
)
    ensures
        gone_keys(entries, now_ms, days).contains(k) <==> days > 0 && exists|i: int|
            0 <= i < entries.len() && (#[trigger] entries[i]).0 == k && now_ms
                - entries[i].1.last_seen_ms >= days * 24 * 60 * 60 * 1000,
    decreases entries.len(),
{
    let r = gone_keys(entries, now_ms, days);
    if entries.len() > 0 {
        let front = entries.drop_last();
        let n = entries.len() - 1;
        let before = gone_keys(front, now_ms, days);
        law_device_is_forgotten_after_its_days(front, now_ms, days, k);
        assert(entries[n] == entries.last());
        if before.contains(k) {
            let i = choose|i: int|
                0 <= i < front.len() && (#[trigger] front[i]).0 == k && now_ms
                    - front[i].1.last_seen_ms >= days * 24 * 60 * 60 * 1000;
            assert(entries[i] == front[i]);
            let j = choose|j: int| 0 <= j < before.len() && before[j] == k;
            assert(r[j] == k);
        }
        if r.contains(k) && !before.contains(k) {
            let j = choose|j: int| 0 <= j < r.len() && r[j] == k;
            if j < before.len() {
                assert(before[j] == k);
            }
            assert(entries[n].0 == k);
        }
        if days > 0 && exists|i: int|
            0 <= i < entries.len() && (#[trigger] entries[i]).0 == k && now_ms
                - entries[i].1.last_seen_ms >= days * 24 * 60 * 60 * 1000 {
            let i = choose|i: int|
                0 <= i < entries.len() && (#[trigger] entries[i]).0 == k && now_ms
                    - entries[i].1.last_seen_ms >= days * 24 * 60 * 60 * 1000;
            if i < n {
                assert(front[i] == entries[i]);
            } else {
                assert(r[r.len() - 1] == k);
            }
        }
    }
}

/// The addresses of a device are those of its texts that are addresses.
pub proof fn law_addresses_are_read(s: Seq<Seq<char>>, a: Seq<u8>)
    ensures
        ips_in(s).contains(a) <==> exists|i: int|
            0 <= i < s.len() && parsed_ip(#[trigger] s[i]) == Some(a),
    decreases s.len(),
{
    let r = ips_in(s);
    if s.len() > 0 {
        let front = s.drop_last();
        let n = s.len() - 1;
        let before = ips_in(front);
        law_addresses_are_read(front, a);
        assert(s[n] == s.last());
        if before.contains(a) {
            let i = choose|i: int| 0 <= i < front.len() && parsed_ip(#[trigger] front[i]) == Some(a);
            assert(s[i] == front[i]);
            let j = choose|j: int| 0 <= j < before.len() && before[j] == a;
            assert(r[j] == a);
        }
        if r.contains(a) && !before.contains(a) {
            let j = choose|j: int| 0 <= j < r.len() && r[j] == a;
            if j < before.len() {
                assert(before[j] == a);
            }
            assert(parsed_ip(s[n]) == Some(a));
        }
        if exists|i: int| 0 <= i < s.len() && parsed_ip(#[trigger] s[i]) == Some(a) {
            let i = choose|i: int| 0 <= i < s.len() && parsed_ip(#[trigger] s[i]) == Some(a);
            if i < n {
                assert(front[i] == s[i]);
            } else {
                assert(r[r.len() - 1] == a);
            }
        }
    }
}

/// A listing of the kernel is read to its end: every connection that its messages tell of is
/// taken, in their order, up to a hundred thousand.
pub proof fn law_listing_is_read_to_its_end(
    l: Seq<ParsedFlowModel>,
    kinds: Seq<u16>,
    payloads: Seq<Seq<u8>>,
    flows: Seq<ParsedFlowModel>,
    last: Seq<u8>,
    bad: bool,
    big: bool,
)
    requires
        kinds.len() == flows.len(),
        payloads.len() == flows.len(),
        forall|i: int| 0 <= i < flows.len() ==> #[trigger] kinds[i] > 4,
        forall|i: int|
            0 <= i < flows.len() ==> flow_in(#[trigger] payloads[i], big) == Ok::<
                Option<ParsedFlowModel>,
                NetlinkError,
            >(Some(flows[i])),
        l.len() + flows.len() <= 100_000,
    ensures
        dump_applied(
            l,
            Seq::new(flows.len(), |i: int| (kinds[i], payloads[i])).push((3u16, last)),
            bad,
            big,
        ) == (l + flows, Ok::<bool, NetlinkError>(true)),
    decreases flows.len(),
{
    let ms = Seq::new(flows.len(), |i: int| (kinds[i], payloads[i])).push((3u16, last));
    if flows.len() == 0 {
        assert(ms[0] == (3u16, last));
        assert(l + flows =~= l);
    } else {
        assert(ms[0] == (kinds[0], payloads[0]));
        assert(kinds[0] > 4);
        let m = l.push(flows[0]);
        let rest = flows.drop_first();
        let k2 = kinds.drop_first();
        let p2 = payloads.drop_first();
        assert forall|i: int| 0 <= i < rest.len() implies #[trigger] k2[i] > 4 by {
            assert(k2[i] == kinds[i + 1]);
        }
        assert forall|i: int| 0 <= i < rest.len() implies flow_in(#[trigger] p2[i], big) == Ok::<
            Option<ParsedFlowModel>,
            NetlinkError,
        >(Some(rest[i])) by {
            assert(p2[i] == payloads[i + 1]);
        }
        law_listing_is_read_to_its_end(m, k2, p2, rest, last, bad, big);
        assert(ms.drop_first() =~= Seq::new(rest.len(), |i: int| (k2[i], p2[i])).push((3u16, last)));
        assert(m + rest =~= l + flows);
    }
}

proof fn lemma_first_device<V>(es: Seq<(DeviceSeriesKey, V)>, ifindex: u32, mac: Seq<char>)
    ensures
        match first_device(es, ifindex, mac) {
            Some(k) => exists|i: int|
                0 <= i < es.len() && (#[trigger] es[i]).0@ == k && k.0 == ifindex && lowered(k.1)
                    == lowered(mac),
            None => forall|i: int|
                0 <= i < es.len() ==> !((#[trigger] es[i]).0@.0 == ifindex && lowered(es[i].0@.1)
                    == lowered(mac)),
        },
    decreases es.len(),
{
    if es.len() > 0 {
        let front = es.drop_last();
        let n = es.len() - 1;
        lemma_first_device(front, ifindex, mac);
        assert(es[n] == es.last());
        match first_device(front, ifindex, mac) {
            Some(k) => {
                let i = choose|i: int|
                    0 <= i < front.len() && (#[trigger] front[i]).0@ == k && k.0 == ifindex
                        && lowered(k.1) == lowered(mac);
                assert(es[i] == front[i]);
            },
            None => {
                assert forall|i: int| 0 <= i < n implies !((#[trigger] es[i]).0@.0 == ifindex
                    && lowered(es[i].0@.1) == lowered(mac)) by {
                    assert(front[i] == es[i]);
                }
            },
        }
    }
}

/// The hours that are asked for are those of the interface, or, where a hardware address is
/// given, of the device on it with that address, in whatever case it is written.
pub proof fn law_hours_of_the_device_asked(
    h: HistogramHistory,
    ifindex: u32,
    mac: Option<Seq<char>>,
    start: u64,
    end: u64,
    i: int,
)
    requires
        0 <= i < h.completed_device.entries@.len(),
        forall|j: int|
            0 <= j < h.completed_device.entries@.len() && j != i ==> !(
            (#[trigger] h.completed_device.entries@[j]).0@.0 == ifindex && lowered(
                h.completed_device.entries@[j].0@.1,
            ) == lowered(mac->0)),
    ensures
        ({
            let k = h.completed_device.entries@[i].0@;
            &&& mac is Some && trimmed(mac->0).len() > 0 && k.0 == ifindex && lowered(k.1)
                == lowered(mac->0) ==> h.hours_asked(ifindex, mac, start, end) == hourly_of(
                h@.device,
                k,
                start,
                end,
            )
            &&& mac is None || trimmed(mac->0).len() == 0 ==> h.hours_asked(ifindex, mac, start, end)
                == hourly_of(h@.iface, ifindex, start, end)
        }),
{
    if mac is Some {
        lemma_first_device(h.completed_device.entries@, ifindex, mac->0);
    }
}

/// A request that names a device gives its interface and its hardware address; it is then meant
/// by its number and its bytes.
pub proof fn law_device_is_asked_by_its_address(
    iface: Seq<char>,
    m: Seq<u8>,
    hostname: Seq<char>,
    topology: Seq<InterfaceModel>,
    i: int,
)
    requires
        all_differ(topology),
        0 <= i < topology.len(),
        topology[i].name == iface,
        iface.len() > 0,
        trimmed(iface) == iface,
        m.len() == 6,
    ensures
        device_to_forget(iface, mac_text(m), topology) is Ok,
        device_to_forget(iface, mac_text(m), topology)->Ok_0 == (topology[i].ifindex, m),
        trimmed(hostname).len() > 0 ==> device_to_name(iface, mac_text(m), hostname, topology) is Ok
            && device_to_name(iface, mac_text(m), hostname, topology)->Ok_0 == (
            topology[i].ifindex,
            m,
        ),
        trimmed(hostname).len() == 0 ==> device_to_name(iface, mac_text(m), hostname, topology) is Err,
{
    lemma_find_name(topology, i);
    lemma_mac_word(m, 0);
    law_mac_roundtrip(m);
    let t = mac_text(m);
    assert(is_word(t));
    assert(t.last() == t[t.len() - 1]);
    lemma_trimmed(t);
}

/// A request for the busiest devices is about the last 365 days, up to now, unless it says when;
/// an end before the start is refused, and a number of zero is none.
pub proof fn law_usage_is_asked_for_a_year(
    q: UsageRankingQuery,
    topology: Seq<InterfaceModel>,
    rows: Seq<OverviewModel>,
    now: u64,
)
    requires
        text_view(q.iface) == Some("all"@),
        now >= 365 * 24 * 60 * 60 * 1000int,
    ensures
        ({
            let start = match q.start_ms {
                Some(t) => t as int,
                None => now - 365 * 24 * 60 * 60 * 1000,
            };
            let end = match q.end_ms {
                Some(t) => t as int,
                None => now as int,
            };
            match usage_asked(q, topology, rows, now) {
                Ok(r) => start <= end && r.start_ms == start && r.end_ms == end && r.only is None && (
                match q.limit {
                    Some(n) => if n == 0 {
                        r.limit is None
                    } else {
                        r.limit == Some(n)
                    },
                    None => r.limit is None,
                }),
                Err(_) => end < start,
            }
        }),
{
}

proof fn lemma_router_addresses(
    s: Seq<(Seq<u32>, u8, Seq<u8>)>,
    cidrs: Seq<Seq<char>>,
    x: (Seq<u32>, u8, Seq<u8>),
)
    ensures
        with_addresses(s, cidrs).contains(x) <==> s.contains(x) || exists|i: int|
            0 <= i < cidrs.len() && (address_of(#[trigger] cidrs[i]) matches Some(a) && address_key(
                a,
            ) == x),
    decreases cidrs.len(),
{
    let r = with_addresses(s, cidrs);
    if cidrs.len() > 0 {
        let front = cidrs.drop_last();
        let n = cidrs.len() - 1;
        let before = with_addresses(s, front);
        lemma_router_addresses(s, front, x);
        assert(cidrs[n] == cidrs.last());
        if before.contains(x) {
            let j = choose|j: int| 0 <= j < before.len() && before[j] == x;
            assert(r[j] == x);
            if !s.contains(x) {
                let i = choose|i: int|
                    0 <= i < front.len() && (address_of(#[trigger] front[i]) matches Some(a)
                        && address_key(a) == x);
                assert(cidrs[i] == front[i]);
            }
        }
        if r.contains(x) && !before.contains(x) {
            let j = choose|j: int| 0 <= j < r.len() && r[j] == x;
            if j < before.len() {
                assert(before[j] == x);
            }
            assert(address_of(cidrs[n]) matches Some(a) && address_key(a) == x);
        }
        if exists|i: int|
            0 <= i < cidrs.len() && (address_of(#[trigger] cidrs[i]) matches Some(a) && address_key(
                a,
            ) == x) {
            let i = choose|i: int|
                0 <= i < cidrs.len() && (address_of(#[trigger] cidrs[i]) matches Some(a)
                    && address_key(a) == x);
            if i < n {
                assert(front[i] == cidrs[i]);
            } else if !before.contains(x) {
                assert(r[r.len() - 1] == x);
            }
        }
    }
}

/// The addresses of the router are those of all its interfaces.
pub proof fn law_router_has_the_addresses_of_its_interfaces(
    s: Seq<InterfaceModel>,
    i: int,
    j: int,
    six: bool,
    a: Seq<u8>,
)
    requires
        0 <= i < s.len(),
        six ==> 0 <= j < s[i].ipv6_cidrs.len() && address_of(s[i].ipv6_cidrs[j]) == Some(a),
        !six ==> 0 <= j < s[i].ipv4_cidrs.len() && address_of(s[i].ipv4_cidrs[j]) == Some(a),
    ensures
        router_keys(s).contains(address_key(a)),
    decreases s.len(),
{
    let front = s.drop_last();
    let n = s.len() - 1;
    let x = address_key(a);
    assert(s[n] == s.last());
    let mid = with_addresses(router_keys(front), s[n].ipv4_cidrs);
    lemma_router_addresses(router_keys(front), s[n].ipv4_cidrs, x);
    lemma_router_addresses(mid, s[n].ipv6_cidrs, x);
    if i < n {
        assert(front[i] == s[i]);
        law_router_has_the_addresses_of_its_interfaces(front, i, j, six, a);
    } else if six {
        assert(address_of(s[n].ipv6_cidrs[j]) matches Some(b) && address_key(b) == x);
    } else {
        assert(address_of(s[n].ipv4_cidrs[j]) matches Some(b) && address_key(b) == x);
    }
}

} // verus!
