//! Which interfaces are watched, and in which zone each lies.
use crate::firewall::{
    networks_of, pushed_unique, texts_in, with_networks, with_zones, zones_of,
};
use crate::interfaces::{info_of, info_placed, infos_of, InfoModel, InterfaceEntry};
use crate::json::{field, JsonModel};
use crate::number::lemma_parsed_in_range;
use crate::mac::{mac_text, parsed_mac};
use crate::system::{number_in, role_of};
use crate::text::trimmed;
use crate::topology::{
    ascending, base_name, discovered, find_index, index_names, interface_of, is_watched,
    law_placed_is_found, placed, with_colon, InterfaceInfo, InterfaceModel, InterfaceRole, SystemFacts,
};
use vstd::prelude::*;

verus! {

/// Whether a list of interfaces has one with a number, which is a given one.
pub open spec fn has_info(s: Seq<InfoModel>, x: InfoModel) -> bool {
    exists|j: int| 0 <= j < s.len() && #[trigger] s[j] == x
}

proof fn lemma_info_placed(s: Seq<InfoModel>, x: InfoModel, y: InfoModel)
    ensures
        has_info(info_placed(s, x), x),
        has_info(s, y) && y.ifindex != x.ifindex ==> has_info(info_placed(s, x), y),
    decreases s.len(),
{
    let r = info_placed(s, x);
    if s.len() == 0 || s.last().ifindex < x.ifindex {
        assert(r[s.len() as int] == x);
        if has_info(s, y) {
            let j = choose|j: int| 0 <= j < s.len() && #[trigger] s[j] == y;
            assert(r[j] == y);
        }
    } else if s.last().ifindex == x.ifindex {
        assert(r[s.len() - 1] == x);
        if has_info(s, y) && y.ifindex != x.ifindex {
            let j = choose|j: int| 0 <= j < s.len() && #[trigger] s[j] == y;
            assert(j < s.len() - 1);
            assert(r[j] == y);
        }
    } else {
        let front = s.drop_last();
        let t = info_placed(front, x);
        lemma_info_placed(front, x, y);
        let i = choose|i: int| 0 <= i < t.len() && #[trigger] t[i] == x;
        assert(r[i] == x);
        if has_info(s, y) && y.ifindex != x.ifindex {
            let j = choose|j: int| 0 <= j < s.len() && #[trigger] s[j] == y;
            if j < front.len() {
                assert(front[j] == y);
                let k = choose|k: int| 0 <= k < t.len() && #[trigger] t[k] == y;
                assert(r[k] == y);
            } else {
                assert(r[t.len() as int] == y);
            }
        }
    }
}

/// Each interface of the system that has a number is listed, with its name and what its files
/// say, unless a later one has the same number.
pub proof fn law_interface_is_listed(entries: Seq<InterfaceEntry>, i: int)
    requires
        0 <= i < entries.len(),
        number_in(entries[i].ifindex) is Some,
        forall|j: int|
            i < j < entries.len() ==> (number_in((#[trigger] entries[j]).ifindex) matches Some(n)
                ==> n != number_in(entries[i].ifindex)->0),
    ensures
        exists|j: int|
            0 <= j < infos_of(entries).len() && (#[trigger] infos_of(entries)[j]).ifindex
                == number_in(entries[i].ifindex)->0 && infos_of(entries)[j].name
                == entries[i].name@ && (number_in(entries[i].mtu) matches Some(m) ==> infos_of(
                entries,
            )[j].mtu == Some(m as u32)) && infos_of(entries)[j].ipv4.len() == 0 && infos_of(
                entries,
            )[j].ipv6.len() == 0 && infos_of(entries)[j].role == role_of(
                entries[i].name@,
                entries[i].kind,
            ) && (entries[i].operstate matches Some(t) && trimmed(t@).len() > 0 ==> infos_of(
                entries,
            )[j].operstate == Some(trimmed(entries[i].operstate->0@))) && (
            entries[i].address matches Some(t) && trimmed(t@).len() > 0 && parsed_mac(
                trimmed(t@),
            ) is Some ==> infos_of(entries)[j].mac == Some(
                mac_text(parsed_mac(trimmed(entries[i].address->0@))->0),
            )),
{
    assert forall|j: int| 0 <= j < entries.len() implies (number_in(
        (#[trigger] entries[j]).ifindex,
    ) matches Some(n) ==> 0 <= n <= u32::MAX) by {
        if let Some(t) = entries[j].ifindex {
            lemma_parsed_in_range(trimmed(t@), 10, u32::MAX as int);
        }
    }
    lemma_listed(entries, i);
}

proof fn lemma_listed(entries: Seq<InterfaceEntry>, i: int)
    requires
        0 <= i < entries.len(),
        number_in(entries[i].ifindex) is Some,
        forall|j: int|
            i < j < entries.len() ==> (number_in((#[trigger] entries[j]).ifindex) matches Some(n)
                ==> n != number_in(entries[i].ifindex)->0),
        forall|j: int|
            0 <= j < entries.len() ==> (number_in((#[trigger] entries[j]).ifindex) matches Some(n)
                ==> 0 <= n <= u32::MAX),
    ensures
        has_info(infos_of(entries), info_of(entries[i])->0),
    decreases entries.len(),
{
    let front = entries.drop_last();
    let n = entries.len() - 1;
    assert(entries.last() == entries[n]);
    let mine = info_of(entries[i])->0;
    if i < n {
        assert(front[i] == entries[i]);
        assert forall|j: int| i < j < front.len() implies (number_in(
            (#[trigger] front[j]).ifindex,
        ) matches Some(n) ==> n != number_in(front[i].ifindex)->0) by {
            assert(front[j] == entries[j]);
        }
        assert forall|j: int| 0 <= j < front.len() implies (number_in(
            (#[trigger] front[j]).ifindex,
        ) matches Some(n) ==> 0 <= n <= u32::MAX) by {
            assert(front[j] == entries[j]);
        }
        lemma_listed(front, i);
        if let Some(x) = info_of(entries[n]) {
            lemma_info_placed(infos_of(front), x, mine);
            assert(number_in(entries[i].ifindex)->0 <= u32::MAX);
            assert(number_in(entries[n].ifindex)->0 <= u32::MAX);
            assert(x.ifindex != mine.ifindex);
        }
    } else {
        lemma_info_placed(infos_of(front), mine, mine);
    }
}

proof fn lemma_ascending(s: Seq<InterfaceModel>, x: InterfaceModel)
    requires
        ascending(s),
    ensures
        ascending(placed(s, x)),
        placed(s, x).len() > 0,
        placed(s, x).last().ifindex == if s.len() > 0 && s.last().ifindex > x.ifindex {
            s.last().ifindex
        } else {
            x.ifindex
        },
    decreases s.len(),
{
    if s.len() > 0 {
        let front = s.drop_last();
        assert(ascending(front)) by {
            assert forall|i: int, j: int| 0 <= i < j < front.len() implies (
            #[trigger] front[i]).ifindex < (#[trigger] front[j]).ifindex by {
                assert(front[i] == s[i] && front[j] == s[j]);
            }
        }
        let r = placed(s, x);
        if s.last().ifindex > x.ifindex {
            lemma_ascending(front, x);
            let t = placed(front, x);
            if front.len() > 0 {
                assert(front.last() == s[s.len() - 2]);
                assert(s[s.len() - 2].ifindex < s[s.len() - 1].ifindex);
            }
            assert forall|i: int, j: int| 0 <= i < j < r.len() implies (#[trigger] r[i]).ifindex < (
            #[trigger] r[j]).ifindex by {
                if j < t.len() {
                    assert(t[i].ifindex < t[j].ifindex);
                } else if i < t.len() - 1 {
                    assert(t[i].ifindex < t[t.len() - 1].ifindex);
                }
            }
        } else {
            assert forall|i: int, j: int| 0 <= i < j < r.len() implies (#[trigger] r[i]).ifindex < (
            #[trigger] r[j]).ifindex by {
                if j < s.len() && i < s.len() {
                    assert(s[i].ifindex < s[j].ifindex);
                }
                if i < s.len() - 1 {
                    assert(s[i].ifindex < s[s.len() - 1].ifindex);
                }
            }
        }
    }
}

proof fn lemma_discovered(
    s: Seq<InterfaceInfo>,
    facts: SystemFacts,
    names: Map<Seq<char>, u32>,
    i: int,
)
    requires
        0 <= i < s.len(),
        forall|a: int, b: int|
            0 <= a < b < s.len() ==> (#[trigger] s[a]).ifindex != (#[trigger] s[b]).ifindex,
    ensures
        ascending(discovered(s, facts, names)),
        find_index(discovered(s, facts, names), s[i].ifindex) == if is_watched(
            interface_of(s[i], facts, names),
        ) {
            Some(interface_of(s[i], facts, names))
        } else {
            None
        },
    decreases s.len(),
{
    let front = s.drop_last();
    let before = discovered(front, facts, names);
    let n = s.len() - 1;
    let m = interface_of(s[n], facts, names);
    assert(s.last() == s[n]);
    assert forall|a: int, b: int| 0 <= a < b < front.len() implies (#[trigger] front[a]).ifindex != (
    #[trigger] front[b]).ifindex by {
        assert(front[a] == s[a] && front[b] == s[b]);
    }
    if front.len() > 0 {
        lemma_discovered(front, facts, names, 0);
    }
    assert(ascending(before));
    lemma_ascending(before, m);
    law_placed_is_found(before, m, s[i].ifindex);
    if i < n {
        lemma_discovered(front, facts, names, i);
        assert(front[i] == s[i]);
        assert(s[i].ifindex != s[n].ifindex);
    } else {
        lemma_not_there(front, facts, names, s[n].ifindex);
    }
}

proof fn lemma_not_there(
    s: Seq<InterfaceInfo>,
    facts: SystemFacts,
    names: Map<Seq<char>, u32>,
    k: u32,
)
    requires
        forall|a: int, b: int|
            0 <= a < b < s.len() ==> (#[trigger] s[a]).ifindex != (#[trigger] s[b]).ifindex,
        forall|a: int| 0 <= a < s.len() ==> (#[trigger] s[a]).ifindex != k,
    ensures
        find_index(discovered(s, facts, names), k) is None,
    decreases s.len(),
{
    if s.len() > 0 {
        let front = s.drop_last();
        let n = s.len() - 1;
        assert(s.last() == s[n]);
        assert forall|a: int, b: int| 0 <= a < b < front.len() implies (
        #[trigger] front[a]).ifindex != (#[trigger] front[b]).ifindex by {
            assert(front[a] == s[a] && front[b] == s[b]);
        }
        assert forall|a: int| 0 <= a < front.len() implies (#[trigger] front[a]).ifindex != k by {
            assert(front[a] == s[a]);
        }
        lemma_not_there(front, facts, names, k);
        if front.len() > 0 {
            lemma_discovered(front, facts, names, 0);
        }
        assert(s[n].ifindex != k);
        law_placed_is_found(
            discovered(front, facts, names),
            interface_of(s[n], facts, names),
            k,
        );
    }
}

/// Whether an interface is one of those that are watched whatever their addresses.
pub open spec fn is_always_watched(role: InterfaceRole) -> bool {
    role == InterfaceRole::Bridge || role == InterfaceRole::Wifi || role == InterfaceRole::Tun
}

/// An interface of the system is found by its number, with its name and its role, unless it is
/// the loopback, or a plain one without an address. Its zone is that of the firewall for its own
/// name; else for the name of the interface above it; else it is unknown.
pub proof fn law_interface_is_found(s: Seq<InterfaceInfo>, facts: SystemFacts, i: int)
    requires
        0 <= i < s.len(),
        forall|a: int, b: int|
            0 <= a < b < s.len() ==> (#[trigger] s[a]).ifindex != (#[trigger] s[b]).ifindex,
    ensures
        ({
            let names = index_names(s);
            let name = s[i].name@;
            let role = s[i].role;
            let nets = facts.cidrs(name);
            let above = match facts.master(name) {
                Some(m) => Some(m),
                None => if base_name(name) != name {
                    Some(base_name(name))
                } else {
                    None
                },
            };
            match find_index(discovered(s, facts, names), s[i].ifindex) {
                Some(x) => {
                    &&& role != InterfaceRole::Loopback
                    &&& is_always_watched(role) || x.ipv4_cidrs.len() + x.ipv6_cidrs.len() > 0
                    &&& x.ifindex == s[i].ifindex
                    &&& x.name == name
                    &&& x.role == role
                    &&& facts.zones@.dom().contains(name) ==> x.zone == facts.zones@[name]@
                    &&& !facts.zones@.dom().contains(name) && above is Some
                        && facts.zones@.dom().contains(above->0) ==> x.zone
                        == facts.zones@[above->0]@
                    &&& !facts.zones@.dom().contains(name) && (above is None
                        || !facts.zones@.dom().contains(above->0)) ==> x.zone == "unknown"@
                    &&& x.ipv4_cidrs == with_colon(nets, false)
                    &&& x.ipv6_cidrs == with_colon(nets, true)
                    &&& x.parent_ifindex == (if above is Some && names.dom().contains(above->0) {
                        Some(names[above->0])
                    } else {
                        None
                    })
                },
                None => role == InterfaceRole::Loopback || (!is_always_watched(role) && with_colon(
                    nets,
                    false,
                ).len() + with_colon(nets, true).len() == 0),
            }
        }),
{
    lemma_discovered(s, facts, index_names(s), i);
}

proof fn lemma_pushed(s: Seq<Seq<char>>, t: Seq<char>, u: Seq<char>)
    ensures
        s.contains(u) ==> pushed_unique(s, t).contains(u),
        trimmed(t).len() > 0 ==> pushed_unique(s, t).contains(trimmed(t)),
{
    let x = trimmed(t);
    assert(s.push(x)[s.len() as int] == x);
    if s.contains(u) {
        let i = choose|i: int| 0 <= i < s.len() && s[i] == u;
        assert(s.push(x)[i] == u);
    }
}

proof fn lemma_networks_stay(s: Seq<JsonModel>, n: int, name: Seq<char>, d: Seq<char>)
    requires
        0 <= n <= s.len(),
        networks_of(s.take(n)).dom().contains(name),
        networks_of(s.take(n))[name].contains(d),
    ensures
        networks_of(s).dom().contains(name),
        networks_of(s)[name].contains(d),
    decreases s.len() - n,
{
    if n == s.len() {
        assert(s.take(n) =~= s);
    } else {
        let a = s.take(n);
        let b = s.take(n + 1);
        assert(b.drop_last() =~= a);
        assert(b.last() == s[n]);
        let j = s[n];
        let m = networks_of(a);
        if let Some(JsonModel::Text(t)) = field(j, "interface"@) {
            if trimmed(t) == name && name.len() > 0 {
                let l1 = pushed_unique(m[name], name);
                lemma_pushed(m[name], name, d);
                if let Some(JsonModel::Text(u)) = field(j, "l3_device"@) {
                    lemma_pushed(l1, u, d);
                    let l2 = pushed_unique(l1, u);
                    if let Some(JsonModel::Text(v)) = field(j, "device"@) {
                        lemma_pushed(l2, v, d);
                    }
                } else if let Some(JsonModel::Text(v)) = field(j, "device"@) {
                    lemma_pushed(l1, v, d);
                }
            }
        }
        lemma_networks_stay(s, n + 1, name, d);
    }
}

/// The devices of a network are those that its state names: the one that carries its packets
/// and the one beneath it.
pub proof fn law_network_has_its_devices(s: Seq<JsonModel>, i: int, name: Seq<char>, d: Seq<char>)
    requires
        0 <= i < s.len(),
        field(s[i], "interface"@) matches Some(JsonModel::Text(t)) && trimmed(t) == name,
        name.len() > 0,
        trimmed(name) == name,
        (field(s[i], "l3_device"@) matches Some(JsonModel::Text(t)) && trimmed(t) == d) || (field(
            s[i],
            "device"@,
        ) matches Some(JsonModel::Text(t)) && trimmed(t) == d),
        d.len() > 0,
    ensures
        networks_of(s).dom().contains(name),
        networks_of(s)[name].contains(d),
{
    let a = s.take(i);
    let b = s.take(i + 1);
    assert(b.drop_last() =~= a);
    assert(b.last() == s[i]);
    let m = networks_of(a);
    let old_list = if m.dom().contains(name) {
        m[name]
    } else {
        Seq::empty()
    };
    let l1 = pushed_unique(old_list, name);
    if let Some(JsonModel::Text(u)) = field(s[i], "l3_device"@) {
        lemma_pushed(l1, u, d);
        let l2 = pushed_unique(l1, u);
        if let Some(JsonModel::Text(v)) = field(s[i], "device"@) {
            lemma_pushed(l2, v, d);
        }
    } else if let Some(JsonModel::Text(v)) = field(s[i], "device"@) {
        lemma_pushed(l1, v, d);
    }
    assert(networks_of(b).dom().contains(name));
    lemma_networks_stay(s, i + 1, name, d);
}

proof fn lemma_with_zones(
    m: Map<Seq<char>, Seq<char>>,
    devices: Seq<Seq<char>>,
    zone: Seq<char>,
    d: Seq<char>,
)
    ensures
        m.dom().contains(d) ==> with_zones(m, devices, zone).dom().contains(d) && with_zones(
            m,
            devices,
            zone,
        )[d] == m[d],
        !m.dom().contains(d) && devices.contains(d) ==> with_zones(m, devices, zone).dom().contains(
            d,
        ) && with_zones(m, devices, zone)[d] == zone,
        !m.dom().contains(d) && !devices.contains(d) ==> !with_zones(m, devices, zone).dom().contains(
            d,
        ),
    decreases devices.len(),
{
    if devices.len() > 0 {
        let front = devices.drop_last();
        lemma_with_zones(m, front, zone, d);
        if devices.contains(d) && !front.contains(d) {
            let i = choose|i: int| 0 <= i < devices.len() && devices[i] == d;
            if i < front.len() {
                assert(front[i] == d);
            }
            assert(devices.last() == d);
        }
        if front.contains(d) {
            let i = choose|i: int| 0 <= i < front.len() && front[i] == d;
            assert(devices[i] == d);
        }
        if devices.last() == d {
            assert(devices[devices.len() - 1] == d);
        }
    }
}

/// Whether a device belongs to one of the networks; an unknown network stands for a device.
pub open spec fn in_networks(
    names: Seq<Seq<char>>,
    networks: Map<Seq<char>, Seq<Seq<char>>>,
    d: Seq<char>,
) -> bool {
    exists|i: int|
        0 <= i < names.len() && (if networks.dom().contains(#[trigger] names[i]) {
            networks[names[i]].contains(d)
        } else {
            names[i] == d
        })
}

proof fn lemma_with_networks(
    m: Map<Seq<char>, Seq<char>>,
    names: Seq<Seq<char>>,
    networks: Map<Seq<char>, Seq<Seq<char>>>,
    zone: Seq<char>,
    d: Seq<char>,
)
    ensures
        ({
            let r = with_networks(m, names, networks, zone);
            &&& m.dom().contains(d) ==> r.dom().contains(d) && r[d] == m[d]
            &&& !m.dom().contains(d) && in_networks(names, networks, d) ==> r.dom().contains(d)
                && r[d] == zone
            &&& !m.dom().contains(d) && !in_networks(names, networks, d) ==> !r.dom().contains(d)
        }),
    decreases names.len(),
{
    if names.len() > 0 {
        let front = names.drop_last();
        let n = names.len() - 1;
        lemma_with_networks(m, front, networks, zone, d);
        let before = with_networks(m, front, networks, zone);
        assert(names[n] == names.last());
        if networks.dom().contains(names[n]) {
            lemma_with_zones(before, networks[names[n]], zone, d);
        }
        if in_networks(front, networks, d) {
            let i = choose|i: int|
                0 <= i < front.len() && (if networks.dom().contains(#[trigger] front[i]) {
                    networks[front[i]].contains(d)
                } else {
                    front[i] == d
                });
            assert(names[i] == front[i]);
        }
        if in_networks(names, networks, d) && !in_networks(front, networks, d) {
            let i = choose|i: int|
                0 <= i < names.len() && (if networks.dom().contains(#[trigger] names[i]) {
                    networks[names[i]].contains(d)
                } else {
                    names[i] == d
                });
            if i < n {
                assert(front[i] == names[i]);
            }
        }
    }
}

/// A zone of the firewall covers the devices of its networks and those that it names itself,
/// where no zone before it covers them, and no others.
pub proof fn law_zone_covers_its_devices(
    s: Seq<(Seq<char>, JsonModel)>,
    networks: Map<Seq<char>, Seq<Seq<char>>>,
    zone: Seq<char>,
    d: Seq<char>,
)
    requires
        s.len() > 0,
        field(s.last().1, ".type"@) == Some(JsonModel::Text("zone"@)),
        field(s.last().1, "name"@) == Some(JsonModel::Text(zone)),
        trimmed(zone) == zone,
        zone.len() > 0,
    ensures
        ({
            let before = zones_of(s.drop_last(), networks);
            let after = zones_of(s, networks);
            let covered = in_networks(texts_in(field(s.last().1, "network"@)), networks, d)
                || texts_in(field(s.last().1, "device"@)).contains(d);
            &&& before.dom().contains(d) ==> after.dom().contains(d) && after[d] == before[d]
            &&& !before.dom().contains(d) && covered ==> after.dom().contains(d) && after[d] == zone
            &&& !before.dom().contains(d) && !covered ==> !after.dom().contains(d)
        }),
{
    let j = s.last().1;
    let m = zones_of(s.drop_last(), networks);
    let names = texts_in(field(j, "network"@));
    lemma_with_networks(m, names, networks, zone, d);
    lemma_with_zones(with_networks(m, names, networks, zone), texts_in(field(j, "device"@)), zone, d);
}

} // verus!
