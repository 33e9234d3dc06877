//! The list of the system's interfaces with their addresses, and their subnets.
use crate::dnsrec::text_opt;
use crate::ip::{ip_text, IpAddr};
use crate::mac::{from_str, mac_text, parsed_mac, to_string};
use crate::number::{dec, decimal};
use crate::system::{infer_role, ipv6_addr_type, ipv6_kind, number_in, opt_u32, role_of, KindFacts};
use crate::system::has_text;
use crate::table::Table;
use crate::text::{text_eq, trim, trimmed, views};
use crate::topology::{InterfaceInfo, InterfaceRole, Ipv6AddrInfo, Ipv6AddrType};
use vstd::prelude::*;

verus! {

/// What the system's directory holds of one interface, as texts.
#[derive(Debug)]
pub struct InterfaceEntry {
    pub name: String,
    pub ifindex: Option<String>,
    pub address: Option<String>,
    pub operstate: Option<String>,
    pub mtu: Option<String>,
    pub kind: KindFacts,
}

/// An address of an interface.
#[derive(Debug)]
pub struct InterfaceAddress {
    pub name: String,
    pub flags: u32,
    pub address: Option<IpAddr>,
    pub netmask: Option<IpAddr>,
}

/// An interface of the system over plain values.
pub struct InfoModel {
    pub ifindex: u32,
    pub name: Seq<char>,
    pub mac: Option<Seq<char>>,
    pub operstate: Option<Seq<char>>,
    pub mtu: Option<u32>,
    pub flags: Option<u32>,
    pub ipv4: Seq<Seq<char>>,
    pub ipv6: Seq<(Seq<char>, Ipv6AddrType)>,
    pub role: InterfaceRole,
}

impl View for Ipv6AddrInfo {
    type V = (Seq<char>, Ipv6AddrType);

    open spec fn view(&self) -> (Seq<char>, Ipv6AddrType) {
        (self.addr@, self.addr_type)
    }
}

/// IPv6 addresses over plain values.
pub open spec fn ipv6_views(v: Seq<Ipv6AddrInfo>) -> Seq<(Seq<char>, Ipv6AddrType)> {
    Seq::new(v.len(), |i: int| v[i]@)
}

impl View for InterfaceInfo {
    type V = InfoModel;

    open spec fn view(&self) -> InfoModel {
        InfoModel {
            ifindex: self.ifindex,
            name: self.name@,
            mac: text_opt(self.mac),
            operstate: text_opt(self.operstate),
            mtu: self.mtu,
            flags: self.flags,
            ipv4: views(self.ipv4@),
            ipv6: ipv6_views(self.ipv6@),
            role: self.role,
        }
    }
}

/// Interfaces over plain values.
pub open spec fn info_views(v: Seq<InterfaceInfo>) -> Seq<InfoModel> {
    Seq::new(v.len(), |i: int| v[i]@)
}

/// A text without the white space around it, unless nothing is left.
pub open spec fn text_in(t: Option<String>) -> Option<Seq<char>> {
    match t {
        Some(s) => if trimmed(s@).len() == 0 {
            None
        } else {
            Some(trimmed(s@))
        },
        None => None,
    }
}

fn opt_text(t: &Option<String>) -> (r: Option<String>)
    ensures
        text_opt(r) == text_in(*t),
{
    match t {
        Some(s) => {
            let s = trim(s.as_str());
            if s.as_str().is_empty() {
                None
            } else {
                Some(s)
            }
        },
        None => None,
    }
}

/// The hardware address in a text, in its usual notation.
pub open spec fn mac_in(t: Option<String>) -> Option<Seq<char>> {
    match text_in(t) {
        Some(s) => match parsed_mac(s) {
            Some(m) => Some(mac_text(m)),
            None => None,
        },
        None => None,
    }
}

fn opt_mac(t: &Option<String>) -> (r: Option<String>)
    ensures
        text_opt(r) == mac_in(*t),
{
    match opt_text(t) {
        Some(s) => match from_str(s.as_str()) {
            Ok(m) => Some(to_string(&m)),
            Err(_) => None,
        },
        None => None,
    }
}

/// The interface that an entry tells of, which has a number.
pub open spec fn info_of(e: InterfaceEntry) -> Option<InfoModel> {
    match number_in(e.ifindex) {
        Some(n) => Some(
            InfoModel {
                ifindex: n as u32,
                name: e.name@,
                mac: mac_in(e.address),
                operstate: text_in(e.operstate),
                mtu: match number_in(e.mtu) {
                    Some(m) => Some(m as u32),
                    None => None,
                },
                flags: None,
                ipv4: Seq::empty(),
                ipv6: Seq::empty(),
                role: role_of(e.name@, e.kind),
            },
        ),
        None => None,
    }
}

fn read_entry(e: &InterfaceEntry) -> (r: Option<InterfaceInfo>)
    ensures
        match r {
            Some(x) => info_of(*e) == Some(x@),
            None => info_of(*e) is None,
        },
{
    let ifindex = match opt_u32(&e.ifindex) {
        Some(n) => n,
        None => {
            return None;
        },
    };
    let r = InterfaceInfo {
        ifindex,
        name: e.name.clone(),
        mac: opt_mac(&e.address),
        operstate: opt_text(&e.operstate),
        mtu: opt_u32(&e.mtu),
        flags: None,
        ipv4: Vec::new(),
        ipv6: Vec::new(),
        role: infer_role(e.name.as_str(), &e.kind),
    };
    assert(r@.ipv4 =~= Seq::empty());
    assert(r@.ipv6 =~= Seq::empty());
    Some(r)
}

/// The list with an interface put in its place by its number; one with the same
/// number is replaced.
pub open spec fn info_placed(s: Seq<InfoModel>, x: InfoModel) -> Seq<InfoModel>
    decreases s.len(),
{
    if s.len() == 0 || s.last().ifindex < x.ifindex {
        s.push(x)
    } else if s.last().ifindex == x.ifindex {
        s.drop_last().push(x)
    } else {
        info_placed(s.drop_last(), x).push(s.last())
    }
}

fn place_info(list: &mut Vec<InterfaceInfo>, x: InterfaceInfo)
    ensures
        info_views(final(list)@) == info_placed(info_views(old(list)@), x@),
{
    let ghost s = info_views(list@);
    let ghost xv = x@;
    let mut i: usize = list.len();
    assert(s.take(i as int) =~= s);
    assert(info_placed(s, xv) =~= info_placed(s.take(i as int), xv) + s.skip(i as int));
    while i > 0 && list[i - 1].ifindex > x.ifindex
        invariant
            i <= list@.len(),
            s == info_views(list@),
            xv == x@,
            info_placed(s, xv) == info_placed(s.take(i as int), xv) + s.skip(i as int),
        decreases i,
    {
        let ghost t = s.take(i as int);
        assert(t.drop_last() =~= s.take(i - 1));
        assert(t.last() == list@[i - 1]@);
        assert(info_placed(t, xv) + s.skip(i as int) =~= info_placed(s.take(i - 1), xv) + s.skip(
            i - 1,
        ));
        i -= 1;
    }
    let ghost t = s.take(i as int);
    if i > 0 && list[i - 1].ifindex == x.ifindex {
        assert(t.last() == list@[i - 1]@);
        list.set(i - 1, x);
        assert(info_views(list@) =~= t.drop_last().push(xv) + s.skip(i as int));
    } else {
        if i > 0 {
            assert(t.last() == list@[i - 1]@);
        }
        list.insert(i, x);
        assert(info_views(list@) =~= t.push(xv) + s.skip(i as int));
    }
}

/// The interfaces that entries tell of.
pub open spec fn infos_of(entries: Seq<InterfaceEntry>) -> Seq<InfoModel>
    decreases entries.len(),
{
    if entries.len() == 0 {
        Seq::empty()
    } else {
        let before = infos_of(entries.drop_last());
        match info_of(entries.last()) {
            Some(x) => info_placed(before, x),
            None => before,
        }
    }
}

/// An interface with an address of its own noted.
pub open spec fn addressed(x: InfoModel, a: InterfaceAddress) -> InfoModel {
    let y = InfoModel {
        flags: if x.flags is None {
            Some(a.flags)
        } else {
            x.flags
        },
        ..x
    };
    match a.address {
        Some(IpAddr::V4(b)) => if x.ipv4.contains(ip_text(b@)) {
            y
        } else {
            InfoModel { ipv4: x.ipv4.push(ip_text(b@)), ..y }
        },
        Some(IpAddr::V6(b)) => if exists|i: int|
            0 <= i < x.ipv6.len() && (#[trigger] x.ipv6[i]).0 == ip_text(b@) {
            y
        } else {
            InfoModel { ipv6: x.ipv6.push((ip_text(b@), ipv6_kind(b@))), ..y }
        },
        None => y,
    }
}

fn note_address(x: &mut InterfaceInfo, a: &InterfaceAddress)
    ensures
        final(x)@ == addressed(old(x)@, *a),
        final(x).ifindex == old(x).ifindex,
        final(x).name@ == old(x).name@,
{
    let ghost before = x@;
    if x.flags.is_none() {
        x.flags = Some(a.flags);
    }
    match &a.address {
        Some(addr) => {
            let text = addr.to_text();
            match addr {
                IpAddr::V4(_) => {
                    if !has_text(&x.ipv4, text.as_str()) {
                        let ghost t = text@;
                        x.ipv4.push(text);
                        assert(x@.ipv4 =~= before.ipv4.push(t));
                    }
                },
                IpAddr::V6(b) => {
                    let addr_type = ipv6_addr_type(b);
                    let mut i: usize = 0;
                    while i < x.ipv6.len() && !text_eq(x.ipv6[i].addr.as_str(), text.as_str())
                        invariant
                            i <= x.ipv6@.len(),
                            ipv6_views(x.ipv6@) == before.ipv6,
                            forall|j: int| 0 <= j < i ==> (#[trigger] before.ipv6[j]).0 != text@,
                        decreases x.ipv6@.len() - i,
                    {
                        assert(before.ipv6[i as int] == x.ipv6@[i as int]@);
                        i += 1;
                    }
                    if i == x.ipv6.len() {
                        let ghost t = text@;
                        x.ipv6.push(Ipv6AddrInfo { addr: text, addr_type });
                        assert(x@.ipv6 =~= before.ipv6.push((t, addr_type)));
                    } else {
                        assert(before.ipv6[i as int] == x.ipv6@[i as int]@);
                        assert(before.ipv6[i as int].0 == text@);
                    }
                },
            }
        },
        None => {},
    }
}

/// The interfaces with an address noted at the first one of its name.
pub open spec fn with_address(s: Seq<InfoModel>, a: InterfaceAddress) -> Seq<InfoModel>
    decreases s.len(),
{
    if s.len() == 0 {
        s
    } else if s[0].name == a.name@ {
        s.update(0, addressed(s[0], a))
    } else {
        seq![s[0]] + with_address(s.drop_first(), a)
    }
}

fn add_address(list: &mut Vec<InterfaceInfo>, a: &InterfaceAddress)
    ensures
        info_views(final(list)@) == with_address(info_views(old(list)@), *a),
{
    let ghost s = info_views(list@);
    let mut i: usize = 0;
    assert(s.skip(0) =~= s);
    assert(with_address(s, *a) =~= s.take(0) + with_address(s.skip(0), *a));
    while i < list.len() && !text_eq(list[i].name.as_str(), a.name.as_str())
        invariant
            i <= list@.len(),
            s == info_views(list@),
            with_address(s, *a) == s.take(i as int) + with_address(s.skip(i as int), *a),
        decreases list@.len() - i,
    {
        assert(s.skip(i as int)[0] == list@[i as int]@);
        assert(s.skip(i as int).drop_first() =~= s.skip(i + 1));
        assert(s.take(i as int) + with_address(s.skip(i as int), *a) =~= s.take(i + 1)
            + with_address(s.skip(i + 1), *a));
        i += 1;
    }
    if i < list.len() {
        assert(s.skip(i as int)[0] == list@[i as int]@);
        note_address(&mut list[i], a);
        assert(info_views(list@) =~= s.take(i as int) + with_address(s.skip(i as int), *a));
    } else {
        assert(s.take(i as int) + with_address(s.skip(i as int), *a) =~= s);
    }
}

/// The interfaces with all addresses noted.
pub open spec fn with_addresses(s: Seq<InfoModel>, addrs: Seq<InterfaceAddress>) -> Seq<InfoModel>
    decreases addrs.len(),
{
    if addrs.len() == 0 {
        s
    } else {
        with_address(with_addresses(s, addrs.drop_last()), addrs.last())
    }
}

/// The interfaces of the system in the order of their numbers, with their addresses
/// as far as these could be had.
pub fn list_interfaces(entries: &Vec<InterfaceEntry>, addrs: &Vec<InterfaceAddress>) -> (r: Vec<
    InterfaceInfo,
>)
    ensures
        info_views(r@) == with_addresses(infos_of(entries@), addrs@),
{
    let mut list: Vec<InterfaceInfo> = Vec::new();
    let mut i: usize = 0;
    assert(entries@.take(0) =~= Seq::empty());
    assert(info_views(list@) =~= Seq::empty());
    while i < entries.len()
        invariant
            i <= entries@.len(),
            info_views(list@) == infos_of(entries@.take(i as int)),
        decreases entries@.len() - i,
    {
        assert(entries@.take(i + 1).drop_last() =~= entries@.take(i as int));
        if let Some(x) = read_entry(&entries[i]) {
            place_info(&mut list, x);
        }
        i += 1;
    }
    assert(entries@.take(i as int) =~= entries@);
    let ghost s = info_views(list@);
    let mut i: usize = 0;
    assert(addrs@.take(0) =~= Seq::empty());
    while i < addrs.len()
        invariant
            i <= addrs@.len(),
            info_views(list@) == with_addresses(s, addrs@.take(i as int)),
        decreases addrs@.len() - i,
    {
        assert(addrs@.take(i + 1).drop_last() =~= addrs@.take(i as int));
        add_address(&mut list, &addrs[i]);
        i += 1;
    }
    assert(addrs@.take(i as int) =~= addrs@);
    list
}

/// How many bits of a byte are set.
pub open spec fn byte_ones(b: u8) -> int {
    b % 2 + b / 2 % 2 + b / 4 % 2 + b / 8 % 2 + b / 16 % 2 + b / 32 % 2 + b / 64 % 2 + b / 128
}

/// How many bits of bytes are set.
pub open spec fn ones(s: Seq<u8>) -> int
    decreases s.len(),
{
    if s.len() == 0 {
        0
    } else {
        ones(s.drop_last()) + byte_ones(s.last())
    }
}

fn count_ones(s: &[u8]) -> (r: u64)
    requires
        s@.len() <= 16,
    ensures
        r == ones(s@),
{
    let mut n: u64 = 0;
    let mut i: usize = 0;
    assert(s@.take(0) =~= Seq::empty());
    while i < s.len()
        invariant
            i <= s@.len() <= 16,
            n == ones(s@.take(i as int)),
            n <= 8 * i,
        decreases s@.len() - i,
    {
        assert(s@.take(i + 1).drop_last() =~= s@.take(i as int));
        let b = s[i] as u64;
        n = n + b % 2 + b / 2 % 2 + b / 4 % 2 + b / 8 % 2 + b / 16 % 2 + b / 32 % 2 + b / 64 % 2 + b
            / 128;
        i += 1;
    }
    assert(s@.take(i as int) =~= s@);
    n
}

/// An address and the length of its network's prefix, where the address and the
/// mask are of one version.
pub open spec fn subnet_of(a: InterfaceAddress) -> Option<Seq<char>> {
    match (a.address, a.netmask) {
        (Some(IpAddr::V4(x)), Some(IpAddr::V4(m))) => Some(
            ip_text(x@) + seq!['/'] + dec(ones(m@) as nat),
        ),
        (Some(IpAddr::V6(x)), Some(IpAddr::V6(m))) => Some(
            ip_text(x@) + seq!['/'] + dec(ones(m@) as nat),
        ),
        _ => None,
    }
}

fn read_subnet(a: &InterfaceAddress) -> (r: Option<String>)
    ensures
        text_opt(r) == subnet_of(*a),
{
    let (addr, prefix) = match (&a.address, &a.netmask) {
        (Some(IpAddr::V4(x)), Some(IpAddr::V4(m))) => (IpAddr::V4(*x), count_ones(m)),
        (Some(IpAddr::V6(x)), Some(IpAddr::V6(m))) => (IpAddr::V6(*x), count_ones(m)),
        _ => {
            return None;
        },
    };
    let mut s = addr.to_text();
    s.push('/');
    s.push_str(decimal(prefix).as_str());
    assert(s@ =~= ip_text(addr@) + seq!['/'] + dec(prefix as nat));
    Some(s)
}

/// Lists of texts by key, over plain values.
pub open spec fn texts_by(m: Map<Seq<char>, Vec<String>>) -> Map<Seq<char>, Seq<Seq<char>>> {
    Map::new(|k: Seq<char>| m.dom().contains(k), |k: Seq<char>| views(m[k]@))
}

/// The subnets by the names of their interfaces, in the order of the addresses.
pub open spec fn subnets_of(addrs: Seq<InterfaceAddress>) -> Map<Seq<char>, Seq<Seq<char>>>
    decreases addrs.len(),
{
    if addrs.len() == 0 {
        Map::empty()
    } else {
        let m = subnets_of(addrs.drop_last());
        let a = addrs.last();
        match subnet_of(a) {
            Some(s) => m.insert(
                a.name@,
                if m.dom().contains(a.name@) {
                    m[a.name@].push(s)
                } else {
                    seq![s]
                },
            ),
            None => m,
        }
    }
}

/// Puts a text at the end of the list under a key.
pub(crate) fn push_under(t: &mut Table<String, Vec<String>>, key: String, s: String)
    requires
        old(t).wf(),
    ensures
        final(t).wf(),
        texts_by(final(t)@) == texts_by(old(t)@).insert(
            key@,
            if old(t)@.dom().contains(key@) {
                views(old(t)@[key@]@).push(s@)
            } else {
                seq![s@]
            },
        ),
{
    let ghost m = t@;
    let ghost kv = key@;
    let ghost sv = s@;
    match t.find(&key) {
        Some(i) => {
            let (k, mut v) = t.remove_at(i);
            let ghost before = views(v@);
            v.push(s);
            assert(views(v@) =~= before.push(sv));
            t.insert(k, v);
        },
        None => {
            let mut v: Vec<String> = Vec::new();
            v.push(s);
            assert(views(v@) =~= seq![sv]);
            t.insert(key, v);
        },
    }
    assert(texts_by(t@) =~= texts_by(m).insert(
        kv,
        if m.dom().contains(kv) {
            views(m[kv]@).push(sv)
        } else {
            seq![sv]
        },
    ));
}

/// The subnets of the system's interfaces by their names.
pub fn list_interface_subnets(addrs: &Vec<InterfaceAddress>) -> (r: Table<String, Vec<String>>)
    ensures
        r.wf(),
        texts_by(r@) == subnets_of(addrs@),
{
    let mut map: Table<String, Vec<String>> = Table::new();
    let mut i: usize = 0;
    assert(addrs@.take(0) =~= Seq::empty());
    assert(texts_by(map@) =~= Map::empty());
    while i < addrs.len()
        invariant
            i <= addrs@.len(),
            map.wf(),
            texts_by(map@) == subnets_of(addrs@.take(i as int)),
        decreases addrs@.len() - i,
    {
        assert(addrs@.take(i + 1).drop_last() =~= addrs@.take(i as int));
        let ghost m = texts_by(map@);
        if let Some(s) = read_subnet(&addrs[i]) {
            assert(m.dom() =~= map@.dom());
            push_under(&mut map, addrs[i].name.clone(), s);
        }
        i += 1;
    }
    assert(addrs@.take(i as int) =~= addrs@);
    map
}

/// Whether interfaces stand in the order of their numbers, each number once.
pub open spec fn by_number(s: Seq<InfoModel>) -> bool {
    forall|i: int, j: int|
        0 <= i < j < s.len() ==> (#[trigger] s[i]).ifindex < (#[trigger] s[j]).ifindex
}

/// The list of interfaces is in the order of their numbers, and no number is in it
/// twice.
pub proof fn law_list_is_by_number(entries: Seq<InterfaceEntry>, addrs: Seq<InterfaceAddress>)
    ensures
        by_number(with_addresses(infos_of(entries), addrs)),
    decreases addrs.len(),
{
    if addrs.len() > 0 {
        law_list_is_by_number(entries, addrs.drop_last());
        lemma_address_keeps_numbers(with_addresses(infos_of(entries), addrs.drop_last()), addrs.last());
    } else {
        lemma_infos_by_number(entries);
    }
}

proof fn lemma_address_keeps_numbers(s: Seq<InfoModel>, a: InterfaceAddress)
    ensures
        with_address(s, a).len() == s.len(),
        forall|i: int| 0 <= i < s.len() ==> (#[trigger] with_address(s, a)[i]).ifindex == s[i].ifindex,
        by_number(s) ==> by_number(with_address(s, a)),
    decreases s.len(),
{
    if s.len() > 0 && s[0].name != a.name@ {
        lemma_address_keeps_numbers(s.drop_first(), a);
        let t = with_address(s.drop_first(), a);
        assert forall|i: int| 0 <= i < s.len() implies (#[trigger] with_address(s, a)[i]).ifindex
            == s[i].ifindex by {
            if i > 0 {
                assert(t[i - 1].ifindex == s.drop_first()[i - 1].ifindex);
            }
        }
    }
}

proof fn lemma_info_placed(s: Seq<InfoModel>, x: InfoModel)
    requires
        by_number(s),
    ensures
        by_number(info_placed(s, x)),
        info_placed(s, x).len() > 0,
        info_placed(s, x).last().ifindex == x.ifindex || (s.len() > 0 && info_placed(s, x).last()
            == s.last() && s.last().ifindex > x.ifindex),
    decreases s.len(),
{
    if s.len() > 0 && s.last().ifindex > x.ifindex {
        lemma_info_placed(s.drop_last(), x);
        let p = info_placed(s.drop_last(), x);
        assert forall|i: int, j: int| 0 <= i < j < p.push(s.last()).len() implies (
        #[trigger] p.push(s.last())[i]).ifindex < (#[trigger] p.push(s.last())[j]).ifindex by {
            if j == p.len() {
                assert(p[i].ifindex <= p.last().ifindex);
            }
        }
    } else if s.len() > 0 && s.last().ifindex == x.ifindex {
        let p = s.drop_last().push(x);
        assert forall|i: int, j: int| 0 <= i < j < p.len() implies (#[trigger] p[i]).ifindex < (
        #[trigger] p[j]).ifindex by {
            assert(s[i].ifindex < s[j].ifindex);
        }
    }
}

proof fn lemma_infos_by_number(entries: Seq<InterfaceEntry>)
    ensures
        by_number(infos_of(entries)),
    decreases entries.len(),
{
    if entries.len() > 0 {
        lemma_infos_by_number(entries.drop_last());
        if let Some(x) = info_of(entries.last()) {
            lemma_info_placed(infos_of(entries.drop_last()), x);
        }
    }
}

} // verus!
