//! The interfaces of the router: which are watched, their zones and parents.
use crate::dnsrec::{copy_texts, text_opt};
use crate::table::Table;
use crate::text::{
    contains_text, copy_text, cut, holds_text, split_once, text_eq, trim, trimmed, views,
};
use vstd::prelude::*;

verus! {

/// What kind of device an interface is.
#[derive(Clone, Copy, Debug, PartialEq, Eq, Structural)]
pub enum InterfaceRole {
    Other,
    Loopback,
    Ethernet,
    Wifi,
    Bridge,
    Tun,
}

impl Default for InterfaceRole {
    fn default() -> (r: Self)
        ensures
            r == InterfaceRole::Other,
    {
        InterfaceRole::Other
    }
}

impl InterfaceRole {
    /// Whether an interface of the kind is watched. A plain port without an
    /// address is part of a bridge and is not.
    pub open spec fn watched(self, has_ip: bool) -> bool {
        match self {
            InterfaceRole::Loopback => false,
            InterfaceRole::Other => has_ip,
            InterfaceRole::Ethernet => has_ip,
            _ => true,
        }
    }

    /// Whether an interface of the kind is watched.
    pub fn is_included_in_topology(self, has_ip: bool) -> (r: bool)
        ensures
            r == self.watched(has_ip),
    {
        match self {
            InterfaceRole::Loopback => false,
            InterfaceRole::Other => has_ip,
            InterfaceRole::Ethernet => has_ip,
            _ => true,
        }
    }
}

/// A watched interface.
#[derive(Debug)]
pub struct Interface {
    pub ifindex: u32,
    pub name: String,
    pub role: InterfaceRole,
    /// The name of the firewall zone, `unknown` where there is none.
    pub zone: String,
    pub parent_ifindex: Option<u32>,
    pub ipv4_cidrs: Vec<String>,
    pub ipv6_cidrs: Vec<String>,
}

/// An interface over plain values.
pub struct InterfaceModel {
    pub ifindex: u32,
    pub name: Seq<char>,
    pub role: InterfaceRole,
    pub zone: Seq<char>,
    pub parent_ifindex: Option<u32>,
    pub ipv4_cidrs: Seq<Seq<char>>,
    pub ipv6_cidrs: Seq<Seq<char>>,
}

impl View for Interface {
    type V = InterfaceModel;

    open spec fn view(&self) -> InterfaceModel {
        InterfaceModel {
            ifindex: self.ifindex,
            name: self.name@,
            role: self.role,
            zone: self.zone@,
            parent_ifindex: self.parent_ifindex,
            ipv4_cidrs: views(self.ipv4_cidrs@),
            ipv6_cidrs: views(self.ipv6_cidrs@),
        }
    }
}

impl Clone for Interface {
    fn clone(&self) -> (r: Self)
        ensures
            r@ == self@,
    {
        Interface {
            ifindex: self.ifindex,
            name: self.name.clone(),
            role: self.role,
            zone: self.zone.clone(),
            parent_ifindex: self.parent_ifindex,
            ipv4_cidrs: copy_texts(&self.ipv4_cidrs),
            ipv6_cidrs: copy_texts(&self.ipv6_cidrs),
        }
    }
}

impl Interface {
    /// The name of the zone as it is shown.
    pub fn zone_name(&self) -> (r: &str)
        ensures
            r@ == self@.zone,
    {
        self.zone.as_str()
    }
}

/// Whether interfaces stand in the order of their numbers, each number once.
pub open spec fn ascending(s: Seq<InterfaceModel>) -> bool {
    forall|i: int, j: int| 0 <= i < j < s.len() ==> (#[trigger] s[i]).ifindex < (#[trigger] s[j]).ifindex
}

/// The interface with a number.
pub open spec fn find_index(s: Seq<InterfaceModel>, ifindex: u32) -> Option<InterfaceModel>
    decreases s.len(),
{
    if s.len() == 0 {
        None
    } else if s.last().ifindex == ifindex {
        Some(s.last())
    } else {
        find_index(s.drop_last(), ifindex)
    }
}

/// The first interface with a name.
pub open spec fn find_name(s: Seq<InterfaceModel>, name: Seq<char>) -> Option<InterfaceModel>
    decreases s.len(),
{
    if s.len() == 0 {
        None
    } else {
        match find_name(s.drop_last(), name) {
            Some(x) => Some(x),
            None => if s.last().name == name {
                Some(s.last())
            } else {
                None
            },
        }
    }
}

/// The list with an interface put in its place; one with its number is replaced.
pub open spec fn placed(s: Seq<InterfaceModel>, x: InterfaceModel) -> Seq<InterfaceModel>
    decreases s.len(),
{
    if s.len() == 0 || s.last().ifindex < x.ifindex {
        s.push(x)
    } else if s.last().ifindex == x.ifindex {
        s.drop_last().push(x)
    } else {
        placed(s.drop_last(), x).push(s.last())
    }
}

/// The interfaces over plain values.
pub open spec fn iface_views(v: Seq<Interface>) -> Seq<InterfaceModel> {
    Seq::new(v.len(), |i: int| v[i]@)
}

/// The watched interfaces at one time.
#[derive(Debug)]
pub struct TopologySnapshot {
    list: Vec<Interface>,
}

impl View for TopologySnapshot {
    type V = Seq<InterfaceModel>;

    /// The interfaces in the order of their numbers.
    closed spec fn view(&self) -> Seq<InterfaceModel> {
        iface_views(self.list@)
    }
}

impl Clone for TopologySnapshot {
    fn clone(&self) -> (r: Self)
        ensures
            r@ == self@,
            r.wf() == self.wf(),
    {
        let mut list: Vec<Interface> = Vec::new();
        let mut i: usize = 0;
        while i < self.list.len()
            invariant
                i <= self.list@.len(),
                list@.len() == i,
                forall|j: int| 0 <= j < i ==> (#[trigger] list@[j])@ == self.list@[j]@,
            decreases self.list@.len() - i,
        {
            list.push(self.list[i].clone());
            i += 1;
        }
        assert(iface_views(list@) =~= iface_views(self.list@));
        TopologySnapshot { list }
    }
}

proof fn lemma_placed(s: Seq<InterfaceModel>, x: InterfaceModel)
    requires
        ascending(s),
    ensures
        ascending(placed(s, x)),
        placed(s, x).len() > 0,
        placed(s, x).last().ifindex == x.ifindex || (s.len() > 0 && placed(s, x).last()
            == s.last() && s.last().ifindex > x.ifindex),
    decreases s.len(),
{
    if s.len() > 0 && s.last().ifindex > x.ifindex {
        lemma_placed(s.drop_last(), x);
        let p = placed(s.drop_last(), x);
        assert forall|i: int, j: int| 0 <= i < j < p.push(s.last()).len() implies (
        #[trigger] p.push(s.last())[i]).ifindex < (#[trigger] p.push(s.last())[j]).ifindex by {
            if j == p.len() {
                assert(p[i].ifindex <= p.last().ifindex);
            }
        }
    } else if s.len() > 0 && s.last().ifindex == x.ifindex {
        let p = s.drop_last().push(x);
        assert forall|i: int, j: int| 0 <= i < j < p.len() implies (#[trigger] p[i]).ifindex < (
        #[trigger] p[j]).ifindex by {
            assert(s[i].ifindex < s[j].ifindex);
        }
    }
}

/// After an interface is put in its place it is found under its number, and every
/// other interface as before.
pub proof fn law_placed_is_found(s: Seq<InterfaceModel>, x: InterfaceModel, ifindex: u32)
    requires
        ascending(s),
    ensures
        find_index(placed(s, x), ifindex) == if ifindex == x.ifindex {
            Some(x)
        } else {
            find_index(s, ifindex)
        },
    decreases s.len(),
{
    let p = placed(s, x);
    if s.len() == 0 || s.last().ifindex < x.ifindex {
        assert(p.drop_last() =~= s);
    } else if s.last().ifindex == x.ifindex {
        assert(p.drop_last() =~= s.drop_last());
        if ifindex == x.ifindex {
        } else {
        }
    } else {
        law_placed_is_found(s.drop_last(), x, ifindex);
        assert(p.drop_last() =~= placed(s.drop_last(), x));
    }
}

impl TopologySnapshot {
    /// Every interface has its own number.
    pub open spec fn wf(self) -> bool {
        ascending(self@)
    }

    fn empty() -> (r: Self)
        ensures
            r.wf(),
            r@ == Seq::<InterfaceModel>::empty(),
    {
        let r = TopologySnapshot { list: Vec::new() };
        assert(r@ =~= Seq::<InterfaceModel>::empty());
        r
    }

    fn place(&mut self, x: Interface)
        requires
            old(self).wf(),
        ensures
            final(self).wf(),
            final(self)@ == placed(old(self)@, x@),
    {
        let ghost s = self@;
        let ghost xv = x@;
        proof {
            lemma_placed(s, xv);
        }
        let mut i: usize = self.list.len();
        assert(s.take(i as int) =~= s);
        assert(placed(s, xv) =~= placed(s.take(i as int), xv) + s.skip(i as int));
        while i > 0 && self.list[i - 1].ifindex > x.ifindex
            invariant
                i <= self.list@.len(),
                s == self@,
                xv == x@,
                placed(s, xv) == placed(s.take(i as int), xv) + s.skip(i as int),
            decreases i,
        {
            let ghost t = s.take(i as int);
            assert(t.drop_last() =~= s.take(i - 1));
            assert(t.last() == self.list@[i - 1]@);
            assert(placed(t, xv) + s.skip(i as int) =~= placed(s.take(i - 1), xv) + s.skip(i - 1));
            i -= 1;
        }
        let ghost t = s.take(i as int);
        if i > 0 && self.list[i - 1].ifindex == x.ifindex {
            assert(t.last() == self.list@[i - 1]@);
            self.list.set(i - 1, x);
            assert(self@ =~= t.drop_last().push(xv) + s.skip(i as int));
        } else {
            if i > 0 {
                assert(t.last() == self.list@[i - 1]@);
            }
            self.list.insert(i, x);
            assert(self@ =~= t.push(xv) + s.skip(i as int));
        }
    }

    /// The interfaces in the order of their numbers.
    pub fn interfaces(&self) -> (r: &Vec<Interface>)
        ensures
            iface_views(r@) == self@,
    {
        &self.list
    }

    /// The interface with a number.
    pub fn by_ifindex(&self, ifindex: u32) -> (r: Option<&Interface>)
        ensures
            match r {
                Some(x) => find_index(self@, ifindex) == Some(x@),
                None => find_index(self@, ifindex) is None,
            },
    {
        let ghost s = self@;
        let mut i: usize = self.list.len();
        assert(s.take(i as int) =~= s);
        while i > 0
            invariant
                i <= self.list@.len(),
                s == self@,
                find_index(s, ifindex) == find_index(s.take(i as int), ifindex),
            decreases i,
        {
            assert(s.take(i as int).drop_last() =~= s.take(i - 1));
            assert(s.take(i as int).last() == self.list@[i - 1]@);
            if self.list[i - 1].ifindex == ifindex {
                return Some(&self.list[i - 1]);
            }
            i -= 1;
        }
        None
    }

    /// The number of the interface with a name; white space around the name does
    /// not count, and no interface has an empty name.
    pub fn ifindex_by_name(&self, name: &str) -> (r: Option<u32>)
        ensures
            r == named_index(self@, name@),
    {
        let wanted = trim(name);
        if wanted.as_str().is_empty() {
            return None;
        }
        let ghost s = self@;
        let mut i: usize = 0;
        assert(s.take(0) =~= Seq::<InterfaceModel>::empty());
        while i < self.list.len()
            invariant
                i <= self.list@.len(),
                s == self@,
                find_name(s.take(i as int), wanted@) is None,
                wanted@ == trimmed(name@),
                wanted@.len() > 0,
            decreases self.list@.len() - i,
        {
            assert(s.take(i + 1).drop_last() =~= s.take(i as int));
            assert(s.take(i + 1).last() == self.list@[i as int]@);
            if self.list[i].name == wanted {
                proof {
                    lemma_find_name_first(s, wanted@, i + 1);
                }
                return Some(self.list[i].ifindex);
            }
            i += 1;
        }
        assert(s.take(i as int) =~= s);
        None
    }

    /// A snapshot of given interfaces. Of two with one number the later counts.
    pub fn from_interfaces(interfaces: Vec<Interface>) -> (r: Self)
        ensures
            r.wf(),
            r@ == all_placed(iface_views(interfaces@)),
    {
        let mut r = Self::empty();
        let mut i: usize = 0;
        let ghost all = iface_views(interfaces@);
        assert(all.take(0) =~= Seq::<InterfaceModel>::empty());
        while i < interfaces.len()
            invariant
                i <= interfaces@.len(),
                all == iface_views(interfaces@),
                r.wf(),
                r@ == all_placed(all.take(i as int)),
            decreases interfaces@.len() - i,
        {
            assert(all.take(i + 1).drop_last() =~= all.take(i as int));
            r.place(interfaces[i].clone());
            i += 1;
        }
        assert(all.take(i as int) =~= all);
        r
    }
}

/// The number of the interface with a name.
pub open spec fn named_index(s: Seq<InterfaceModel>, name: Seq<char>) -> Option<u32> {
    if trimmed(name).len() == 0 {
        None
    } else {
        match find_name(s, trimmed(name)) {
            Some(x) => Some(x.ifindex),
            None => None,
        }
    }
}

pub(crate) proof fn lemma_find_name_first(s: Seq<InterfaceModel>, name: Seq<char>, i: int)
    requires
        0 <= i <= s.len(),
        find_name(s.take(i), name) is Some,
    ensures
        find_name(s, name) == find_name(s.take(i), name),
    decreases s.len() - i,
{
    if i == s.len() {
        assert(s.take(i) =~= s);
    } else {
        assert(s.take(i + 1).drop_last() =~= s.take(i));
        lemma_find_name_first(s, name, i + 1);
    }
}

/// Interfaces put in their places one after the other.
pub open spec fn all_placed(s: Seq<InterfaceModel>) -> Seq<InterfaceModel>
    decreases s.len(),
{
    if s.len() == 0 {
        Seq::empty()
    } else {
        placed(all_placed(s.drop_last()), s.last())
    }
}

/// What kind of address an IPv6 address is.
#[derive(Clone, Copy, Debug, PartialEq, Eq, Structural)]
pub enum Ipv6AddrType {
    Loopback,
    LinkLocal,
    UniqueLocal,
    GlobalUnicast,
    Multicast,
    Unspecified,
    Other,
}

#[derive(Debug)]
pub struct Ipv6AddrInfo {
    pub addr: String,
    pub addr_type: Ipv6AddrType,
}

/// An interface as the system lists it.
#[derive(Debug)]
pub struct InterfaceInfo {
    pub ifindex: u32,
    pub name: String,
    pub mac: Option<String>,
    pub operstate: Option<String>,
    pub mtu: Option<u32>,
    pub flags: Option<u32>,
    pub ipv4: Vec<String>,
    pub ipv6: Vec<Ipv6AddrInfo>,
    pub role: InterfaceRole,
}

/// The part of an interface's name before its first dot.
pub open spec fn base_name(name: Seq<char>) -> Seq<char> {
    match cut(name, '.') {
        Some((a, _)) => a,
        None => name,
    }
}

fn base_of(name: &str) -> (r: String)
    ensures
        r@ == base_name(name@),
{
    match split_once(name, '.') {
        Some((a, _)) => a,
        None => copy_text(name),
    }
}

/// The name of the interface that an interface belongs to: its master, or what
/// stands before the dot of its name.
pub open spec fn parent_of(name: Seq<char>, master: Option<Seq<char>>) -> Option<Seq<char>> {
    match master {
        Some(m) => Some(m),
        None => if base_name(name) != name {
            Some(base_name(name))
        } else {
            None
        },
    }
}

/// The name of the interface that an interface belongs to.
pub fn infer_parent_name(ifname: &str, master: Option<&String>) -> (r: Option<String>)
    ensures
        text_opt(r) == parent_of(
            ifname@,
            match master {
                Some(m) => Some(m@),
                None => None,
            },
        ),
{
    if let Some(m) = master {
        return Some(m.clone());
    }
    let base = base_of(ifname);
    if text_eq(base.as_str(), ifname) {
        None
    } else {
        Some(base)
    }
}

/// The zone of a device, `unknown` where it has none.
pub open spec fn zone_of(name: Seq<char>, zones: Map<Seq<char>, String>) -> Seq<char> {
    if zones.dom().contains(name) {
        zones[name]@
    } else {
        "unknown"@
    }
}

/// The zone of a device.
pub fn resolve_zone(ifname: &str, firewall_zones: &Table<String, String>) -> (r: String)
    requires
        firewall_zones.wf(),
    ensures
        r@ == zone_of(ifname@, firewall_zones@),
{
    match firewall_zones.get(&copy_text(ifname)) {
        Some(z) => z.clone(),
        None => copy_text("unknown"),
    }
}

/// The number of the interface before the dot of a name.
pub fn infer_parent_ifindex(ifname: &str, ifindex_by_name: &Table<String, u32>) -> (r: Option<u32>)
    requires
        ifindex_by_name.wf(),
    ensures
        r == if base_name(ifname@) != ifname@ && ifindex_by_name@.dom().contains(base_name(ifname@)) {
            Some(ifindex_by_name@[base_name(ifname@)])
        } else {
            None
        },
{
    let base = base_of(ifname);
    if text_eq(base.as_str(), ifname) {
        return None;
    }
    match ifindex_by_name.get(&base) {
        Some(i) => Some(*i),
        None => None,
    }
}

/// The texts of a list that hold a colon, or those that hold none.
pub open spec fn with_colon(s: Seq<Seq<char>>, colon: bool) -> Seq<Seq<char>>
    decreases s.len(),
{
    if s.len() == 0 {
        Seq::empty()
    } else if holds_text(s.last(), ":"@) == colon {
        with_colon(s.drop_last(), colon).push(s.last())
    } else {
        with_colon(s.drop_last(), colon)
    }
}

fn sift_colon(v: &Vec<String>, colon: bool) -> (r: Vec<String>)
    ensures
        views(r@) == with_colon(views(v@), colon),
{
    let ghost s = views(v@);
    let mut r: Vec<String> = Vec::new();
    let mut i: usize = 0;
    assert(s.take(0) =~= Seq::<Seq<char>>::empty());
    assert(views(r@) =~= Seq::<Seq<char>>::empty());
    while i < v.len()
        invariant
            i <= v@.len(),
            s == views(v@),
            views(r@) == with_colon(s.take(i as int), colon),
        decreases v@.len() - i,
    {
        assert(s.take(i + 1).drop_last() =~= s.take(i as int));
        let ghost before = views(r@);
        if contains_text(v[i].as_str(), ":") == colon {
            r.push(v[i].clone());
            assert(views(r@) =~= before.push(v@[i as int]@));
        }
        i += 1;
    }
    assert(s.take(i as int) =~= s);
    r
}

/// What is known of the system beside the list of interfaces: their subnets,
/// firewall zones and masters by name.
pub struct SystemFacts {
    pub subnets: Table<String, Vec<String>>,
    pub zones: Table<String, String>,
    pub masters: Table<String, String>,
}

impl SystemFacts {
    pub open spec fn wf(self) -> bool {
        self.subnets.wf() && self.zones.wf() && self.masters.wf()
    }

    /// The master of an interface.
    pub open spec fn master(self, name: Seq<char>) -> Option<Seq<char>> {
        if self.masters@.dom().contains(name) {
            Some(self.masters@[name]@)
        } else {
            None
        }
    }

    /// The subnets of an interface.
    pub open spec fn cidrs(self, name: Seq<char>) -> Seq<Seq<char>> {
        if self.subnets@.dom().contains(name) {
            views(self.subnets@[name]@)
        } else {
            Seq::empty()
        }
    }
}

/// The numbers of interfaces by name; of two with one name the later counts.
pub open spec fn index_names(s: Seq<InterfaceInfo>) -> Map<Seq<char>, u32>
    decreases s.len(),
{
    if s.len() == 0 {
        Map::empty()
    } else {
        index_names(s.drop_last()).insert(s.last().name@, s.last().ifindex)
    }
}

/// The interface that a listed interface becomes. Its zone is its own, or else
/// its parent's.
pub open spec fn interface_of(
    info: InterfaceInfo,
    facts: SystemFacts,
    names: Map<Seq<char>, u32>,
) -> InterfaceModel {
    let parent = parent_of(info.name@, facts.master(info.name@));
    InterfaceModel {
        ifindex: info.ifindex,
        name: info.name@,
        role: info.role,
        zone: if facts.zones@.dom().contains(info.name@) || parent is None {
            zone_of(info.name@, facts.zones@)
        } else {
            zone_of(parent->0, facts.zones@)
        },
        parent_ifindex: if parent is Some && names.dom().contains(parent->0) {
            Some(names[parent->0])
        } else {
            None
        },
        ipv4_cidrs: with_colon(facts.cidrs(info.name@), false),
        ipv6_cidrs: with_colon(facts.cidrs(info.name@), true),
    }
}

fn build_interface(info: &InterfaceInfo, facts: &SystemFacts, names: &Table<String, u32>) -> (r:
    Interface)
    requires
        facts.wf(),
        names.wf(),
    ensures
        r@ == interface_of(*info, *facts, names@),
{
    let (ipv4_cidrs, ipv6_cidrs): (Vec<String>, Vec<String>) = match facts.subnets.get(&info.name) {
        Some(v) => (sift_colon(v, false), sift_colon(v, true)),
        None => {
            let a: Vec<String> = Vec::new();
            let b: Vec<String> = Vec::new();
            assert(views(a@) =~= with_colon(Seq::empty(), false));
            assert(views(b@) =~= with_colon(Seq::empty(), true));
            (a, b)
        },
    };
    let parent = infer_parent_name(info.name.as_str(), facts.masters.get(&info.name));
    let parent_ifindex = match &parent {
        Some(p) => match names.get(p) {
            Some(i) => Some(*i),
            None => None,
        },
        None => None,
    };
    let zone = match (facts.zones.get(&info.name), &parent) {
        (Some(z), _) => z.clone(),
        (None, Some(p)) => resolve_zone(p.as_str(), &facts.zones),
        (None, None) => copy_text("unknown"),
    };
    Interface {
        ifindex: info.ifindex,
        name: info.name.clone(),
        role: info.role,
        zone,
        parent_ifindex,
        ipv4_cidrs,
        ipv6_cidrs,
    }
}

/// Whether a listed interface is watched.
pub open spec fn is_watched(m: InterfaceModel) -> bool {
    m.role.watched(m.ipv4_cidrs.len() > 0 || m.ipv6_cidrs.len() > 0)
}

/// The watched ones of listed interfaces, in their places.
pub open spec fn discovered(
    s: Seq<InterfaceInfo>,
    facts: SystemFacts,
    names: Map<Seq<char>, u32>,
) -> Seq<InterfaceModel>
    decreases s.len(),
{
    if s.len() == 0 {
        Seq::empty()
    } else {
        let before = discovered(s.drop_last(), facts, names);
        let m = interface_of(s.last(), facts, names);
        if is_watched(m) {
            placed(before, m)
        } else {
            before
        }
    }
}

impl TopologySnapshot {
    /// The snapshot of the system's interfaces.
    pub fn discover(interfaces: &Vec<InterfaceInfo>, facts: &SystemFacts) -> (r: Self)
        requires
            facts.wf(),
        ensures
            r.wf(),
            r@ == discovered(interfaces@, *facts, index_names(interfaces@)),
    {
        let ghost all = interfaces@;
        let mut names: Table<String, u32> = Table::new();
        let mut i: usize = 0;
        assert(all.take(0) =~= Seq::empty());
        while i < interfaces.len()
            invariant
                i <= interfaces@.len(),
                all == interfaces@,
                names.wf(),
                names@ == index_names(all.take(i as int)),
            decreases interfaces@.len() - i,
        {
            assert(all.take(i + 1).drop_last() =~= all.take(i as int));
            names.insert(interfaces[i].name.clone(), interfaces[i].ifindex);
            i += 1;
        }
        assert(all.take(i as int) =~= all);
        let mut r = Self::empty();
        let mut i: usize = 0;
        while i < interfaces.len()
            invariant
                i <= interfaces@.len(),
                all == interfaces@,
                facts.wf(),
                names.wf(),
                names@ == index_names(all),
                r.wf(),
                r@ == discovered(all.take(i as int), *facts, index_names(all)),
            decreases interfaces@.len() - i,
        {
            assert(all.take(i + 1).drop_last() =~= all.take(i as int));
            let node = build_interface(&interfaces[i], facts, &names);
            let has_ip = node.ipv4_cidrs.len() > 0 || node.ipv6_cidrs.len() > 0;
            if node.role.is_included_in_topology(has_ip) {
                r.place(node);
            }
            i += 1;
        }
        assert(all.take(i as int) =~= all);
        r
    }
}

} // verus!
