//! How the packet programs are attached, and what their tables hold: the router's
//! own addresses and the ports of its management.
use crate::cidr::{ipv4_number, ipv6_words, v4_number, v6_words};
use crate::ip::{parse_ip_text, parsed_ip, IpAddr};
use crate::keys::RouterIpKey;
use crate::number::{parse_unsigned, parsed};
use crate::options::{lowercase, LogLevel, Options, TcBackend, TcOrder};
use crate::system::{check_interface_exist, first_missing};
use crate::table::Key;
use crate::text::{chars_of, copy_text, cut, split_once, text_range, views};
use crate::topology::{iface_views, InterfaceInfo, InterfaceModel, TopologySnapshot};
use vstd::prelude::*;

verus! {

/// Where the first dot or hyphen stands; at the end where there is none.
pub open spec fn version_mark(s: Seq<char>) -> int
    decreases s.len(),
{
    if s.len() == 0 || s[0] == '.' || s[0] == '-' {
        0
    } else {
        1 + version_mark(s.drop_first())
    }
}

/// What stands before the first dot or hyphen, and what behind it.
pub open spec fn version_part(s: Seq<char>) -> (Seq<char>, Option<Seq<char>>) {
    let i = version_mark(s);
    if i < s.len() {
        (s.take(i), Some(s.skip(i + 1)))
    } else {
        (s, None)
    }
}

/// The number that a text gives, or zero.
pub open spec fn number_or_zero(s: Option<Seq<char>>) -> int {
    match s {
        Some(t) => match parsed(t, 10, 0xffff_ffff) {
            Some(v) => v,
            None => 0,
        },
        None => 0,
    }
}

/// What stands before the first such character, or all.
pub open spec fn before_char(s: Seq<char>, c: char) -> Seq<char> {
    match cut(s, c) {
        Some((a, _)) => a,
        None => s,
    }
}

/// The version of a kernel: its release cut at the first two dots or hyphens, and
/// of the rest what stands before a hyphen. A part that is no number counts as
/// zero.
pub open spec fn kernel_version(release: Seq<char>) -> (int, int, int) {
    let (major, rest) = version_part(release);
    match rest {
        None => (number_or_zero(Some(major)), 0, 0),
        Some(r) => {
            let (minor, rest) = version_part(r);
            (
                number_or_zero(Some(major)),
                number_or_zero(Some(minor)),
                match rest {
                    None => 0,
                    Some(p) => number_or_zero(Some(before_char(p, '-'))),
                },
            )
        },
    }
}

/// Whether a version is not older than another one.
pub open spec fn not_older(a: (int, int, int), b: (int, int, int)) -> bool {
    a.0 > b.0 || (a.0 == b.0 && (a.1 > b.1 || (a.1 == b.1 && a.2 >= b.2)))
}

fn split_version(s: &str) -> (r: (String, Option<String>))
    ensures
        r.0@ == version_part(s@).0,
        match r.1 {
            Some(t) => version_part(s@).1 == Some(t@),
            None => version_part(s@).1 is None,
        },
{
    let cs = chars_of(s);
    let mut i: usize = 0;
    assert(s@.skip(0) =~= s@);
    while i < cs.len() && cs[i] != '.' && cs[i] != '-'
        invariant
            i <= cs@.len(),
            cs@ == s@,
            version_mark(s@) == i + version_mark(s@.skip(i as int)),
        decreases cs@.len() - i,
    {
        assert(s@.skip(i as int).drop_first() =~= s@.skip(i + 1));
        i += 1;
    }
    assert(version_mark(s@) == i);
    if i < cs.len() {
        let a = text_range(cs.as_slice(), 0, i);
        let b = text_range(cs.as_slice(), i + 1, cs.len());
        assert(a@ =~= s@.take(i as int));
        assert(b@ =~= s@.skip(i + 1));
        (a, Some(b))
    } else {
        (copy_text(s), None)
    }
}

fn read_number(s: &str) -> (r: u32)
    ensures
        r == number_or_zero(Some(s@)),
{
    match parse_unsigned(s, 10, 0xffff_ffff) {
        Some(v) => v as u32,
        None => 0,
    }
}

fn version_of(release: &str) -> (r: (u32, u32, u32))
    ensures
        (r.0 as int, r.1 as int, r.2 as int) == kernel_version(release@),
{
    let (a, rest) = split_version(release);
    let major = read_number(a.as_str());
    match rest {
        None => (major, 0, 0),
        Some(r) => {
            let (b, rest) = split_version(r.as_str());
            let minor = read_number(b.as_str());
            match rest {
                None => (major, minor, 0),
                Some(p) => {
                    let c = match split_once(p.as_str(), '-') {
                        Some((x, _)) => x,
                        None => p,
                    };
                    (major, minor, read_number(c.as_str()))
                },
            }
        },
    }
}

/// Whether the kernel, given its release, is of a version or newer. Of an unknown
/// one it is not known.
pub fn kernel_at_least(release: Option<&str>, major: u32, minor: u32, patch: u32) -> (r: bool)
    ensures
        r == match release {
            Some(s) => not_older(kernel_version(s@), (major as int, minor as int, patch as int)),
            None => false,
        },
{
    match release {
        Some(s) => {
            let v = version_of(s);
            v.0 > major || (v.0 == major && (v.1 > minor || (v.1 == minor && v.2 >= patch)))
        },
        None => false,
    }
}

/// How a program is attached in the end.
#[derive(Clone, Copy, Debug, PartialEq, Eq, Structural)]
pub enum ResolvedBackend {
    Tcx,
    Netlink,
}

/// Why the programs cannot be attached as asked.
#[derive(Clone, Copy, Debug, PartialEq, Eq, Structural)]
pub enum AttachError {
    /// The kernel is older than 6.6.0.
    KernelTooOld,
    /// A priority was given where none is used.
    PriorityWithoutNetlink,
    /// A place before or after another program was asked for where there is none.
    OrderWithNetlink,
    /// The program to stand before or after was not given.
    AnchorMissing,
}

/// Whether an order is relative to another program.
pub open spec fn is_relative(order: TcOrder) -> bool {
    order == TcOrder::Before || order == TcOrder::After
}

/// How the programs are attached.
pub open spec fn backend_for(
    asked: TcBackend,
    order: TcOrder,
    has_priority: bool,
    supports_tcx: bool,
) -> Result<ResolvedBackend, AttachError> {
    if asked == TcBackend::Tcx && !supports_tcx {
        Err(AttachError::KernelTooOld)
    } else if asked == TcBackend::Tcx || (asked == TcBackend::Auto && supports_tcx) {
        if has_priority {
            Err(AttachError::PriorityWithoutNetlink)
        } else {
            Ok(ResolvedBackend::Tcx)
        }
    } else if is_relative(order) {
        Err(AttachError::OrderWithNetlink)
    } else {
        Ok(ResolvedBackend::Netlink)
    }
}

/// Decides how the programs are attached.
pub fn resolve_backend(
    asked: TcBackend,
    order: TcOrder,
    netlink_priority: Option<u16>,
    supports_tcx: bool,
) -> (r: Result<ResolvedBackend, AttachError>)
    ensures
        r == backend_for(asked, order, netlink_priority is Some, supports_tcx),
{
    let resolved = match asked {
        TcBackend::Auto => {
            if supports_tcx {
                ResolvedBackend::Tcx
            } else {
                ResolvedBackend::Netlink
            }
        },
        TcBackend::Tcx => {
            if !supports_tcx {
                return Err(AttachError::KernelTooOld);
            }
            ResolvedBackend::Tcx
        },
        TcBackend::Netlink => ResolvedBackend::Netlink,
    };
    if resolved == ResolvedBackend::Tcx && netlink_priority.is_some() {
        return Err(AttachError::PriorityWithoutNetlink);
    }
    if resolved == ResolvedBackend::Netlink && (order == TcOrder::Before || order
        == TcOrder::After) {
        return Err(AttachError::OrderWithNetlink);
    }
    Ok(resolved)
}

/// Where and how a program is attached.
#[derive(Clone, Copy, Debug, PartialEq, Eq, Structural)]
pub enum AttachPoint {
    First,
    Default,
    Last,
    /// Before the program with a number.
    Before(u32),
    /// Behind the program with a number.
    After(u32),
    /// Through netlink, with a priority.
    Priority(u16),
}

/// Where a program is attached.
pub open spec fn point_for(
    backend: ResolvedBackend,
    order: TcOrder,
    priority: Option<u16>,
    anchor: Option<u32>,
) -> Result<AttachPoint, AttachError> {
    match backend {
        ResolvedBackend::Tcx => match (order, anchor) {
            (TcOrder::First, _) => Ok(AttachPoint::First),
            (TcOrder::Default, _) => Ok(AttachPoint::Default),
            (TcOrder::Last, _) => Ok(AttachPoint::Last),
            (TcOrder::Before, Some(id)) => Ok(AttachPoint::Before(id)),
            (TcOrder::After, Some(id)) => Ok(AttachPoint::After(id)),
            _ => Err(AttachError::AnchorMissing),
        },
        ResolvedBackend::Netlink => match (priority, order) {
            (Some(p), _) => Ok(AttachPoint::Priority(p)),
            (None, TcOrder::First) => Ok(AttachPoint::Priority(1)),
            (None, TcOrder::Default) => Ok(AttachPoint::Priority(0)),
            (None, TcOrder::Last) => Ok(AttachPoint::Priority(65535)),
            (None, _) => Err(AttachError::OrderWithNetlink),
        },
    }
}

/// Decides where a program is attached.
pub fn attach_point(
    backend: ResolvedBackend,
    order: TcOrder,
    netlink_priority: Option<u16>,
    anchor: Option<u32>,
) -> (r: Result<AttachPoint, AttachError>)
    ensures
        r == point_for(backend, order, netlink_priority, anchor),
{
    match backend {
        ResolvedBackend::Tcx => match order {
            TcOrder::First => Ok(AttachPoint::First),
            TcOrder::Default => Ok(AttachPoint::Default),
            TcOrder::Last => Ok(AttachPoint::Last),
            TcOrder::Before => match anchor {
                Some(id) => Ok(AttachPoint::Before(id)),
                None => Err(AttachError::AnchorMissing),
            },
            TcOrder::After => match anchor {
                Some(id) => Ok(AttachPoint::After(id)),
                None => Err(AttachError::AnchorMissing),
            },
        },
        ResolvedBackend::Netlink => match netlink_priority {
            Some(p) => Ok(AttachPoint::Priority(p)),
            None => match order {
                TcOrder::First => Ok(AttachPoint::Priority(1)),
                TcOrder::Default => Ok(AttachPoint::Priority(0)),
                TcOrder::Last => Ok(AttachPoint::Priority(65535)),
                TcOrder::Before => Err(AttachError::OrderWithNetlink),
                TcOrder::After => Err(AttachError::OrderWithNetlink),
            },
        },
    }
}

/// Once the way of attaching is settled, only a missing program to stand before
/// or after keeps a program from being attached.
pub proof fn law_settled_backend_attaches(
    asked: TcBackend,
    order: TcOrder,
    priority: Option<u16>,
    supports_tcx: bool,
    anchor: Option<u32>,
)
    requires
        backend_for(asked, order, priority is Some, supports_tcx) is Ok,
    ensures
        match point_for(
            backend_for(asked, order, priority is Some, supports_tcx)->Ok_0,
            order,
            priority,
            anchor,
        ) {
            Ok(_) => is_relative(order) ==> anchor is Some,
            Err(e) => e == AttachError::AnchorMissing && is_relative(order) && anchor is None,
        },
{
}

/// The size of the buffer that carries DNS frames: small unless DNS is watched.
pub fn dns_buffer_bytes(enable_dns: bool) -> (r: u32)
    ensures
        r == if enable_dns {
            1048576
        } else {
            4096int
        },
{
    if enable_dns {
        1048576
    } else {
        4096
    }
}

/// Why the program does not start.
#[derive(Debug)]
pub enum ArgumentError {
    /// No interface was named.
    NoInterface,
    /// An interface does not exist.
    MissingInterface(String),
    /// The order has no such name.
    Order,
    /// The way of attaching has no such name.
    Backend,
    /// The level of the log has no such name.
    Level,
}

/// What the names among the options stand for.
#[derive(Clone, Copy, Debug, PartialEq, Eq, Structural)]
pub struct Settings {
    pub order: TcOrder,
    pub backend: TcBackend,
    pub level: LogLevel,
}

/// Checks the options against the interfaces that exist.
pub fn validate_arguments(options: &Options, all: &Vec<InterfaceInfo>) -> (r: Result<
    Settings,
    ArgumentError,
>)
    ensures
        match r {
            Ok(s) => {
                &&& options.iface@.len() > 0
                &&& first_missing(views(options.iface@), all@) is None
                &&& TcOrder::named(lowercase(options.tc_order@)) == Some(s.order)
                &&& TcBackend::named(lowercase(options.tc_backend@)) == Some(s.backend)
                &&& LogLevel::named(lowercase(options.log_level@)) == Some(s.level)
            },
            Err(ArgumentError::NoInterface) => options.iface@.len() == 0,
            Err(ArgumentError::MissingInterface(name)) => {
                &&& options.iface@.len() > 0
                &&& first_missing(views(options.iface@), all@) == Some(name@)
            },
            Err(ArgumentError::Order) => {
                &&& options.iface@.len() > 0
                &&& first_missing(views(options.iface@), all@) is None
                &&& TcOrder::named(lowercase(options.tc_order@)) is None
            },
            Err(ArgumentError::Backend) => {
                &&& options.iface@.len() > 0
                &&& first_missing(views(options.iface@), all@) is None
                &&& TcOrder::named(lowercase(options.tc_order@)) is Some
                &&& TcBackend::named(lowercase(options.tc_backend@)) is None
            },
            Err(ArgumentError::Level) => {
                &&& options.iface@.len() > 0
                &&& first_missing(views(options.iface@), all@) is None
                &&& TcOrder::named(lowercase(options.tc_order@)) is Some
                &&& TcBackend::named(lowercase(options.tc_backend@)) is Some
                &&& LogLevel::named(lowercase(options.log_level@)) is None
            },
        },
{
    if options.iface.len() == 0 {
        return Err(ArgumentError::NoInterface);
    }
    if let Err(name) = check_interface_exist(&options.iface, all) {
        return Err(ArgumentError::MissingInterface(name));
    }
    let order = match TcOrder::parse(options.tc_order.as_str()) {
        Some(o) => o,
        None => return Err(ArgumentError::Order),
    };
    let backend = match TcBackend::parse(options.tc_backend.as_str()) {
        Some(b) => b,
        None => return Err(ArgumentError::Backend),
    };
    match LogLevel::parse(options.log_level.as_str()) {
        Some(level) => Ok(Settings { order, backend, level }),
        None => Err(ArgumentError::Level),
    }
}

/// The address in a text of an address with a zone or a prefix.
pub open spec fn address_of(cidr: Seq<char>) -> Option<Seq<u8>> {
    parsed_ip(before_char(before_char(cidr, '%'), '/'))
}

/// Reads the address of an interface.
pub fn parse_interface_address(cidr: &str) -> (r: Option<IpAddr>)
    ensures
        match r {
            Some(a) => address_of(cidr@) == Some(a@),
            None => address_of(cidr@) is None,
        },
{
    let a = match split_once(cidr, '%') {
        Some((a, _)) => a,
        None => copy_text(cidr),
    };
    let b = match split_once(a.as_str(), '/') {
        Some((b, _)) => b,
        None => a,
    };
    parse_ip_text(b.as_str())
}

/// The key of an address of the router, by the bytes of the address.
pub open spec fn address_key(a: Seq<u8>) -> (Seq<u32>, u8, Seq<u8>) {
    (
        if a.len() == 4 {
            seq![v4_number(a), 0u32, 0u32, 0u32]
        } else {
            v6_words(a)
        },
        if a.len() == 4 {
            4u8
        } else {
            6u8
        },
        seq![0u8, 0u8, 0u8],
    )
}

/// The key of an address of the router.
pub fn router_ip_key(address: &IpAddr) -> (r: RouterIpKey)
    ensures
        r@ == address_key(address@),
{
    match address {
        IpAddr::V4(a) => {
            let r = RouterIpKey { ip: [ipv4_number(a), 0, 0, 0], ip_version: 4, _pad: [0, 0, 0] };
            assert(r.ip@ =~= seq![v4_number(a@), 0u32, 0u32, 0u32]);
            assert(r._pad@ =~= seq![0u8, 0u8, 0u8]);
            r
        },
        IpAddr::V6(a) => {
            let r = RouterIpKey { ip: ipv6_words(a), ip_version: 6, _pad: [0, 0, 0] };
            assert(r._pad@ =~= seq![0u8, 0u8, 0u8]);
            r
        },
    }
}

/// Keys without repeats, over plain values.
pub open spec fn key_seq<K: Key>(v: Seq<K>) -> Seq<K::V> {
    v.map_values(|k: K| k@)
}

/// A list with a value at its end, unless it holds it.
pub open spec fn with_one<T>(s: Seq<T>, x: T) -> Seq<T> {
    if s.contains(x) {
        s
    } else {
        s.push(x)
    }
}

/// Whether a list of keys holds one.
pub fn has_key<K: Key>(list: &Vec<K>, k: &K) -> (r: bool)
    ensures
        r == key_seq(list@).contains(k@),
{
    let mut i: usize = 0;
    while i < list.len()
        invariant
            i <= list@.len(),
            forall|j: int| 0 <= j < i ==> (#[trigger] list@[j])@ != k@,
        decreases list@.len() - i,
    {
        if list[i].same(k) {
            assert(key_seq(list@)[i as int] == k@);
            return true;
        }
        i += 1;
    }
    assert(!key_seq(list@).contains(k@)) by {
        if key_seq(list@).contains(k@) {
            let j = choose|j: int| 0 <= j < key_seq(list@).len() && key_seq(list@)[j] == k@;
            assert(list@[j]@ == k@);
        }
    }
    false
}

fn add_key<K: Key>(list: &mut Vec<K>, k: K)
    ensures
        key_seq(final(list)@) == with_one(key_seq(old(list)@), k@),
{
    if !has_key(list, &k) {
        let ghost before = key_seq(list@);
        let ghost kv = k@;
        list.push(k);
        assert(key_seq(list@) =~= before.push(kv));
    }
}

/// Keys with those of addresses, each once.
pub open spec fn with_addresses(
    s: Seq<(Seq<u32>, u8, Seq<u8>)>,
    cidrs: Seq<Seq<char>>,
) -> Seq<(Seq<u32>, u8, Seq<u8>)>
    decreases cidrs.len(),
{
    if cidrs.len() == 0 {
        s
    } else {
        let before = with_addresses(s, cidrs.drop_last());
        match address_of(cidrs.last()) {
            Some(a) => with_one(before, address_key(a)),
            None => before,
        }
    }
}

/// The keys of the addresses that interfaces have, each once.
pub open spec fn router_keys(s: Seq<InterfaceModel>) -> Seq<(Seq<u32>, u8, Seq<u8>)>
    decreases s.len(),
{
    if s.len() == 0 {
        Seq::empty()
    } else {
        with_addresses(
            with_addresses(router_keys(s.drop_last()), s.last().ipv4_cidrs),
            s.last().ipv6_cidrs,
        )
    }
}

fn add_addresses(list: &mut Vec<RouterIpKey>, cidrs: &Vec<String>)
    ensures
        key_seq(final(list)@) == with_addresses(key_seq(old(list)@), views(cidrs@)),
{
    let ghost start = key_seq(list@);
    let ghost all = views(cidrs@);
    let mut i: usize = 0;
    assert(all.take(0) =~= Seq::empty());
    while i < cidrs.len()
        invariant
            i <= cidrs@.len(),
            all == views(cidrs@),
            key_seq(list@) == with_addresses(start, all.take(i as int)),
        decreases cidrs@.len() - i,
    {
        assert(all.take(i + 1).drop_last() =~= all.take(i as int));
        assert(all.take(i + 1).last() == cidrs@[i as int]@);
        if let Some(a) = parse_interface_address(cidrs[i].as_str()) {
            add_key(list, router_ip_key(&a));
        }
        i += 1;
    }
    assert(all.take(i as int) =~= all);
}

/// The keys of the router's own addresses, each once.
pub fn router_addresses(topology: &TopologySnapshot) -> (r: Vec<RouterIpKey>)
    ensures
        key_seq(r@) == router_keys(topology@),
{
    let mut r: Vec<RouterIpKey> = Vec::new();
    let list = topology.interfaces();
    let ghost s = topology@;
    let mut i: usize = 0;
    assert(s.take(0) =~= Seq::empty());
    assert(key_seq(r@) =~= router_keys(s.take(0)));
    while i < list.len()
        invariant
            i <= list@.len(),
            s == iface_views(list@),
            s == topology@,
            key_seq(r@) == router_keys(s.take(i as int)),
        decreases list@.len() - i,
    {
        assert(s.take(i + 1).drop_last() =~= s.take(i as int));
        assert(s.take(i + 1).last() == list@[i as int]@);
        add_addresses(&mut r, &list[i].ipv4_cidrs);
        add_addresses(&mut r, &list[i].ipv6_cidrs);
        i += 1;
    }
    assert(s.take(i as int) =~= s);
    r
}

/// The ports of the router's management: those of its web pages and the one of
/// this program, each once.
pub fn management_ports(api_port: u16) -> (r: Vec<u16>)
    ensures
        r@ == with_one(seq![80u16, 443u16], api_port),
{
    let mut r: Vec<u16> = vec![80u16, 443u16];
    assert(r@ =~= seq![80u16, 443u16]);
    if api_port != 80 && api_port != 443 {
        assert(!r@.contains(api_port));
        r.push(api_port);
    } else {
        assert(r@[if api_port == 80 { 0 } else { 1 }] == api_port);
    }
    r
}

/// The values of a list that another one lacks, in their order.
pub open spec fn lacking<T>(s: Seq<T>, other: Seq<T>) -> Seq<T>
    decreases s.len(),
{
    if s.len() == 0 {
        s
    } else if other.contains(s.last()) {
        lacking(s.drop_last(), other)
    } else {
        lacking(s.drop_last(), other).push(s.last())
    }
}

/// The keys of a list that another one lacks.
pub fn missing_keys<K: Key>(list: &Vec<K>, other: &Vec<K>) -> (r: Vec<K>)
    ensures
        key_seq(r@) == lacking(key_seq(list@), key_seq(other@)),
{
    let mut r: Vec<K> = Vec::new();
    let ghost all = key_seq(list@);
    let ghost there = key_seq(other@);
    let mut i: usize = 0;
    assert(all.take(0) =~= Seq::empty());
    assert(key_seq(r@) =~= lacking(all.take(0), there));
    while i < list.len()
        invariant
            i <= list@.len(),
            all == key_seq(list@),
            there == key_seq(other@),
            key_seq(r@) == lacking(all.take(i as int), there),
        decreases list@.len() - i,
    {
        assert(all.take(i + 1).drop_last() =~= all.take(i as int));
        assert(all.take(i + 1).last() == list@[i as int]@);
        if !has_key(other, &list[i]) {
            let ghost before = key_seq(r@);
            let k = list[i].dup();
            let ghost kv = k@;
            r.push(k);
            assert(key_seq(r@) =~= before.push(kv));
        }
        i += 1;
    }
    assert(all.take(i as int) =~= all);
    r
}

proof fn lemma_lacking<T>(s: Seq<T>, other: Seq<T>, x: T)
    ensures
        lacking(s, other).contains(x) <==> s.contains(x) && !other.contains(x),
    decreases s.len(),
{
    if s.len() > 0 {
        let t = s.drop_last();
        lemma_lacking(t, other, x);
        let l = lacking(t, other);
        if t.contains(x) {
            let i = choose|i: int| 0 <= i < t.len() && t[i] == x;
            assert(s[i] == x);
        }
        if s.contains(x) {
            let i = choose|i: int| 0 <= i < s.len() && s[i] == x;
            if i < t.len() {
                assert(t[i] == x);
            }
        }
        assert(s[s.len() - 1] == s.last());
        if !other.contains(s.last()) {
            let p = l.push(s.last());
            assert(p[l.len() as int] == s.last());
            if l.contains(x) {
                let i = choose|i: int| 0 <= i < l.len() && l[i] == x;
                assert(p[i] == x);
            }
            if p.contains(x) {
                let i = choose|i: int| 0 <= i < p.len() && p[i] == x;
                if i < l.len() {
                    assert(l[i] == x);
                }
            }
        }
    }
}

/// A table holds what is wanted and nothing else, once the keys are out that are
/// there and not wanted, and those are in that are wanted and not there.
pub proof fn law_sync_leaves_the_wanted<T>(current: Seq<T>, wanted: Seq<T>)
    ensures
        current.to_set().difference(lacking(current, wanted).to_set()).union(
            lacking(wanted, current).to_set(),
        ) =~= wanted.to_set(),
{
    assert forall|x: T|
        current.to_set().difference(lacking(current, wanted).to_set()).union(
            lacking(wanted, current).to_set(),
        ).contains(x) <==> wanted.to_set().contains(x) by {
        lemma_lacking(current, wanted, x);
        lemma_lacking(wanted, current, x);
    }
}

} // verus!
