//! What is read out of the system's own tables: kinds of interfaces, kinds of
//! addresses, neighbors.
use crate::cidr::{in_network, ipv4_in_cidr};
use crate::interfaces::texts_by;
use crate::mac::{from_str, is_special_mac_address, parsed_mac, special_mac};
use crate::number::{parse_unsigned, parsed};
use crate::table::Table;
use crate::text::{
    chars_of, contains_text, copy_text, cut, holds_text, line_seq, lines, lowered, split_once,
    split_whitespace, starts_with, text_eq, text_from_utf8_lossy, text_of, text_range,
    to_ascii_lowercase, to_ascii_uppercase, trim, trimmed, uppered, utf8_lossy, views, word_seq,
};
use crate::topology::{InterfaceInfo, InterfaceRole, Ipv6AddrType};
use vstd::prelude::*;

verus! {

/// What kind of address an IPv6 address is.
pub open spec fn ipv6_kind(a: Seq<u8>) -> Ipv6AddrType {
    if (forall|i: int| 0 <= i < 15 ==> a[i] == 0) && a[15] == 1 {
        Ipv6AddrType::Loopback
    } else if forall|i: int| 0 <= i < 16 ==> a[i] == 0 {
        Ipv6AddrType::Unspecified
    } else if a[0] == 0xff {
        Ipv6AddrType::Multicast
    } else if a[0] == 0xfe && 0x80 <= a[1] < 0xc0 {
        Ipv6AddrType::LinkLocal
    } else if a[0] == 0xfc || a[0] == 0xfd {
        Ipv6AddrType::UniqueLocal
    } else if 0x20 <= a[0] < 0x40 {
        Ipv6AddrType::GlobalUnicast
    } else {
        Ipv6AddrType::Other
    }
}

/// What kind of address an IPv6 address is.
pub fn ipv6_addr_type(ip: &[u8; 16]) -> (r: Ipv6AddrType)
    ensures
        r == ipv6_kind(ip@),
{
    let mut i: usize = 0;
    while i < 15 && ip[i] == 0
        invariant
            i <= 15,
            forall|j: int| 0 <= j < i ==> ip@[j] == 0,
        decreases 15 - i,
    {
        i += 1;
    }
    if i == 15 && ip[15] == 1 {
        return Ipv6AddrType::Loopback;
    }
    if i == 15 && ip[15] == 0 {
        return Ipv6AddrType::Unspecified;
    }
    assert(!(forall|j: int| 0 <= j < 16 ==> ip@[j] == 0)) by {
        if i < 15 {
            assert(ip@[i as int] != 0);
        } else {
            assert(ip@[15] != 0);
        }
    }
    assert(!((forall|j: int| 0 <= j < 15 ==> ip@[j] == 0) && ip@[15] == 1)) by {
        if i < 15 {
            assert(ip@[i as int] != 0);
        }
    }
    if ip[0] == 0xff {
        Ipv6AddrType::Multicast
    } else if ip[0] == 0xfe && ip[1] >= 0x80 && ip[1] < 0xc0 {
        Ipv6AddrType::LinkLocal
    } else if ip[0] == 0xfc || ip[0] == 0xfd {
        Ipv6AddrType::UniqueLocal
    } else if ip[0] >= 0x20 && ip[0] < 0x40 {
        Ipv6AddrType::GlobalUnicast
    } else {
        Ipv6AddrType::Other
    }
}

/// What the system says of an interface's kind: the text of its device type, if
/// there is one, whether it has a bridge directory and tunnel flags, and its event
/// text.
#[derive(Debug)]
pub struct KindFacts {
    pub type_text: Option<String>,
    pub has_bridge: bool,
    pub uevent: String,
    pub has_tun_flags: bool,
}

/// A number that an optional text holds, white space around it left out.
pub open spec fn number_in(text: Option<String>) -> Option<int> {
    match text {
        Some(t) => parsed(trimmed(t@), 10, u32::MAX as int),
        None => None,
    }
}

/// Reads a number out of an optional text.
pub fn opt_u32(text: &Option<String>) -> (r: Option<u32>)
    ensures
        match r {
            Some(n) => number_in(*text) == Some(n as int),
            None => number_in(*text) is None,
        },
{
    match text {
        Some(t) => match parse_unsigned(trim(t.as_str()).as_str(), 10, u32::MAX as u64) {
            Some(n) => Some(n as u32),
            None => None,
        },
        None => None,
    }
}

/// The kind of an interface.
pub open spec fn role_of(name: Seq<char>, f: KindFacts) -> InterfaceRole {
    let kind = match number_in(f.type_text) {
        Some(n) => n,
        None => 0,
    };
    if f.has_bridge {
        InterfaceRole::Bridge
    } else if holds_text(f.uevent@, "DEVTYPE=wlan"@) {
        InterfaceRole::Wifi
    } else if holds_text(f.uevent@, "DEVTYPE=bridge"@) {
        InterfaceRole::Bridge
    } else if kind == 772 {
        InterfaceRole::Loopback
    } else if kind == 1 {
        if "wifi"@.is_prefix_of(lowered(name)) || "wlan"@.is_prefix_of(lowered(name)) {
            InterfaceRole::Wifi
        } else {
            InterfaceRole::Ethernet
        }
    } else if kind == 512 || kind == 65534 || f.has_tun_flags {
        InterfaceRole::Tun
    } else {
        InterfaceRole::Other
    }
}

/// The kind of an interface.
pub fn infer_role(ifname: &str, facts: &KindFacts) -> (r: InterfaceRole)
    ensures
        r == role_of(ifname@, *facts),
{
    let kind: u32 = match opt_u32(&facts.type_text) {
        Some(n) => n,
        None => 0,
    };
    if facts.has_bridge {
        return InterfaceRole::Bridge;
    }
    if contains_text(facts.uevent.as_str(), "DEVTYPE=wlan") {
        return InterfaceRole::Wifi;
    }
    if contains_text(facts.uevent.as_str(), "DEVTYPE=bridge") {
        return InterfaceRole::Bridge;
    }
    if kind == 772 {
        InterfaceRole::Loopback
    } else if kind == 1 {
        let lower = to_ascii_lowercase(ifname);
        if starts_with(lower.as_str(), "wifi") || starts_with(lower.as_str(), "wlan") {
            InterfaceRole::Wifi
        } else {
            InterfaceRole::Ethernet
        }
    } else if kind == 512 || kind == 65534 || facts.has_tun_flags {
        InterfaceRole::Tun
    } else {
        InterfaceRole::Other
    }
}

/// Whether a character is an ASCII letter.
pub open spec fn is_letter(c: char) -> bool {
    ('a' <= c && c <= 'z') || ('A' <= c && c <= 'Z')
}

/// A text without what stands before its first letter.
pub open spec fn skip_signs(s: Seq<char>) -> Seq<char>
    decreases s.len(),
{
    if s.len() == 0 || is_letter(s[0]) {
        s
    } else {
        skip_signs(s.drop_first())
    }
}

/// A text without what stands behind its last letter.
pub open spec fn drop_signs(s: Seq<char>) -> Seq<char>
    decreases s.len(),
{
    if s.len() == 0 || is_letter(s.last()) {
        s
    } else {
        drop_signs(s.drop_last())
    }
}

/// A word as the name of a state is compared: from its first to its last letter,
/// in upper case.
pub open spec fn normalized(s: Seq<char>) -> Seq<char> {
    uppered(drop_signs(skip_signs(s)))
}

fn letter(c: char) -> (r: bool)
    ensures
        r == is_letter(c),
{
    ('a' <= c && c <= 'z') || ('A' <= c && c <= 'Z')
}

fn normalize(s: &str) -> (r: String)
    ensures
        r@ == normalized(s@),
{
    let cs = chars_of(s);
    let ghost t = s@;
    let mut from: usize = 0;
    assert(t.skip(0) =~= t);
    while from < cs.len() && !letter(cs[from])
        invariant
            from <= cs@.len(),
            cs@ == t,
            skip_signs(t) == skip_signs(t.skip(from as int)),
        decreases cs@.len() - from,
    {
        assert(t.skip(from as int).drop_first() =~= t.skip(from + 1));
        from += 1;
    }
    let ghost u = t.skip(from as int);
    assert(skip_signs(t) == u);
    let mut to: usize = cs.len();
    assert(u.take(u.len() as int) =~= u);
    while to > from && !letter(cs[to - 1])
        invariant
            from <= to <= cs@.len(),
            cs@ == t,
            u == t.skip(from as int),
            drop_signs(u) == drop_signs(u.take(to - from)),
        decreases to,
    {
        assert(u.take(to - from).drop_last() =~= u.take(to - 1 - from));
        assert(u.take(to - from).last() == t[to - 1]);
        to -= 1;
    }
    assert(drop_signs(u) == u.take(to - from));
    let word = text_range(&cs, from, to);
    assert(word@ =~= u.take(to - from));
    to_ascii_uppercase(word.as_str())
}

/// Whether a word names the state of a neighbor.
pub open spec fn is_state(s: Seq<char>) -> bool {
    ||| s == "REACHABLE"@
    ||| s == "STALE"@
    ||| s == "DELAY"@
    ||| s == "PROBE"@
    ||| s == "FAILED"@
    ||| s == "NOARP"@
    ||| s == "INCOMPLETE"@
    ||| s == "INVALID"@
}

fn known_state(s: &str) -> (r: bool)
    ensures
        r == is_state(s@),
{
    text_eq(s, "REACHABLE") || text_eq(s, "STALE") || text_eq(s, "DELAY") || text_eq(s, "PROBE")
        || text_eq(s, "FAILED") || text_eq(s, "NOARP") || text_eq(s, "INCOMPLETE") || text_eq(
        s,
        "INVALID",
    )
}

/// The state that the words of a line name: the last one.
pub open spec fn state_in(parts: Seq<Seq<char>>) -> Option<Seq<char>>
    decreases parts.len(),
{
    if parts.len() == 0 {
        None
    } else if is_state(normalized(parts.last())) {
        Some(normalized(parts.last()))
    } else {
        state_in(parts.drop_last())
    }
}

/// The state that the words of a line name.
pub fn extract_neighbor_state(parts: &Vec<String>) -> (r: Option<String>)
    ensures
        match r {
            Some(s) => state_in(views(parts@)) == Some(s@),
            None => state_in(views(parts@)) is None,
        },
{
    let ghost ps = views(parts@);
    let mut i: usize = parts.len();
    assert(ps.take(i as int) =~= ps);
    while i > 0
        invariant
            i <= parts@.len(),
            ps == views(parts@),
            state_in(ps) == state_in(ps.take(i as int)),
        decreases i,
    {
        assert(ps.take(i as int).drop_last() =~= ps.take(i - 1));
        assert(ps.take(i as int).last() == parts@[i - 1]@);
        let word = normalize(parts[i - 1].as_str());
        if known_state(word.as_str()) {
            return Some(word);
        }
        i -= 1;
    }
    None
}

/// Which of two states of one neighbor tells more.
pub open spec fn state_rank(s: Seq<char>) -> int {
    if s == "REACHABLE"@ {
        4
    } else if s == "STALE"@ {
        3
    } else if s == "DELAY"@ {
        2
    } else if s == "PROBE"@ {
        1
    } else {
        0
    }
}

fn rank_of(s: &str) -> (r: u8)
    ensures
        r == state_rank(s@),
{
    if text_eq(s, "REACHABLE") {
        4
    } else if text_eq(s, "STALE") {
        3
    } else if text_eq(s, "DELAY") {
        2
    } else if text_eq(s, "PROBE") {
        1
    } else {
        0
    }
}

/// The better of two states; the first one counts among equals, unless it is
/// empty.
pub open spec fn better_state(a: Seq<char>, b: Seq<char>) -> Seq<char> {
    if a.len() == 0 || state_rank(b) > state_rank(a) {
        b
    } else {
        a
    }
}

/// The better of two states of a neighbor.
pub fn pick_best_neighbor_state(a: &str, b: &str) -> (r: String)
    ensures
        r@ == better_state(a@, b@),
{
    if a.is_empty() || rank_of(b) > rank_of(a) {
        copy_text(b)
    } else {
        copy_text(a)
    }
}

/// A neighbor on a watched interface.
#[derive(Debug)]
pub struct FilteredNeighborEntry {
    pub dev: String,
    pub mac: [u8; 6],
    pub ip: String,
    pub state: String,
}

/// A neighbor over plain values.
pub struct NeighborModel {
    pub dev: Seq<char>,
    pub mac: Seq<u8>,
    pub ip: Seq<char>,
    pub state: Seq<char>,
}

impl View for FilteredNeighborEntry {
    type V = NeighborModel;

    open spec fn view(&self) -> NeighborModel {
        NeighborModel { dev: self.dev@, mac: self.mac@, ip: self.ip@, state: self.state@ }
    }
}

/// The neighbors over plain values.
pub open spec fn neighbor_views(v: Seq<FilteredNeighborEntry>) -> Seq<NeighborModel> {
    Seq::new(v.len(), |i: int| v[i]@)
}

/// Whether some IPv4 network of a list holds an address.
pub open spec fn in_some_network(ip: Seq<char>, cidrs: Seq<Seq<char>>) -> bool {
    exists|i: int| 0 <= i < cidrs.len() && !(#[trigger] cidrs[i]).contains(':') && in_network(ip, cidrs[i])
}

pub(crate) fn has_char(s: &str, c: char) -> (r: bool)
    ensures
        r == s@.contains(c),
{
    let cs = chars_of(s);
    let mut i: usize = 0;
    while i < cs.len()
        invariant
            i <= cs@.len(),
            cs@ == s@,
            forall|j: int| 0 <= j < i ==> cs@[j] != c,
        decreases cs@.len() - i,
    {
        if cs[i] == c {
            assert(s@[i as int] == c);
            return true;
        }
        i += 1;
    }
    false
}

fn some_network(ip: &str, cidrs: &Vec<String>) -> (r: bool)
    ensures
        r == in_some_network(ip@, views(cidrs@)),
{
    let mut i: usize = 0;
    while i < cidrs.len()
        invariant
            i <= cidrs@.len(),
            forall|j: int|
                0 <= j < i ==> (#[trigger] views(cidrs@)[j]).contains(':') || !in_network(
                    ip@,
                    views(cidrs@)[j],
                ),
        decreases cidrs@.len() - i,
    {
        assert(views(cidrs@)[i as int] == cidrs@[i as int]@);
        if !has_char(cidrs[i].as_str(), ':') && ipv4_in_cidr(ip, cidrs[i].as_str()) {
            return true;
        }
        i += 1;
    }
    false
}

/// Whether a list holds a text.
pub fn has_text(v: &Vec<String>, s: &str) -> (r: bool)
    ensures
        r == views(v@).contains(s@),
{
    let mut i: usize = 0;
    while i < v.len()
        invariant
            i <= v@.len(),
            forall|j: int| 0 <= j < i ==> views(v@)[j] != s@,
        decreases v@.len() - i,
    {
        if text_eq(v[i].as_str(), s) {
            assert(views(v@)[i as int] == s@);
            return true;
        }
        i += 1;
    }
    false
}

/// The neighbor that a line of the ARP table names.
pub open spec fn arp_neighbor(
    line: Seq<char>,
    watched: Seq<Seq<char>>,
    subnets: Map<Seq<char>, Seq<Seq<char>>>,
) -> Option<NeighborModel> {
    let p = word_seq(line);
    if p.len() < 6 || p[2] == "0x0"@ || p[2] == "0x8"@ || p[3] == "00:00:00:00:00:00"@
        || !watched.contains(p[5]) {
        None
    } else {
        match parsed_mac(p[3]) {
            Some(mac) => if special_mac(mac) || (subnets.dom().contains(p[5]) && !in_some_network(
                p[0],
                subnets[p[5]],
            )) {
                None
            } else {
                Some(NeighborModel { dev: p[5], mac, ip: p[0], state: "REACHABLE"@ })
            },
            None => None,
        }
    }
}

fn read_arp_line(
    line: &str,
    monitor_devs: &Vec<String>,
    subnet_map: &Table<String, Vec<String>>,
) -> (r: Option<FilteredNeighborEntry>)
    requires
        subnet_map.wf(),
    ensures
        match r {
            Some(n) => arp_neighbor(line@, views(monitor_devs@), texts_by(subnet_map@)) == Some(n@),
            None => arp_neighbor(line@, views(monitor_devs@), texts_by(subnet_map@)) is None,
        },
{
    let parts = split_whitespace(line);
    let ghost p = word_seq(line@);
    assert(views(parts@) == p);
    if parts.len() < 6 {
        return None;
    }
    assert(p[0] == parts@[0]@);
    assert(p[2] == parts@[2]@);
    assert(p[3] == parts@[3]@);
    assert(p[5] == parts@[5]@);
    let flags = parts[2].as_str();
    let mac_text = parts[3].as_str();
    if text_eq(flags, "0x0") || text_eq(flags, "0x8") || text_eq(mac_text, "00:00:00:00:00:00") {
        return None;
    }
    if !has_text(monitor_devs, parts[5].as_str()) {
        return None;
    }
    let mac = match from_str(mac_text) {
        Ok(m) => m,
        Err(_) => {
            return None;
        },
    };
    if is_special_mac_address(&mac) {
        return None;
    }
    if let Some(cidrs) = subnet_map.get(&parts[5]) {
        if !some_network(parts[0].as_str(), cidrs) {
            return None;
        }
    }
    Some(
        FilteredNeighborEntry {
            ip: parts[0].clone(),
            mac,
            dev: parts[5].clone(),
            state: copy_text("REACHABLE"),
        },
    )
}

/// The neighbors that lines of the ARP table name.
pub open spec fn arp_neighbors(
    lines: Seq<Seq<char>>,
    watched: Seq<Seq<char>>,
    subnets: Map<Seq<char>, Seq<Seq<char>>>,
) -> Seq<NeighborModel>
    decreases lines.len(),
{
    if lines.len() == 0 {
        Seq::empty()
    } else {
        let before = arp_neighbors(lines.drop_last(), watched, subnets);
        match arp_neighbor(lines.last(), watched, subnets) {
            Some(n) => before.push(n),
            None => before,
        }
    }
}

/// Where a word first stands in a list; its length where it does not.
pub open spec fn place_of(p: Seq<Seq<char>>, word: Seq<char>) -> int
    decreases p.len(),
{
    if p.len() == 0 {
        0
    } else {
        let i = place_of(p.drop_last(), word);
        if i < p.len() - 1 || p.last() == word {
            i
        } else {
            i + 1
        }
    }
}

fn find_word(parts: &Vec<String>, word: &str) -> (r: usize)
    ensures
        r == place_of(views(parts@), word@),
        r <= parts@.len(),
{
    let ghost p = views(parts@);
    let mut found: usize = 0;
    let mut i: usize = 0;
    assert(p.take(0) =~= Seq::empty());
    while i < parts.len()
        invariant
            i <= parts@.len(),
            p == views(parts@),
            found == place_of(p.take(i as int), word@),
            found <= i,
        decreases parts@.len() - i,
    {
        assert(p.take(i + 1).drop_last() =~= p.take(i as int));
        assert(p.take(i + 1).last() == parts@[i as int]@);
        if found == i && !text_eq(parts[i].as_str(), word) {
            found += 1;
        }
        i += 1;
    }
    assert(p.take(i as int) =~= p);
    found
}

/// Whether a neighbor in a state can be used.
pub open spec fn usable_state(s: Seq<char>) -> bool {
    s != "FAILED"@ && s != "NOARP"@ && s != "INCOMPLETE"@ && s != "INVALID"@
}

/// The neighbor that a line of the IPv6 neighbor list names.
pub open spec fn ipv6_neighbor(line: Seq<char>, watched: Seq<Seq<char>>) -> Option<NeighborModel> {
    let p = word_seq(line);
    let d = place_of(p, "dev"@) + 1;
    let l = place_of(p, "lladdr"@) + 1;
    match state_in(p) {
        Some(state) => if p.len() < 5 || !usable_state(state) || d >= p.len() || l >= p.len()
            || !watched.contains(p[d]) {
            None
        } else {
            match parsed_mac(p[l]) {
                Some(mac) => if special_mac(mac) {
                    None
                } else {
                    Some(NeighborModel { dev: p[d], mac, ip: p[0], state })
                },
                None => None,
            }
        },
        None => None,
    }
}

fn read_neigh_line(line: &str, monitor_devs: &Vec<String>) -> (r: Option<FilteredNeighborEntry>)
    ensures
        match r {
            Some(n) => ipv6_neighbor(line@, views(monitor_devs@)) == Some(n@),
            None => ipv6_neighbor(line@, views(monitor_devs@)) is None,
        },
{
    let parts = split_whitespace(line);
    let ghost p = word_seq(line@);
    assert(views(parts@) == p);
    if parts.len() < 5 {
        return None;
    }
    let state = match extract_neighbor_state(&parts) {
        Some(s) => s,
        None => {
            return None;
        },
    };
    let s = state.as_str();
    if text_eq(s, "FAILED") || text_eq(s, "NOARP") || text_eq(s, "INCOMPLETE") || text_eq(
        s,
        "INVALID",
    ) {
        return None;
    }
    let dev_at = find_word(&parts, "dev");
    let lladdr_at = find_word(&parts, "lladdr");
    let last = parts.len() - 1;
    if dev_at >= last || lladdr_at >= last {
        return None;
    }
    assert(p[dev_at + 1] == parts@[dev_at + 1]@);
    assert(p[lladdr_at + 1] == parts@[lladdr_at + 1]@);
    assert(p[0] == parts@[0]@);
    if !has_text(monitor_devs, parts[dev_at + 1].as_str()) {
        return None;
    }
    let mac = match from_str(parts[lladdr_at + 1].as_str()) {
        Ok(m) => m,
        Err(_) => {
            return None;
        },
    };
    if is_special_mac_address(&mac) {
        return None;
    }
    Some(
        FilteredNeighborEntry { dev: parts[dev_at + 1].clone(), mac, ip: parts[0].clone(), state },
    )
}

/// The neighbors that lines of the IPv6 neighbor list name.
pub open spec fn ipv6_neighbors(lines: Seq<Seq<char>>, watched: Seq<Seq<char>>) -> Seq<NeighborModel>
    decreases lines.len(),
{
    if lines.len() == 0 {
        Seq::empty()
    } else {
        let before = ipv6_neighbors(lines.drop_last(), watched);
        match ipv6_neighbor(lines.last(), watched) {
            Some(n) => before.push(n),
            None => before,
        }
    }
}

/// All lines but the first.
pub open spec fn behind_header(lines: Seq<Seq<char>>) -> Seq<Seq<char>> {
    if lines.len() == 0 {
        lines
    } else {
        lines.drop_first()
    }
}

/// The neighbors on watched interfaces: those of the ARP table, whose first line is
/// a header, and behind them those of the IPv6 neighbor list.
pub open spec fn neighbors_of(
    arp: Option<Seq<char>>,
    neigh: Option<Seq<u8>>,
    watched: Seq<Seq<char>>,
    subnets: Map<Seq<char>, Seq<Seq<char>>>,
) -> Seq<NeighborModel> {
    let v4 = match arp {
        Some(text) => arp_neighbors(behind_header(line_seq(text)), watched, subnets),
        None => Seq::empty(),
    };
    match neigh {
        Some(bytes) => v4 + ipv6_neighbors(line_seq(utf8_lossy(bytes)), watched),
        None => v4,
    }
}

/// The bytes of an optional list.
pub open spec fn bytes_opt(b: Option<&[u8]>) -> Option<Seq<u8>> {
    match b {
        Some(x) => Some(x@),
        None => None,
    }
}

/// The neighbors on watched interfaces. `arp` is the text of the ARP table and
/// `neigh` is what the IPv6 neighbor list was printed as, as far as they could be
/// had.
pub fn list_neighbors_filtered(
    monitor_devs: &Vec<String>,
    subnet_map: &Table<String, Vec<String>>,
    arp: Option<&str>,
    neigh: Option<&[u8]>,
) -> (r: Vec<FilteredNeighborEntry>)
    requires
        subnet_map.wf(),
    ensures
        neighbor_views(r@) == neighbors_of(
            crate::history::str_view(arp),
            bytes_opt(neigh),
            views(monitor_devs@),
            texts_by(subnet_map@),
        ),
{
    let mut entries: Vec<FilteredNeighborEntry> = Vec::new();
    let ghost watched = views(monitor_devs@);
    assert(neighbor_views(entries@) =~= Seq::empty());
    if let Some(text) = arp {
        let all = lines(text);
        let ghost ls = behind_header(line_seq(text@));
        let mut i: usize = 1;
        assert(ls.take(0) =~= Seq::empty());
        while i < all.len()
            invariant
                1 <= i,
                all@.len() > 0 ==> i <= all@.len(),
                views(all@) == line_seq(text@),
                ls == behind_header(line_seq(text@)),
                watched == views(monitor_devs@),
                subnet_map.wf(),
                i <= ls.len() + 1,
                neighbor_views(entries@) == arp_neighbors(
                    ls.take(i - 1),
                    watched,
                    texts_by(subnet_map@),
                ),
            decreases all@.len() - i,
        {
            assert(ls.take(i as int).drop_last() =~= ls.take(i - 1));
            assert(ls.take(i as int).last() == views(all@)[i as int]);
            if let Some(n) = read_arp_line(all[i].as_str(), monitor_devs, subnet_map) {
                let ghost before = neighbor_views(entries@);
                let ghost nv = n@;
                entries.push(n);
                assert(neighbor_views(entries@) =~= before.push(nv));
            }
            i += 1;
        }
        assert(ls.take(i - 1) =~= ls);
    }
    let ghost v4 = neighbor_views(entries@);
    if let Some(bytes) = neigh {
        let content = text_from_utf8_lossy(bytes);
        let all = lines(content.as_str());
        let ghost ls = line_seq(content@);
        let mut i: usize = 0;
        assert(v4 + ipv6_neighbors(ls.take(0), watched) =~= v4);
        while i < all.len()
            invariant
                i <= all@.len(),
                views(all@) == ls,
                watched == views(monitor_devs@),
                neighbor_views(entries@) == v4 + ipv6_neighbors(ls.take(i as int), watched),
            decreases all@.len() - i,
        {
            assert(ls.take(i + 1).drop_last() =~= ls.take(i as int));
            assert(ls.take(i + 1).last() == all@[i as int]@);
            if let Some(n) = read_neigh_line(all[i].as_str(), monitor_devs) {
                let ghost before = neighbor_views(entries@);
                let ghost nv = n@;
                entries.push(n);
                assert(neighbor_views(entries@) =~= before.push(nv));
                assert(before.push(nv) =~= v4 + ipv6_neighbors(ls.take(i as int), watched).push(nv));
            }
            i += 1;
        }
        assert(ls.take(i as int) =~= ls);
    }
    entries
}

/// The first name of a list that no interface has.
pub open spec fn first_missing(names: Seq<Seq<char>>, all: Seq<InterfaceInfo>) -> Option<Seq<char>>
    decreases names.len(),
{
    if names.len() == 0 {
        None
    } else {
        match first_missing(names.drop_last(), all) {
            Some(n) => Some(n),
            None => if exists|i: int| 0 <= i < all.len() && (#[trigger] all[i]).name@ == names.last() {
                None
            } else {
                Some(names.last())
            },
        }
    }
}

fn has_interface(all: &Vec<InterfaceInfo>, name: &str) -> (r: bool)
    ensures
        r == exists|i: int| 0 <= i < all@.len() && (#[trigger] all@[i]).name@ == name@,
{
    let mut i: usize = 0;
    while i < all.len()
        invariant
            i <= all@.len(),
            forall|j: int| 0 <= j < i ==> (#[trigger] all@[j]).name@ != name@,
        decreases all@.len() - i,
    {
        if text_eq(all[i].name.as_str(), name) {
            return true;
        }
        i += 1;
    }
    false
}

/// Whether all named interfaces exist; the error is the first name that does not.
pub fn check_interface_exist(iface: &Vec<String>, all: &Vec<InterfaceInfo>) -> (r: Result<(), String>)
    ensures
        match r {
            Ok(_) => first_missing(views(iface@), all@) is None,
            Err(name) => first_missing(views(iface@), all@) == Some(name@),
        },
{
    let ghost names = views(iface@);
    let mut i: usize = 0;
    assert(names.take(0) =~= Seq::empty());
    while i < iface.len()
        invariant
            i <= iface@.len(),
            names == views(iface@),
            first_missing(names.take(i as int), all@) is None,
        decreases iface@.len() - i,
    {
        assert(names.take(i + 1).drop_last() =~= names.take(i as int));
        assert(names.take(i + 1).last() == iface@[i as int]@);
        if !has_interface(all, iface[i].as_str()) {
            proof {
                lemma_missing_stays(names, all@, i + 1);
            }
            return Err(iface[i].clone());
        }
        i += 1;
    }
    assert(names.take(i as int) =~= names);
    Ok(())
}

proof fn lemma_missing_stays(names: Seq<Seq<char>>, all: Seq<InterfaceInfo>, i: int)
    requires
        0 <= i <= names.len(),
        first_missing(names.take(i), all) is Some,
    ensures
        first_missing(names, all) == first_missing(names.take(i), all),
    decreases names.len() - i,
{
    if i == names.len() {
        assert(names.take(i) =~= names);
    } else {
        assert(names.take(i + 1).drop_last() =~= names.take(i));
        lemma_missing_stays(names, all, i + 1);
    }
}

/// Whether a character is a hexadecimal digit.
pub open spec fn is_hex_digit(c: char) -> bool {
    ('0' <= c && c <= '9') || ('a' <= c && c <= 'f') || ('A' <= c && c <= 'F')
}

/// An address with its hexadecimal digits hidden, but for the first four and the
/// last four characters of one that is longer than eight.
pub open spec fn hidden(s: Seq<char>) -> Seq<char> {
    Seq::new(
        s.len(),
        |i: int|
            if s.len() > 8 && (i < 4 || i >= s.len() - 4) {
                s[i]
            } else if is_hex_digit(s[i]) {
                '*'
            } else {
                s[i]
            },
    )
}

fn redact_ipv6_addr_part_keep_edge_chars(addr_part: &str) -> (r: String)
    ensures
        r@ == hidden(addr_part@),
{
    let cs = chars_of(addr_part);
    let n = cs.len();
    let mut out: Vec<char> = Vec::new();
    let mut i: usize = 0;
    while i < n
        invariant
            i <= n,
            n == cs@.len(),
            cs@ == addr_part@,
            out@ == hidden(addr_part@).take(i as int),
        decreases n - i,
    {
        let c = cs[i];
        let hex = ('0' <= c && c <= '9') || ('a' <= c && c <= 'f') || ('A' <= c && c <= 'F');
        let edge = n > 8 && (i < 4 || i >= n - 4);
        out.push(
            if edge {
                c
            } else if hex {
                '*'
            } else {
                c
            },
        );
        assert(hidden(addr_part@).take(i + 1) =~= hidden(addr_part@).take(i as int).push(
            hidden(addr_part@)[i as int],
        ));
        i += 1;
    }
    assert(hidden(addr_part@).take(i as int) =~= hidden(addr_part@));
    text_of(&out)
}

/// An IPv6 network as it is logged: its address with the middle hidden, its scope
/// and its prefix length as they are.
pub open spec fn redacted(cidr: Seq<char>) -> Seq<char> {
    let (before, slash) = match cut(trimmed(cidr), '/') {
        Some((a, p)) => (a, seq!['/'] + trimmed(p)),
        None => (trimmed(cidr), Seq::empty()),
    };
    let (addr, scope) = match cut(before, '%') {
        Some((a, z)) => (a, seq!['%'] + z),
        None => (before, Seq::empty()),
    };
    hidden(addr) + scope + slash
}

/// An IPv6 network as it is logged.
pub fn redact_ipv6_cidr_for_log(cidr: &str) -> (r: String)
    ensures
        r@ == redacted(cidr@),
{
    let whole = trim(cidr);
    let (before, slash) = match split_once(whole.as_str(), '/') {
        Some((a, p)) => {
            let mut s = String::new();
            s.push('/');
            s.push_str(trim(p.as_str()).as_str());
            assert(s@ =~= seq!['/'] + trimmed(p@));
            (a, s)
        },
        None => (whole, String::new()),
    };
    let (addr, scope) = match split_once(before.as_str(), '%') {
        Some((a, z)) => {
            let mut s = String::new();
            s.push('%');
            s.push_str(z.as_str());
            assert(s@ =~= seq!['%'] + z@);
            (a, s)
        },
        None => (before, String::new()),
    };
    let mut out = redact_ipv6_addr_part_keep_edge_chars(addr.as_str());
    out.push_str(scope.as_str());
    out.push_str(slash.as_str());
    assert(out@ =~= redacted(cidr@));
    out
}

/// Hiding an address twice is hiding it once.
pub proof fn law_hiding_is_idempotent(s: Seq<char>)
    ensures
        hidden(hidden(s)) == hidden(s),
{
    assert(hidden(hidden(s)) =~= hidden(s));
}

} // verus!
