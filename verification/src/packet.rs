//! The packet path: which packets are counted, under which keys, and which
//! carry a DNS message.
use crate::keys::RouterIpKey;
use crate::table::Table;
use vstd::prelude::*;

verus! {

pub const ETH_P_IP: u16 = 0x0800;
pub const ETH_P_IPV6: u16 = 0x86DD;
pub const ETH_P_PPP_SES: u16 = 0x8864;
pub const ETH_P_8021Q: u16 = 0x8100;
pub const ETH_P_8021AD: u16 = 0x88A8;
pub const PPP_PROTO_IP: u16 = 0x0021;
pub const PPP_PROTO_IPV6: u16 = 0x0057;
pub const IPPROTO_TCP: u8 = 6;
pub const IPPROTO_UDP: u8 = 17;
pub const DNS_PORT: u16 = 53;
pub const IFACE_MAX_ENTRIES: u32 = 256;
pub const ECM_MAX_ENTRIES: u32 = 16384;

/// The verdict that leaves a packet to the next filter.
pub const TC_ACT_UNSPEC: i32 = -1;

/// A packet in a socket buffer. Its first `linear` bytes can be read in place;
/// the rest only by copying.
pub struct Frame {
    pub bytes: Vec<u8>,
    pub linear: usize,
}

/// The big-endian number of two bytes.
pub open spec fn be16(s: Seq<u8>, i: int) -> int {
    s[i] * 256 + s[i + 1]
}

/// The big-endian number of four bytes.
pub open spec fn be32(s: Seq<u8>, i: int) -> int {
    be16(s, i) * 65536 + be16(s, i + 2)
}

impl Frame {
    pub open spec fn valid(self) -> bool {
        self.linear <= self.bytes@.len() <= 0x7fff_ffff
    }

    /// Whether `n` bytes at `off` can be read in place.
    pub open spec fn reach(self, off: int, n: int) -> bool {
        off + n <= self.linear
    }

    /// Whether `n` bytes at `off` belong to the packet.
    pub open spec fn holds(self, off: int, n: int) -> bool {
        off + n <= self.bytes@.len()
    }

    pub open spec fn u8_at(self, off: int) -> int {
        self.bytes@[off] as int
    }

    pub open spec fn u16_at(self, off: int) -> int {
        be16(self.bytes@, off)
    }

    pub open spec fn u32_at(self, off: int) -> int {
        be32(self.bytes@, off)
    }

    fn can_reach(&self, off: usize, n: usize) -> (r: bool)
        requires
            self.valid(),
        ensures
            r == self.reach(off as int, n as int),
    {
        n <= self.linear && off <= self.linear - n
    }

    fn byte(&self, off: usize) -> (r: u8)
        requires
            off < self.bytes@.len(),
        ensures
            r == self.u8_at(off as int),
    {
        self.bytes[off]
    }

    fn short(&self, off: usize) -> (r: u16)
        requires
            self.valid(),
            off + 2 <= self.bytes@.len(),
        ensures
            r == self.u16_at(off as int),
    {
        (self.bytes[off] as u16) * 256 + self.bytes[off + 1] as u16
    }

    fn word(&self, off: usize) -> (r: u32)
        requires
            self.valid(),
            off + 4 <= self.bytes@.len(),
        ensures
            r == self.u32_at(off as int),
    {
        (self.short(off) as u32) * 65536 + self.short(off + 2) as u32
    }

    fn load_byte(&self, off: usize) -> (r: Option<u8>)
        requires
            self.valid(),
        ensures
            r is Some <==> self.holds(off as int, 1),
            r matches Some(v) ==> v == self.u8_at(off as int),
    {
        if off < self.bytes.len() {
            Some(self.byte(off))
        } else {
            None
        }
    }

    fn mac_at(&self, off: usize) -> (r: [u8; 6])
        requires
            self.valid(),
            off + 6 <= self.bytes@.len(),
        ensures
            r@ == self.bytes@.subrange(off as int, off + 6),
    {
        let r = [
            self.bytes[off],
            self.bytes[off + 1],
            self.bytes[off + 2],
            self.bytes[off + 3],
            self.bytes[off + 4],
            self.bytes[off + 5],
        ];
        assert(r@ =~= self.bytes@.subrange(off as int, off + 6));
        r
    }
}

/// The big-endian number at an offset, where the packet holds it.
fn packet_u16(frame: &Frame, offset: usize) -> (r: Option<u16>)
    requires
        frame.valid(),
    ensures
        r is Some <==> frame.holds(offset as int, 2),
        r matches Some(v) ==> v == frame.u16_at(offset as int),
{
    let n = frame.bytes.len();
    if n >= 2 && offset <= n - 2 {
        Some(frame.short(offset))
    } else {
        None
    }
}

/// What the packet path finds out about a packet that it counts.
#[derive(Clone, Copy, Debug, PartialEq, Eq)]
pub struct PacketMeta {
    pub ip_version: u8,
    pub mac: Option<[u8; 6]>,
    pub ip_offset: u16,
}

/// The packet path's finding, over plain values.
pub struct MetaModel {
    pub ip_version: u8,
    pub mac: Option<Seq<u8>>,
    pub ip_offset: int,
}

impl View for PacketMeta {
    type V = MetaModel;

    open spec fn view(&self) -> MetaModel {
        MetaModel {
            ip_version: self.ip_version,
            mac: match self.mac {
                Some(m) => Some(m@),
                None => None,
            },
            ip_offset: self.ip_offset as int,
        }
    }
}

/// Whether an IP protocol number is one that carries DNS.
pub open spec fn carries_dns(protocol: int) -> bool {
    protocol == IPPROTO_UDP || protocol == IPPROTO_TCP
}

/// Where the transport header of an IPv4 packet starts and where the packet
/// ends: (protocol, start, end). Fragments and packets that the frame does not
/// hold whole have none.
pub open spec fn v4_transport(f: Frame, ip: int, packet_len: int) -> Option<(int, int, int)> {
    let ihl = (f.u8_at(ip) % 16) * 4;
    let total = f.u16_at(ip + 2);
    if f.reach(ip, 20) && f.u8_at(ip) / 16 == 4 && ihl >= 20 && ip + ihl <= packet_len && total
        >= ihl && ip + total <= packet_len && f.u16_at(ip + 6) % 0x4000 == 0 {
        Some((f.u8_at(ip + 9), ip + ihl, ip + total))
    } else {
        None
    }
}

/// The length of an IPv6 extension header of the kind, from its length byte.
pub open spec fn extension_len(protocol: int, length: int) -> Option<int> {
    if protocol == 0 || protocol == 43 || protocol == 60 || protocol == 135 || protocol == 139
        || protocol == 140 {
        Some((length + 1) * 8)
    } else if protocol == 51 {
        Some((length + 2) * 4)
    } else {
        None
    }
}

/// Follows at most `steps` IPv6 extension headers to (protocol, offset).
pub open spec fn v6_walk(f: Frame, protocol: int, off: int, end: int, steps: nat) -> Option<
    (int, int),
>
    decreases steps,
{
    if steps == 0 || carries_dns(protocol) {
        Some((protocol, off))
    } else {
        match extension_len(protocol, f.u8_at(off + 1)) {
            Some(len) => if f.holds(off, 2) && len >= 8 && off + len <= end {
                v6_walk(f, f.u8_at(off), off + len, end, (steps - 1) as nat)
            } else {
                None
            },
            None => None,
        }
    }
}

/// Where the transport header of an IPv6 packet starts and where the packet
/// ends, behind at most six extension headers.
pub open spec fn v6_transport(f: Frame, ip: int, packet_len: int) -> Option<(int, int, int)> {
    let end = ip + 40 + f.u16_at(ip + 4);
    if f.reach(ip, 40) && f.u8_at(ip) / 16 == 6 && ip + 40 <= packet_len && end <= packet_len {
        match v6_walk(f, f.u8_at(ip + 6), ip + 40, end, 6) {
            Some((protocol, off)) => Some((protocol, off, end)),
            None => None,
        }
    } else {
        None
    }
}

/// The transport header and the end of the packet for either version.
pub open spec fn transport(f: Frame, ip: int, ip_version: u8, packet_len: int) -> Option<
    (int, int, int),
> {
    if ip_version == 4 {
        v4_transport(f, ip, packet_len)
    } else if ip_version == 6 {
        v6_transport(f, ip, packet_len)
    } else {
        None
    }
}

/// Whether one of the two ports at the start of a transport header is DNS's.
pub open spec fn dns_ports(f: Frame, off: int) -> bool {
    f.u16_at(off) == DNS_PORT || f.u16_at(off + 2) == DNS_PORT
}

/// Where the DNS message inside a transport segment starts: the segment must
/// hold all of it, and the message at least its own header.
pub open spec fn dns_message_start(f: Frame, protocol: int, off: int, end: int) -> Option<int> {
    if protocol == IPPROTO_UDP {
        let len = f.u16_at(off + 4);
        if f.reach(off, 8) && dns_ports(f, off) && len >= 20 && off + len <= end {
            Some(off + 8)
        } else {
            None
        }
    } else if protocol == IPPROTO_TCP {
        let header = (f.u16_at(off + 12) / 4096) * 4;
        let start = off + header;
        let len = f.u16_at(start);
        if f.reach(off, 20) && dns_ports(f, off) && header >= 20 && start + 2 <= end && f.holds(
            start,
            2,
        ) && len >= 12 && start + 2 + len <= end {
            Some(start + 2)
        } else {
            None
        }
    } else {
        None
    }
}

/// Whether a packet carries one whole DNS message over UDP or TCP: with one to
/// sixteen questions and an operation code of at most five.
pub open spec fn dns_packet(f: Frame, ip: int, ip_version: u8, packet_len: int) -> bool {
    match transport(f, ip, ip_version, packet_len) {
        Some((protocol, off, end)) => match dns_message_start(f, protocol, off, end) {
            Some(dns) => f.holds(dns + 2, 2) && f.holds(dns + 4, 2) && 0 < f.u16_at(dns + 4) <= 16
                && (f.u16_at(dns + 2) / 2048) % 16 <= 5,
            None => false,
        },
        None => false,
    }
}

fn v4_transport_of(frame: &Frame, ip: usize, packet_len: usize) -> (r: Option<(u8, usize, usize)>)
    requires
        frame.valid(),
    ensures
        match r {
            Some((p, off, end)) => v4_transport(*frame, ip as int, packet_len as int) == Some(
                (p as int, off as int, end as int),
            ) && off <= end <= 0x7fff_ffff + 65535,
            None => v4_transport(*frame, ip as int, packet_len as int) is None,
        },
{
    if !frame.can_reach(ip, 20) {
        return None;
    }
    let ihl_ver: u8 = frame.byte(ip);
    let ihl: usize = ((ihl_ver % 16) as usize) * 4;
    if ihl_ver / 16 != 4 || ihl < 20 || ip + ihl > packet_len {
        return None;
    }
    let total: usize = frame.short(ip + 2) as usize;
    if total < ihl || ip + total > packet_len {
        return None;
    }
    if frame.short(ip + 6) % 0x4000 != 0 {
        return None;
    }
    Some((frame.byte(ip + 9), ip + ihl, ip + total))
}

#[verifier::loop_isolation(false)]
fn v6_transport_of(frame: &Frame, ip: usize, packet_len: usize) -> (r: Option<(u8, usize, usize)>)
    requires
        frame.valid(),
    ensures
        match r {
            Some((p, off, end)) => v6_transport(*frame, ip as int, packet_len as int) == Some(
                (p as int, off as int, end as int),
            ) && off <= end <= 0x7fff_ffff + 65535,
            None => v6_transport(*frame, ip as int, packet_len as int) is None,
        },
{
    if !frame.can_reach(ip, 40) {
        return None;
    }
    if frame.byte(ip) / 16 != 6 || ip + 40 > packet_len {
        return None;
    }
    let end: usize = ip + 40 + frame.short(ip + 4) as usize;
    if end > packet_len {
        return None;
    }
    let mut protocol: u8 = frame.byte(ip + 6);
    let mut off: usize = ip + 40;
    let mut step: usize = 0;
    while step < 6 && protocol != IPPROTO_UDP && protocol != IPPROTO_TCP
        invariant
            frame.valid(),
            step <= 6,
            ip + 40 <= off <= end,
            end <= 0x7fff_ffff + 65535,
            v6_walk(*frame, frame.u8_at(ip + 6), ip + 40, end as int, 6) == v6_walk(
                *frame,
                protocol as int,
                off as int,
                end as int,
                (6 - step) as nat,
            ),
        decreases 6 - step,
    {
        let known = protocol == 0 || protocol == 43 || protocol == 60 || protocol == 135
            || protocol == 139 || protocol == 140;
        if !known && protocol != 51 {
            return None;
        }
        let next: u8 = match frame.load_byte(off) {
            Some(b) => b,
            None => {
                return None;
            },
        };
        let length: u8 = match frame.load_byte(off + 1) {
            Some(b) => b,
            None => {
                return None;
            },
        };
        let len: usize = if known {
            (length as usize + 1) * 8
        } else {
            (length as usize + 2) * 4
        };
        if len < 8 || off + len > end {
            return None;
        }
        protocol = next;
        off = off + len;
        step += 1;
    }
    Some((protocol, off, end))
}

fn dns_message_start_of(frame: &Frame, protocol: u8, off: usize, end: usize) -> (r: Option<usize>)
    requires
        frame.valid(),
        off <= 0x7fff_ffff + 65535,
    ensures
        match r {
            Some(start) => dns_message_start(*frame, protocol as int, off as int, end as int)
                == Some(start as int) && start + 12 <= end,
            None => dns_message_start(*frame, protocol as int, off as int, end as int) is None,
        },
{
    if protocol == IPPROTO_UDP {
        if !frame.can_reach(off, 8) {
            return None;
        }
        if frame.short(off) != DNS_PORT && frame.short(off + 2) != DNS_PORT {
            return None;
        }
        let len: usize = frame.short(off + 4) as usize;
        if len < 20 || off + len > end {
            return None;
        }
        Some(off + 8)
    } else if protocol == IPPROTO_TCP {
        if !frame.can_reach(off, 20) {
            return None;
        }
        if frame.short(off) != DNS_PORT && frame.short(off + 2) != DNS_PORT {
            return None;
        }
        let header: usize = ((frame.short(off + 12) / 4096) as usize) * 4;
        let start: usize = off + header;
        if header < 20 || start + 2 > end {
            return None;
        }
        let len: usize = match packet_u16(frame, start) {
            Some(v) => v as usize,
            None => {
                return None;
            },
        };
        // Messages that span several segments are not reassembled.
        if len < 12 || start + 2 + len > end {
            return None;
        }
        Some(start + 2)
    } else {
        None
    }
}

/// Whether the packet carries one whole DNS message.
pub fn is_dns_packet(frame: &Frame, ip_offset: usize, ip_version: u8, packet_len: usize) -> (r: bool)
    requires
        frame.valid(),
    ensures
        r == dns_packet(*frame, ip_offset as int, ip_version, packet_len as int),
{
    let found = if ip_version == 4 {
        v4_transport_of(frame, ip_offset, packet_len)
    } else if ip_version == 6 {
        v6_transport_of(frame, ip_offset, packet_len)
    } else {
        None
    };
    let (protocol, off, end) = match found {
        Some(t) => t,
        None => {
            return false;
        },
    };
    let dns: usize = match dns_message_start_of(frame, protocol, off, end) {
        Some(d) => d,
        None => {
            return false;
        },
    };
    let flags: u16 = match packet_u16(frame, dns + 2) {
        Some(v) => v,
        None => {
            return false;
        },
    };
    let questions: u16 = match packet_u16(frame, dns + 4) {
        Some(v) => v,
        None => {
            return false;
        },
    };
    questions > 0 && questions <= 16 && (flags / 2048) % 16 <= 5
}

/// The IP version that an Ethernet payload announces.
pub open spec fn version_from_eth(f: Frame, proto: int, off: int) -> Option<u8> {
    if proto == ETH_P_IP {
        Some(4u8)
    } else if proto == ETH_P_IPV6 {
        Some(6u8)
    } else if proto == ETH_P_PPP_SES && f.reach(off, 8) {
        version_from_ppp_number(f.u16_at(off + 6))
    } else {
        None
    }
}

/// The IP version behind a PPP protocol number.
pub open spec fn version_from_ppp_number(n: int) -> Option<u8> {
    if n == PPP_PROTO_IP {
        Some(4u8)
    } else if n == PPP_PROTO_IPV6 {
        Some(6u8)
    } else {
        None
    }
}

/// The IP version by the first four bits of a bare IP packet.
pub open spec fn version_from_l3(f: Frame, off: int) -> Option<u8> {
    if f.reach(off, 2) && f.u8_at(off) / 16 == 4 {
        Some(4u8)
    } else if f.reach(off, 2) && f.u8_at(off) / 16 == 6 {
        Some(6u8)
    } else {
        None
    }
}

/// The IP version of a bare PPP packet: by its protocol number, or else by the
/// packet behind that number.
pub open spec fn version_from_ppp(f: Frame) -> Option<u8> {
    if !f.reach(0, 2) {
        None
    } else {
        match version_from_ppp_number(f.u16_at(0)) {
            Some(v) => Some(v),
            None => version_from_l3(f, 2),
        }
    }
}

/// Steps over at most `steps` VLAN headers to (protocol, offset).
pub open spec fn vlan_walk(f: Frame, proto: int, off: int, steps: nat) -> (int, int)
    decreases steps,
{
    if steps > 0 && (proto == ETH_P_8021Q || proto == ETH_P_8021AD) && f.reach(off, 4) {
        vlan_walk(f, f.u16_at(off + 2), off + 4, (steps - 1) as nat)
    } else {
        (proto, off)
    }
}

/// Steps over a PPPoE header, where there is one, to (protocol, offset).
pub open spec fn inside_pppoe(f: Frame, proto: int, off: int) -> Option<(int, int)> {
    if proto != ETH_P_PPP_SES {
        Some((proto, off))
    } else if !f.reach(off, 8) {
        None
    } else if f.u16_at(off + 6) == PPP_PROTO_IP {
        Some((ETH_P_IP as int, off + 8))
    } else if f.u16_at(off + 6) == PPP_PROTO_IPV6 {
        Some((ETH_P_IPV6 as int, off + 8))
    } else {
        None
    }
}

/// The port on the router's side of a TCP segment.
pub open spec fn local_port(f: Frame, tcp: int, direction: u8) -> int {
    if direction == 1 {
        f.u16_at(tcp + 2)
    } else {
        f.u16_at(tcp)
    }
}

/// The IPv4 address at an offset as a key.
pub open spec fn v4_key(f: Frame, off: int) -> (Seq<u32>, u8, Seq<u8>) {
    (seq![f.u32_at(off) as u32, 0u32, 0u32, 0u32], 4u8, seq![0u8, 0u8, 0u8])
}

/// The IPv6 address at an offset as a key.
pub open spec fn v6_key(f: Frame, off: int) -> (Seq<u32>, u8, Seq<u8>) {
    (
        seq![
            f.u32_at(off) as u32,
            f.u32_at(off + 4) as u32,
            f.u32_at(off + 8) as u32,
            f.u32_at(off + 12) as u32,
        ],
        6u8,
        seq![0u8, 0u8, 0u8],
    )
}

/// Whether a packet belongs to the router's own management: a TCP segment, not
/// a later fragment, between a management port and an address of the router.
/// Only the router's endpoint counts, so that traffic with a remote server on
/// the same port is kept.
pub open spec fn management_packet(
    f: Frame,
    direction: u8,
    proto: int,
    off: int,
    ports: Set<u16>,
    addresses: Set<(Seq<u32>, u8, Seq<u8>)>,
) -> bool {
    match inside_pppoe(f, proto, off) {
        Some((p, ip)) => if p == ETH_P_IP {
            let ihl = (f.u8_at(ip) % 16) * 4;
            let tcp = ip + ihl;
            f.reach(ip, 20) && f.u8_at(ip + 9) == 6 && ihl >= 20 && f.u16_at(ip + 6) % 0x2000 == 0
                && f.reach(tcp, 20) && ports.contains(local_port(f, tcp, direction) as u16)
                && addresses.contains(
                v4_key(
                    f,
                    if direction == 1 {
                        ip + 16
                    } else {
                        ip + 12
                    },
                ),
            )
        } else if p == ETH_P_IPV6 {
            let tcp = ip + 40;
            f.reach(ip, 40) && f.u8_at(ip + 6) == 6 && f.reach(tcp, 20) && ports.contains(
                local_port(f, tcp, direction) as u16,
            ) && addresses.contains(
                v6_key(
                    f,
                    if direction == 1 {
                        ip + 24
                    } else {
                        ip + 8
                    },
                ),
            )
        } else {
            false
        },
        None => false,
    }
}

/// The hardware address that a frame is counted under: the client's, or that of
/// a group that an incoming frame is sent to.
pub open spec fn frame_mac(f: Frame, direction: u8) -> Seq<u8> {
    if direction == 1 && f.u8_at(0) % 2 == 0 {
        f.bytes@.subrange(6, 12)
    } else {
        f.bytes@.subrange(0, 6)
    }
}

/// What is found out about a packet: first as an Ethernet frame, then as a bare
/// IP packet, then as a PPP packet. Management traffic is left out.
pub open spec fn packet_meta(
    f: Frame,
    direction: u8,
    ports: Set<u16>,
    addresses: Set<(Seq<u32>, u8, Seq<u8>)>,
) -> Option<MetaModel> {
    let (proto, off) = vlan_walk(f, f.u16_at(12), 14, 2);
    let eth = if f.reach(0, 14) {
        version_from_eth(f, proto, off)
    } else {
        None
    };
    let l3 = version_from_l3(f, 0);
    let ppp = version_from_ppp(f);
    if eth is Some {
        if management_packet(f, direction, proto, off, ports, addresses) {
            None
        } else {
            Some(
                MetaModel {
                    ip_version: eth->0,
                    mac: Some(frame_mac(f, direction)),
                    ip_offset: if proto == ETH_P_PPP_SES {
                        off + 8
                    } else {
                        off
                    },
                },
            )
        }
    } else if l3 is Some {
        if management_packet(f, direction, eth_proto(l3->0), 0, ports, addresses) {
            None
        } else {
            Some(MetaModel { ip_version: l3->0, mac: None, ip_offset: 0 })
        }
    } else if ppp is Some {
        if management_packet(f, direction, eth_proto(ppp->0), 2, ports, addresses) {
            None
        } else {
            Some(MetaModel { ip_version: ppp->0, mac: None, ip_offset: 2 })
        }
    } else {
        None
    }
}

/// The Ethernet protocol number of an IP version.
pub open spec fn eth_proto(ip_version: u8) -> int {
    if ip_version == 4 {
        ETH_P_IP as int
    } else {
        ETH_P_IPV6 as int
    }
}

fn resolve_ip_version_from_eth(frame: &Frame, proto: u16, off: usize) -> (r: Option<u8>)
    requires
        frame.valid(),
        off <= 0x7fff_ffff,
    ensures
        r == version_from_eth(*frame, proto as int, off as int),
{
    if proto == ETH_P_IP {
        Some(4)
    } else if proto == ETH_P_IPV6 {
        Some(6)
    } else if proto == ETH_P_PPP_SES && frame.can_reach(off, 8) {
        let ppp: u16 = frame.short(off + 6);
        if ppp == PPP_PROTO_IP {
            Some(4)
        } else if ppp == PPP_PROTO_IPV6 {
            Some(6)
        } else {
            None
        }
    } else {
        None
    }
}

fn resolve_ip_version_from_l3(frame: &Frame, off: usize) -> (r: Option<u8>)
    requires
        frame.valid(),
    ensures
        r == version_from_l3(*frame, off as int),
{
    if !frame.can_reach(off, 2) {
        return None;
    }
    let version: u8 = frame.byte(off) / 16;
    if version == 4 {
        Some(4)
    } else if version == 6 {
        Some(6)
    } else {
        None
    }
}

fn resolve_ip_version_from_ppp(frame: &Frame) -> (r: Option<u8>)
    requires
        frame.valid(),
    ensures
        r == version_from_ppp(*frame),
{
    if !frame.can_reach(0, 2) {
        return None;
    }
    let proto: u16 = frame.short(0);
    if proto == PPP_PROTO_IP {
        Some(4)
    } else if proto == PPP_PROTO_IPV6 {
        Some(6)
    } else {
        resolve_ip_version_from_l3(frame, 2)
    }
}

/// Whether the router's own port is one of the management ports.
pub fn management_port_matches(
    ports: &Table<u16, u8>,
    source: u16,
    destination: u16,
    direction: u8,
) -> (r: bool)
    requires
        ports.wf(),
    ensures
        r == ports@.dom().contains(
            if direction == 1 {
                destination
            } else {
                source
            },
        ),
{
    let local: u16 = if direction == 1 {
        destination
    } else {
        source
    };
    ports.contains(&local)
}

/// Whether the packet belongs to the router's own management.
pub fn is_management_packet(
    frame: &Frame,
    direction: u8,
    proto: u16,
    off: usize,
    ports: &Table<u16, u8>,
    addresses: &Table<RouterIpKey, u8>,
) -> (r: bool)
    requires
        frame.valid(),
        ports.wf(),
        addresses.wf(),
        off <= 0x7fff_ffff,
    ensures
        r == management_packet(
            *frame,
            direction,
            proto as int,
            off as int,
            ports@.dom(),
            addresses@.dom(),
        ),
{
    let mut proto: u16 = proto;
    let mut ip: usize = off;
    if proto == ETH_P_PPP_SES {
        if !frame.can_reach(ip, 8) {
            return false;
        }
        let ppp: u16 = frame.short(ip + 6);
        if ppp == PPP_PROTO_IP {
            proto = ETH_P_IP;
        } else if ppp == PPP_PROTO_IPV6 {
            proto = ETH_P_IPV6;
        } else {
            return false;
        }
        ip = ip + 8;
    }
    if proto == ETH_P_IP {
        if !frame.can_reach(ip, 20) {
            return false;
        }
        let ihl: usize = ((frame.byte(ip) % 16) as usize) * 4;
        if frame.byte(ip + 9) != 6 || ihl < 20 {
            return false;
        }
        if frame.short(ip + 6) % 0x2000 != 0 {
            return false;
        }
        let tcp: usize = ip + ihl;
        if !frame.can_reach(tcp, 20) {
            return false;
        }
        let source: u16 = frame.short(tcp);
        let destination: u16 = frame.short(tcp + 2);
        if !management_port_matches(ports, source, destination, direction) {
            return false;
        }
        let local: u32 = if direction == 1 {
            frame.word(ip + 16)
        } else {
            frame.word(ip + 12)
        };
        let key = RouterIpKey { ip: [local, 0, 0, 0], ip_version: 4, _pad: [0, 0, 0] };
        proof {
            let at: int = if direction == 1 {
                ip + 16
            } else {
                ip + 12
            };
            assert(key.ip@ =~= v4_key(*frame, at).0);
            assert(key._pad@ =~= seq![0u8, 0u8, 0u8]);
        }
        addresses.contains(&key)
    } else if proto == ETH_P_IPV6 {
        if !frame.can_reach(ip, 40) {
            return false;
        }
        if frame.byte(ip + 6) != 6 {
            return false;
        }
        let tcp: usize = ip + 40;
        if !frame.can_reach(tcp, 20) {
            return false;
        }
        let source: u16 = frame.short(tcp);
        let destination: u16 = frame.short(tcp + 2);
        if !management_port_matches(ports, source, destination, direction) {
            return false;
        }
        let at: usize = if direction == 1 {
            ip + 24
        } else {
            ip + 8
        };
        let key = RouterIpKey {
            ip: [frame.word(at), frame.word(at + 4), frame.word(at + 8), frame.word(at + 12)],
            ip_version: 6,
            _pad: [0, 0, 0],
        };
        assert(key.ip@ =~= v6_key(*frame, at as int).0);
        assert(key._pad@ =~= seq![0u8, 0u8, 0u8]);
        addresses.contains(&key)
    } else {
        false
    }
}

/// Finds out what a packet is counted under.
pub fn resolve_packet_meta(
    frame: &Frame,
    direction: u8,
    ports: &Table<u16, u8>,
    addresses: &Table<RouterIpKey, u8>,
) -> (r: Option<PacketMeta>)
    requires
        frame.valid(),
        ports.wf(),
        addresses.wf(),
    ensures
        match r {
            Some(m) => packet_meta(*frame, direction, ports@.dom(), addresses@.dom()) == Some(m@),
            None => packet_meta(*frame, direction, ports@.dom(), addresses@.dom()) is None,
        },
{
    if frame.can_reach(0, 14) {
        let mut proto: u16 = frame.short(12);
        let mut off: usize = 14;
        let mut step: usize = 0;
        while step < 2 && (proto == ETH_P_8021Q || proto == ETH_P_8021AD) && frame.can_reach(off, 4)
            invariant
                frame.valid(),
                step <= 2,
                off == 14 + 4 * step,
                vlan_walk(*frame, frame.u16_at(12), 14, 2) == vlan_walk(
                    *frame,
                    proto as int,
                    off as int,
                    (2 - step) as nat,
                ),
            decreases 2 - step,
        {
            proto = frame.short(off + 2);
            off = off + 4;
            step += 1;
        }
        assert(vlan_walk(*frame, frame.u16_at(12), 14, 2) == (proto as int, off as int));
        if let Some(ip_version) = resolve_ip_version_from_eth(frame, proto, off) {
            if is_management_packet(frame, direction, proto, off, ports, addresses) {
                return None;
            }
            let mac = if direction == 1 && frame.byte(0) % 2 == 0 {
                frame.mac_at(6)
            } else {
                frame.mac_at(0)
            };
            let ip_offset: usize = if proto == ETH_P_PPP_SES {
                off + 8
            } else {
                off
            };
            return Some(PacketMeta { ip_version, mac: Some(mac), ip_offset: ip_offset as u16 });
        }
    }
    // Interfaces without link-layer headers (ppp, tun, wireguard).
    if let Some(ip_version) = resolve_ip_version_from_l3(frame, 0) {
        let proto: u16 = if ip_version == 4 {
            ETH_P_IP
        } else {
            ETH_P_IPV6
        };
        if is_management_packet(frame, direction, proto, 0, ports, addresses) {
            return None;
        }
        return Some(PacketMeta { ip_version, mac: None, ip_offset: 0 });
    }
    if let Some(ip_version) = resolve_ip_version_from_ppp(frame) {
        let proto: u16 = if ip_version == 4 {
            ETH_P_IP
        } else {
            ETH_P_IPV6
        };
        if is_management_packet(frame, direction, proto, 2, ports, addresses) {
            return None;
        }
        return Some(PacketMeta { ip_version, mac: None, ip_offset: 2 });
    }
    None
}

} // verus!
