//! What becomes of a frame, told by its bytes.
use crate::counting::{
    dns_event, ecm_added, ecm_key, ecm_step, packet_step, stands_at, DnsPacketEvent, PacketCounters,
};
use crate::keys::{EcmTrafficKey, TrafficValue};
use crate::packet::{
    dns_message_start, dns_packet, transport, v6_walk, vlan_walk, Frame, MetaModel,
};
use crate::table::Table;
use vstd::prelude::*;

verus! {

/// How a frame carries an IP packet: behind so many VLAN tags, and in a PPPoE session or
/// not, in the version.
#[derive(Clone, Copy, Debug, PartialEq, Eq, Structural)]
pub struct Framing {
    pub tags: u8,
    pub pppoe: bool,
    pub v6: bool,
}

impl Framing {
    /// Where the IP packet starts.
    pub open spec fn start(self) -> int {
        14 + 4 * self.tags + if self.pppoe {
            8int
        } else {
            0
        }
    }

    /// The number of the IP version.
    pub open spec fn version(self) -> u8 {
        if self.v6 {
            6
        } else {
            4
        }
    }

    /// Whether a frame is framed so: its type is that of a VLAN tag (0x8100 or 0x88A8)
    /// for each tag, then 0x0800 or 0x86DD, or 0x8864 with 0x0021 or 0x0057 as the
    /// protocol of the session.
    pub open spec fn frames(self, f: Frame) -> bool {
        let b = f.bytes@;
        let at = 12 + 4 * self.tags;
        &&& self.tags <= 2
        &&& self.start() <= f.linear
        &&& self.tags >= 1 ==> (b[12] == 0x81 && b[13] == 0x00) || (b[12] == 0x88 && b[13] == 0xA8)
        &&& self.tags >= 2 ==> (b[16] == 0x81 && b[17] == 0x00) || (b[16] == 0x88 && b[17] == 0xA8)
        &&& if self.pppoe {
            &&& b[at] == 0x88 && b[at + 1] == 0x64
            &&& b[at + 8] == 0x00 && b[at + 9] == if self.v6 {
                0x57u8
            } else {
                0x21u8
            }
        } else if self.v6 {
            b[at] == 0x86 && b[at + 1] == 0xDD
        } else {
            b[at] == 0x08 && b[at + 1] == 0x00
        }
    }
}

/// The number that four bytes make.
pub open spec fn word(b: Seq<u8>, at: int) -> int {
    b[at] * 0x100_0000 + b[at + 1] * 0x1_0000 + b[at + 2] * 0x100 + b[at + 3]
}

/// Where the address of the router's side stands in an IP packet: the destination of a
/// packet that comes in, the source of one that leaves.
pub open spec fn near_address(at: int, v6: bool, direction: u8) -> int {
    if v6 {
        if direction == 1 {
            at + 24
        } else {
            at + 8
        }
    } else if direction == 1 {
        at + 16
    } else {
        at + 12
    }
}

/// Where the port of the router's side stands in a TCP segment.
pub open spec fn near_port(b: Seq<u8>, at: int, v6: bool, direction: u8) -> int {
    let tcp = if v6 {
        at + 40
    } else {
        at + 4 * (b[at] % 16)
    };
    if direction == 1 {
        tcp + 2
    } else {
        tcp
    }
}

/// Whether an IP packet is surely not the router's own management: it is not TCP, or the
/// port or the address on the router's side is none of those of the management.
pub open spec fn is_others(
    c: PacketCounters,
    b: Seq<u8>,
    at: int,
    v6: bool,
    direction: u8,
) -> bool {
    let port = near_port(b, at, v6, direction);
    let address = near_address(at, v6, direction);
    ||| b[at + if v6 {
        6int
    } else {
        9
    }] != 6
    ||| forall|p: u16| #[trigger]
        c.management_ports@.dom().contains(p) ==> p != b[port] * 256 + b[port + 1]
    ||| forall|k: (Seq<u32>, u8, Seq<u8>)| #[trigger]
        c.router_local_ips@.dom().contains(k) ==> if v6 {
            k.1 != 6 || k.0[0] != word(b, address) || k.0[1] != word(b, address + 4) || k.0[2]
                != word(b, address + 8) || k.0[3] != word(b, address + 12)
        } else {
            k.1 != 4 || k.0[0] != word(b, address)
        }
}

/// Whether counters after a packet are those before with the packet counted under a key,
/// as long as there is room for the key; all others are as they were.
pub open spec fn counted<KV>(
    before: Map<KV, TrafficValue>,
    after: Map<KV, TrafficValue>,
    key: KV,
    room: bool,
    bytes: int,
) -> bool {
    let old_value = stands_at(before, key);
    let new_value = stands_at(after, key);
    &&& forall|k: KV| k != key ==> #[trigger] stands_at(after, k) == stands_at(before, k)
    &&& if before.dom().contains(key) || room {
        &&& new_value.packets == if old_value.packets + 1 > u64::MAX {
            u64::MAX as int
        } else {
            old_value.packets + 1
        }
        &&& new_value.bytes == if old_value.bytes + bytes > u64::MAX {
            u64::MAX as int
        } else {
            old_value.bytes + bytes
        }
    } else {
        new_value == old_value
    }
}

/// The hardware address of the client of a frame: the source of one that comes in, the
/// destination of one that leaves. A frame that comes in for a group counts for the group.
pub open spec fn client(b: Seq<u8>, direction: u8) -> Seq<u8> {
    if direction == 1 && b[0] % 2 == 0 {
        seq![b[6], b[7], b[8], b[9], b[10], b[11]]
    } else {
        seq![b[0], b[1], b[2], b[3], b[4], b[5]]
    }
}

proof fn lemma_framing(f: Frame, w: Framing)
    requires
        f.valid(),
        w.frames(f),
    ensures
        ({
            let (proto, off) = vlan_walk(f, f.u16_at(12), 14, 2);
            &&& off == 14 + 4 * w.tags
            &&& proto == if w.pppoe {
                0x8864int
            } else if w.v6 {
                0x86DD
            } else {
                0x0800
            }
        }),
{
    reveal_with_fuel(vlan_walk, 3);
}

/// A frame that carries an IP packet counts for its interface, and for its client where
/// the interface's devices are counted: one packet and all bytes of the frame, as IPv6
/// where its type says 0x86DD, as IPv4 where it says 0x0800, in its direction. Nothing
/// else moves. The router's own management is not counted.
#[verifier::spinoff_prover]
#[verifier::rlimit(40)]
pub proof fn law_frame_counts_by_its_type(
    before: PacketCounters,
    after: PacketCounters,
    f: Frame,
    w: Framing,
    ifindex: u32,
    direction: u8,
    now_ns: u64,
    dns: Option<DnsPacketEvent>,
)
    requires
        before.wf(),
        f.valid(),
        w.frames(f),
        is_others(before, f.bytes@, w.start(), w.v6, direction),
        packet_step(before, after, f, ifindex, direction, now_ns, dns),
    ensures
        counted(
            before.iface_traffic@,
            after.iface_traffic@,
            (ifindex, w.version(), direction, seq![0u8, 0u8]),
            before.iface_traffic.entries@.len() < 256,
            f.bytes@.len() as int,
        ),
        before.track_devices@.dom().contains(ifindex) && before.track_devices@[ifindex] == 1
            ==> counted(
            before.device_traffic@,
            after.device_traffic@,
            (ifindex, client(f.bytes@, direction), w.version(), direction),
            before.device_traffic.entries@.len() < 8192,
            f.bytes@.len() as int,
        ),
        !(before.track_devices@.dom().contains(ifindex) && before.track_devices@[ifindex] == 1)
            ==> after.device_traffic@ == before.device_traffic@,
        after.ecm_traffic@ == before.ecm_traffic@,
        after.router_local_ips@ == before.router_local_ips@,
        after.management_ports@ == before.management_ports@,
        after.track_devices@ == before.track_devices@,
{
    lemma_framing(f, w);
    let b = f.bytes@;
    if direction == 1 && b[0] % 2 == 0 {
        assert(b.subrange(6, 12) =~= client(b, direction));
    } else {
        assert(b.subrange(0, 6) =~= client(b, direction));
    }
}

/// A frame of the router's own management changes nothing: a TCP segment, no later
/// fragment, whose port on the router's side is a management port and whose address there
/// is one of the router's.
pub proof fn law_management_frame_changes_nothing(
    before: PacketCounters,
    after: PacketCounters,
    f: Frame,
    w: Framing,
    ifindex: u32,
    direction: u8,
    now_ns: u64,
    dns: Option<DnsPacketEvent>,
)
    requires
        f.valid(),
        w.frames(f),
        packet_step(before, after, f, ifindex, direction, now_ns, dns),
        ({
            let b = f.bytes@;
            let at = w.start();
            let header = if w.v6 {
                40int
            } else {
                4 * (b[at] % 16)
            };
            let port = near_port(b, at, w.v6, direction);
            let address = near_address(at, w.v6, direction);
            &&& at + header + 20 <= f.linear
            &&& w.v6 ==> b[at + 6] == 6
            &&& !w.v6 ==> b[at + 9] == 6 && header >= 20 && b[at + 6] % 0x20 == 0 && b[at + 7] == 0
            &&& before.management_ports@.dom().contains((b[port] * 256 + b[port + 1]) as u16)
            &&& before.router_local_ips@.dom().contains(
                if w.v6 {
                    (
                        seq![
                            word(b, address) as u32,
                            word(b, address + 4) as u32,
                            word(b, address + 8) as u32,
                            word(b, address + 12) as u32,
                        ],
                        6u8,
                        seq![0u8, 0u8, 0u8],
                    )
                } else {
                    (
                        seq![word(b, address) as u32, 0u32, 0u32, 0u32],
                        4u8,
                        seq![0u8, 0u8, 0u8],
                    )
                },
            )
        }),
    ensures
        after == before,
        dns is None,
{
    lemma_framing(f, w);
    let b = f.bytes@;
    let at = w.start();
    let address = near_address(at, w.v6, direction);
    assert(f.u32_at(address) == word(b, address));
    assert(f.u32_at(address + 4) == word(b, address + 4));
    assert(f.u32_at(address + 8) == word(b, address + 8));
    assert(f.u32_at(address + 12) == word(b, address + 12));
    if !w.v6 {
        assert((b[at + 6] * 256 + b[at + 7]) % 0x2000 == 0);
    }
}

/// A bare IP packet, as tunnels carry them, counts for its interface in the version of its
/// first four bits, and for no device.
pub proof fn law_bare_packet_counts_by_its_version(
    before: PacketCounters,
    after: PacketCounters,
    f: Frame,
    ifindex: u32,
    direction: u8,
    now_ns: u64,
    dns: Option<DnsPacketEvent>,
)
    requires
        before.wf(),
        f.valid(),
        f.linear >= 2,
        f.bytes@[0] / 16 == 4 || f.bytes@[0] / 16 == 6,
        f.linear < 14 || !(seq![0x0800int, 0x86DD, 0x8864, 0x8100, 0x88A8].contains(
            f.bytes@[12] * 256 + f.bytes@[13],
        )),
        is_others(before, f.bytes@, 0, f.bytes@[0] / 16 == 6, direction),
        packet_step(before, after, f, ifindex, direction, now_ns, dns),
    ensures
        counted(
            before.iface_traffic@,
            after.iface_traffic@,
            (ifindex, f.bytes@[0] / 16, direction, seq![0u8, 0u8]),
            before.iface_traffic.entries@.len() < 256,
            f.bytes@.len() as int,
        ),
        after.device_traffic@ == before.device_traffic@,
{
    let list = seq![0x0800int, 0x86DD, 0x8864, 0x8100, 0x88A8];
    assert(list[0] == 0x0800 && list[1] == 0x86DD && list[2] == 0x8864 && list[3] == 0x8100
        && list[4] == 0x88A8);
    reveal_with_fuel(vlan_walk, 3);
}

/// Where the transport segment of an IP packet without extension headers starts.
pub open spec fn segment(b: Seq<u8>, at: int, v6: bool) -> int {
    if v6 {
        at + 40
    } else {
        at + 4 * (b[at] % 16)
    }
}

/// Where an IP packet ends by its own account.
pub open spec fn packet_end(b: Seq<u8>, at: int, v6: bool) -> int {
    if v6 {
        at + 40 + b[at + 4] * 256 + b[at + 5]
    } else {
        at + b[at + 2] * 256 + b[at + 3]
    }
}

/// Whether an IP packet holds a whole segment of UDP, or of TCP, and is no fragment.
pub open spec fn holds_segment(b: Seq<u8>, at: int, v6: bool, tcp: bool) -> bool {
    let protocol = if tcp {
        6u8
    } else {
        17u8
    };
    &&& packet_end(b, at, v6) <= b.len()
    &&& if v6 {
        b[at] / 16 == 6 && b[at + 6] == protocol
    } else {
        &&& b[at] / 16 == 4 && b[at] % 16 >= 5 && b[at + 9] == protocol
        &&& b[at + 6] % 0x40 == 0 && b[at + 7] == 0
        &&& segment(b, at, v6) <= packet_end(b, at, v6)
    }
}

/// Where the DNS message of a segment starts.
pub open spec fn dns_start(b: Seq<u8>, seg: int, tcp: bool) -> int {
    if tcp {
        seg + 4 * (b[seg + 12] / 16) + 2
    } else {
        seg + 8
    }
}

/// The length of the DNS message of a segment.
pub open spec fn dns_len(b: Seq<u8>, seg: int, tcp: bool) -> int {
    if tcp {
        b[dns_start(b, seg, tcp) - 2] * 256 + b[dns_start(b, seg, tcp) - 1]
    } else {
        b[seg + 4] * 256 + b[seg + 5] - 8
    }
}

proof fn lemma_segment(f: Frame, at: int, v6: bool, tcp: bool)
    requires
        f.valid(),
        0 <= at,
        holds_segment(f.bytes@, at, v6, tcp),
        segment(f.bytes@, at, v6) + (if tcp {
            20int
        } else {
            8
        }) <= f.linear,
    ensures
        transport(
            f,
            at,
            if v6 {
                6u8
            } else {
                4u8
            },
            f.bytes@.len() as int,
        ) == Some(
            (
                if tcp {
                    6int
                } else {
                    17int
                },
                segment(f.bytes@, at, v6),
                packet_end(f.bytes@, at, v6),
            ),
        ),
{
    let b = f.bytes@;
    if v6 {
        reveal_with_fuel(v6_walk, 2);
    } else {
        assert((b[at + 6] * 256 + b[at + 7]) % 0x4000 == 0);
    }
}

/// Whether a segment goes to or comes from port 53 and holds a whole DNS message of at
/// least its header, with one to sixteen questions.
pub open spec fn carries_message(b: Seq<u8>, seg: int, end: int, tcp: bool) -> bool {
    let d = dns_start(b, seg, tcp);
    &&& (b[seg] == 0 && b[seg + 1] == 53) || (b[seg + 2] == 0 && b[seg + 3] == 53)
    &&& tcp ==> b[seg + 12] / 16 >= 5 && d <= end
    &&& dns_len(b, seg, tcp) >= 12
    &&& d + dns_len(b, seg, tcp) <= end
    &&& 0 < b[d + 4] * 256 + b[d + 5] <= 16
    &&& (b[d + 2] / 8) % 16 <= 5
}

#[verifier::spinoff_prover]
#[verifier::rlimit(40)]
proof fn lemma_carries(f: Frame, at: int, v6: bool, tcp: bool)
    requires
        f.valid(),
        0 <= at,
        holds_segment(f.bytes@, at, v6, tcp),
        segment(f.bytes@, at, v6) + (if tcp {
            20int
        } else {
            8
        }) <= f.linear,
    ensures
        dns_packet(
            f,
            at,
            if v6 {
                6u8
            } else {
                4u8
            },
            f.bytes@.len() as int,
        ) == carries_message(
            f.bytes@,
            segment(f.bytes@, at, v6),
            packet_end(f.bytes@, at, v6),
            tcp,
        ),
{
    lemma_segment(f, at, v6, tcp);
    let b = f.bytes@;
    let seg = segment(b, at, v6);
    let end = packet_end(b, at, v6);
    let d = dns_start(b, seg, tcp);
    assert(end <= b.len());
    assert((b[seg + 12] * 256 + b[seg + 13]) / 4096 == b[seg + 12] / 16);
    assert((b[d + 2] * 256 + b[d + 3]) / 2048 == b[d + 2] / 8);
    let p = if tcp {
        6int
    } else {
        17
    };
    assert(f.u16_at(seg) == 53 <==> b[seg] == 0 && b[seg + 1] == 53);
    assert(f.u16_at(seg + 2) == 53 <==> b[seg + 2] == 0 && b[seg + 3] == 53);
    if let Some(x) = dns_message_start(f, p, seg, end) {
        assert(x == d);
    }
}

proof fn lemma_meta(c: PacketCounters, f: Frame, w: Framing, direction: u8)
    requires
        f.valid(),
        w.frames(f),
        is_others(c, f.bytes@, w.start(), w.v6, direction),
    ensures
        c.meta(f, direction) == Some(
            MetaModel {
                ip_version: w.version(),
                mac: Some(client(f.bytes@, direction)),
                ip_offset: w.start(),
            },
        ),
{
    lemma_framing(f, w);
    let b = f.bytes@;
    if direction == 1 && b[0] % 2 == 0 {
        assert(b.subrange(6, 12) =~= client(b, direction));
    } else {
        assert(b.subrange(0, 6) =~= client(b, direction));
    }
}

proof fn lemma_captured(
    f: Frame,
    ifindex: u32,
    direction: u8,
    meta: MetaModel,
    now_ns: u64,
    e: Option<DnsPacketEvent>,
    carries: bool,
)
    requires
        0 < f.bytes@.len() <= 1600,
        dns_event(f, ifindex, direction, meta, now_ns, e),
        dns_packet(f, meta.ip_offset, meta.ip_version, f.bytes@.len() as int) == carries,
        meta.mac is Some,
    ensures
        e is Some <==> carries,
        e matches Some(e) ==> {
            &&& e.packet@ == f.bytes@
            &&& e.header.timestamp_ns == now_ns
            &&& e.header.ifindex == ifindex
            &&& e.header.captured_len == f.bytes@.len()
            &&& e.header.ip_offset == meta.ip_offset
            &&& e.header.ip_version == meta.ip_version
            &&& e.header.direction == direction
            &&& e.header.has_mac == 1
            &&& e.header.mac@ == meta.mac->0
        },
{
}

/// A frame that goes to or comes from port 53 and holds a whole DNS message with one to
/// sixteen questions is captured as it is, with its interface, its direction and its
/// client; a frame between other ports is not.
#[verifier::spinoff_prover]
#[verifier::rlimit(40)]
pub proof fn law_dns_frame_is_captured(
    before: PacketCounters,
    after: PacketCounters,
    f: Frame,
    w: Framing,
    tcp: bool,
    ifindex: u32,
    direction: u8,
    now_ns: u64,
    dns: Option<DnsPacketEvent>,
)
    requires
        before.wf(),
        before.dns_enabled,
        f.valid(),
        f.bytes@.len() <= 1600,
        w.frames(f),
        is_others(before, f.bytes@, w.start(), w.v6, direction),
        packet_step(before, after, f, ifindex, direction, now_ns, dns),
        holds_segment(f.bytes@, w.start(), w.v6, tcp),
        segment(f.bytes@, w.start(), w.v6) + (if tcp {
            20int
        } else {
            8
        }) <= f.linear,
    ensures
        ({
            let b = f.bytes@;
            let seg = segment(b, w.start(), w.v6);
            let end = packet_end(b, w.start(), w.v6);
            &&& dns is Some <==> carries_message(b, seg, end, tcp)
            &&& dns matches Some(e) ==> {
                &&& e.packet@ == b
                &&& e.header.timestamp_ns == now_ns
                &&& e.header.ifindex == ifindex
                &&& e.header.captured_len == b.len()
                &&& e.header.ip_offset == w.start()
                &&& e.header.ip_version == w.version()
                &&& e.header.direction == direction
                &&& e.header.has_mac == 1
                &&& e.header.mac@ == client(b, direction)
            }
        }),
{
    lemma_meta(before, f, w, direction);
    lemma_carries(f, w.start(), w.v6, tcp);
    lemma_captured(
        f,
        ifindex,
        direction,
        before.meta(f, direction)->0,
        now_ns,
        dns,
        carries_message(
            f.bytes@,
            segment(f.bytes@, w.start(), w.v6),
            packet_end(f.bytes@, w.start(), w.v6),
            tcp,
        ),
    );
}

/// A report of the offload engine counts what was sent under the outgoing direction and
/// what was received under the incoming one, each where there are bytes, and moves
/// nothing else. The counters wrap around.
pub proof fn law_offload_report_counts_both_ways(
    before: PacketCounters,
    after: PacketCounters,
    ip: Seq<u32>,
    ip_version: u8,
    tx_bytes: u64,
    rx_bytes: u64,
    tx_pkts: u64,
    rx_pkts: u64,
)
    requires
        before.wf(),
        before.ecm_traffic.entries@.len() + 2 <= 16384,
        ecm_step(before, after, ip, ip_version, tx_bytes, rx_bytes, tx_pkts, rx_pkts),
    ensures
        ({
            let sent = (ip, ip_version, 2u8, seq![0u8, 0u8]);
            let received = (ip, ip_version, 1u8, seq![0u8, 0u8]);
            let m = before.ecm_traffic@;
            let n = after.ecm_traffic@;
            let gains = |k: (Seq<u32>, u8, u8, Seq<u8>), bytes: u64, packets: u64|
                {
                    &&& stands_at(n, k).bytes == (stands_at(m, k).bytes + bytes)
                        % 0x1_0000_0000_0000_0000
                    &&& stands_at(n, k).packets == if bytes == 0 {
                        stands_at(m, k).packets as int
                    } else {
                        (stands_at(m, k).packets + packets) % 0x1_0000_0000_0000_0000
                    }
                };
            &&& gains(sent, tx_bytes, tx_pkts)
            &&& gains(received, rx_bytes, rx_pkts)
            &&& forall|k: (Seq<u32>, u8, u8, Seq<u8>)|
                k != sent && k != received ==> #[trigger] stands_at(n, k) == stands_at(m, k)
        }),
        after.iface_traffic@ == before.iface_traffic@,
        after.device_traffic@ == before.device_traffic@,
{
    let sent = ecm_key(ip, ip_version, 2);
    let mid = choose|mid: Table<EcmTrafficKey, TrafficValue>| #[trigger]
        mid.wf() && mid@ == ecm_added(
            before.ecm_traffic,
            sent,
            tx_pkts,
            tx_bytes,
        ) && after.ecm_traffic@ == ecm_added(
            mid,
            ecm_key(ip, ip_version, 1),
            rx_pkts,
            rx_bytes,
        );
    mid.lemma_len();
    before.ecm_traffic.lemma_len();
    assert(mid.entries@.len() <= before.ecm_traffic.entries@.len() + 1);
}

} // verus!
