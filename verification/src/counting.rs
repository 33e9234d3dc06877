//! The counters that the packet path and the offload engine feed.
use crate::keys::{
    DeviceTrafficKey, DnsPacketHeader, EcmTrafficKey, InterfaceTrafficKey, RouterIpKey,
    TrafficDirection, TrafficValue, DEVICE_TRAFFIC_MAX_ENTRIES, DNS_PACKET_MAX_BYTES,
};
use crate::packet::{
    dns_packet, is_dns_packet, management_packet, packet_meta, resolve_packet_meta,
    version_from_eth, vlan_walk, Frame, MetaModel, PacketMeta, ECM_MAX_ENTRIES,
    IFACE_MAX_ENTRIES, TC_ACT_UNSPEC,
};
use crate::table::{Key, Table};
use vstd::prelude::*;

verus! {

/// The filters and counters of the packet path.
pub struct PacketCounters {
    pub dns_enabled: bool,
    pub router_local_ips: Table<RouterIpKey, u8>,
    pub management_ports: Table<u16, u8>,
    pub track_devices: Table<u32, u8>,
    pub iface_traffic: Table<InterfaceTrafficKey, TrafficValue>,
    pub device_traffic: Table<DeviceTrafficKey, TrafficValue>,
    pub device_insert_failures: u64,
    pub ecm_traffic: Table<EcmTrafficKey, TrafficValue>,
}

/// A captured frame that carries a DNS message.
#[derive(Debug)]
pub struct DnsPacketEvent {
    pub header: DnsPacketHeader,
    pub packet: Vec<u8>,
}

/// What becomes of a packet: the verdict, and the DNS event that it gives.
pub struct Verdict {
    pub action: i32,
    pub dns: Option<DnsPacketEvent>,
}

/// The sum, or the largest number where the sum does not fit.
pub open spec fn sat_add(a: u64, b: u64) -> u64 {
    if a + b <= u64::MAX {
        (a + b) as u64
    } else {
        u64::MAX
    }
}

/// A counter after one more packet.
pub open spec fn bumped_value(v: Option<TrafficValue>, bytes: u64) -> TrafficValue {
    match v {
        Some(v) => TrafficValue { packets: sat_add(v.packets, 1), bytes: sat_add(v.bytes, bytes) },
        None => TrafficValue { packets: 1, bytes },
    }
}

/// Whether a table that is limited to `limit` entries takes a value under the key.
pub open spec fn takes<K: Key>(t: Table<K, TrafficValue>, k: K::V, limit: u32) -> bool {
    t@.dom().contains(k) || t.entries@.len() < limit
}

/// The counters after one more packet under the key.
pub open spec fn bumped<K: Key>(t: Table<K, TrafficValue>, k: K::V, bytes: u64, limit: u32) -> Map<
    K::V,
    TrafficValue,
> {
    if takes(t, k, limit) {
        t@.insert(
            k,
            bumped_value(
                if t@.dom().contains(k) {
                    Some(t@[k])
                } else {
                    None
                },
                bytes,
            ),
        )
    } else {
        t@
    }
}

/// Counts one packet under the key; a full table takes no new key.
fn bump_counter<K: Key>(t: &mut Table<K, TrafficValue>, k: K, bytes: u64, limit: u32) -> (stored:
    bool)
    requires
        old(t).wf(),
    ensures
        final(t).wf(),
        stored == takes(*old(t), k@, limit),
        final(t)@ == bumped(*old(t), k@, bytes, limit),
        !stored ==> *final(t) == *old(t),
{
    match t.find(&k) {
        Some(i) => {
            let v = t.entries[i].1;
            let next = TrafficValue {
                packets: v.packets.saturating_add(1),
                bytes: v.bytes.saturating_add(bytes),
            };
            t.set_at(i, next);
            true
        },
        None => {
            if t.len() < limit as usize {
                t.insert(k, TrafficValue { packets: 1, bytes });
                true
            } else {
                false
            }
        },
    }
}

/// The key of the interface counter for a packet.
pub open spec fn iface_key(ifindex: u32, ip_version: u8, direction: u8) -> (u32, u8, u8, Seq<u8>) {
    (ifindex, ip_version, direction, seq![0u8, 0u8])
}

impl PacketCounters {
    pub open spec fn wf(self) -> bool {
        &&& self.router_local_ips.wf()
        &&& self.management_ports.wf()
        &&& self.track_devices.wf()
        &&& self.iface_traffic.wf()
        &&& self.device_traffic.wf()
        &&& self.ecm_traffic.wf()
    }

    /// What the filters find out about a packet.
    pub open spec fn meta(self, f: Frame, direction: u8) -> Option<MetaModel> {
        packet_meta(f, direction, self.management_ports@.dom(), self.router_local_ips@.dom())
    }

    /// Whether devices are counted one by one on the interface.
    pub open spec fn tracks(self, ifindex: u32) -> bool {
        self.track_devices@.dom().contains(ifindex) && self.track_devices@[ifindex] == 1
    }

    /// The filters are the same and so is the offload engine's count.
    pub open spec fn same_filters(self, other: Self) -> bool {
        &&& self.dns_enabled == other.dns_enabled
        &&& self.router_local_ips == other.router_local_ips
        &&& self.management_ports == other.management_ports
        &&& self.track_devices == other.track_devices
    }

    /// Nothing filtered, nothing counted.
    pub fn new(dns_enabled: bool) -> (r: Self)
        ensures
            r.wf(),
            r.dns_enabled == dns_enabled,
            r.router_local_ips@ == Map::<(Seq<u32>, u8, Seq<u8>), u8>::empty(),
            r.management_ports@ == Map::<u16, u8>::empty(),
            r.track_devices@ == Map::<u32, u8>::empty(),
            r.iface_traffic@ == Map::<(u32, u8, u8, Seq<u8>), TrafficValue>::empty(),
            r.device_traffic@ == Map::<(u32, Seq<u8>, u8, u8), TrafficValue>::empty(),
            r.device_insert_failures == 0,
            r.ecm_traffic@ == Map::<(Seq<u32>, u8, u8, Seq<u8>), TrafficValue>::empty(),
    {
        PacketCounters {
            dns_enabled,
            router_local_ips: Table::new(),
            management_ports: Table::new(),
            track_devices: Table::new(),
            iface_traffic: Table::new(),
            device_traffic: Table::new(),
            device_insert_failures: 0,
            ecm_traffic: Table::new(),
        }
    }
}

/// The event that a packet gives, where it carries DNS and fits.
pub open spec fn dns_event(
    f: Frame,
    ifindex: u32,
    direction: u8,
    meta: MetaModel,
    now_ns: u64,
    e: Option<DnsPacketEvent>,
) -> bool {
    let len = f.bytes@.len();
    if 0 < len <= DNS_PACKET_MAX_BYTES && dns_packet(f, meta.ip_offset, meta.ip_version, len as int) {
        e matches Some(e) && e.packet@ == f.bytes@ && e.header.timestamp_ns == now_ns
            && e.header.ifindex == ifindex && e.header.captured_len == len && e.header.ip_offset
            == meta.ip_offset && e.header.ip_version == meta.ip_version && e.header.direction
            == direction && e.header.has_mac == (if meta.mac is Some {
            1u8
        } else {
            0u8
        }) && e.header.mac@ == (match meta.mac {
            Some(m) => m,
            None => seq![0u8, 0u8, 0u8, 0u8, 0u8, 0u8],
        }) && e.header._pad == 0
    } else {
        e is None
    }
}

/// Captures a packet that carries DNS.
fn capture_dns_packet(
    frame: &Frame,
    ifindex: u32,
    direction: u8,
    meta: &PacketMeta,
    now_ns: u64,
) -> (r: Option<DnsPacketEvent>)
    requires
        frame.valid(),
    ensures
        dns_event(*frame, ifindex, direction, meta@, now_ns, r),
{
    let len: usize = frame.bytes.len();
    if len == 0 || len > DNS_PACKET_MAX_BYTES {
        return None;
    }
    if !is_dns_packet(frame, meta.ip_offset as usize, meta.ip_version, len) {
        return None;
    }
    let (mac, has_mac) = match meta.mac {
        Some(mac) => (mac, 1u8),
        None => ([0u8, 0u8, 0u8, 0u8, 0u8, 0u8], 0u8),
    };
    assert(meta.mac is None ==> mac@ =~= seq![0u8, 0u8, 0u8, 0u8, 0u8, 0u8]);
    let packet = frame.bytes.clone();
    assert(packet@ =~= frame.bytes@);
    Some(
        DnsPacketEvent {
            header: DnsPacketHeader {
                timestamp_ns: now_ns,
                ifindex,
                captured_len: len as u32,
                ip_offset: meta.ip_offset,
                ip_version: meta.ip_version,
                direction,
                mac,
                has_mac,
                _pad: 0,
            },
            packet,
        },
    )
}

/// How the counters change over one packet, and what it gives.
pub open spec fn packet_step(
    before: PacketCounters,
    after: PacketCounters,
    f: Frame,
    ifindex: u32,
    direction: u8,
    now_ns: u64,
    dns: Option<DnsPacketEvent>,
) -> bool {
    match before.meta(f, direction) {
        None => after == before && dns is None,
        Some(meta) => {
            let len = f.bytes@.len() as u64;
            &&& after.same_filters(before)
            &&& after.ecm_traffic == before.ecm_traffic
            &&& if before.dns_enabled {
                dns_event(f, ifindex, direction, meta, now_ns, dns)
            } else {
                dns is None
            }
            &&& after.iface_traffic@ == bumped(
                before.iface_traffic,
                iface_key(ifindex, meta.ip_version, direction),
                len,
                IFACE_MAX_ENTRIES,
            )
            &&& if meta.mac is Some && before.tracks(ifindex) {
                let key = (ifindex, meta.mac->0, meta.ip_version, direction);
                &&& after.device_traffic@ == bumped(
                    before.device_traffic,
                    key,
                    len,
                    DEVICE_TRAFFIC_MAX_ENTRIES,
                )
                &&& after.device_insert_failures == if takes(
                    before.device_traffic,
                    key,
                    DEVICE_TRAFFIC_MAX_ENTRIES,
                ) {
                    before.device_insert_failures
                } else {
                    sat_add(before.device_insert_failures, 1)
                }
            } else {
                &&& after.device_traffic == before.device_traffic
                &&& after.device_insert_failures == before.device_insert_failures
            }
        },
    }
}

fn try_bandix_plus(
    counters: &mut PacketCounters,
    frame: &Frame,
    ifindex: u32,
    direction: u8,
    now_ns: u64,
) -> (r: Verdict)
    requires
        old(counters).wf(),
        frame.valid(),
    ensures
        final(counters).wf(),
        r.action == TC_ACT_UNSPEC,
        packet_step(
            *old(counters),
            *final(counters),
            *frame,
            ifindex,
            direction,
            now_ns,
            r.dns,
        ),
{
    let found = resolve_packet_meta(
        frame,
        direction,
        &counters.management_ports,
        &counters.router_local_ips,
    );
    let meta = match found {
        Some(m) => m,
        None => {
            return Verdict { action: TC_ACT_UNSPEC, dns: None };
        },
    };
    let dns = if counters.dns_enabled {
        capture_dns_packet(frame, ifindex, direction, &meta, now_ns)
    } else {
        None
    };
    let len: u64 = frame.bytes.len() as u64;
    let key = InterfaceTrafficKey {
        ifindex,
        ip_version: meta.ip_version,
        direction,
        _pad: [0, 0],
    };
    assert(key._pad@ =~= seq![0u8, 0u8]);
    let _ = bump_counter(&mut counters.iface_traffic, key, len, IFACE_MAX_ENTRIES);
    if let Some(mac) = meta.mac {
        let track: u8 = match counters.track_devices.get(&ifindex) {
            Some(t) => *t,
            None => 0,
        };
        if track == 1 {
            let key = DeviceTrafficKey { ifindex, mac, ip_version: meta.ip_version, direction };
            if !bump_counter(&mut counters.device_traffic, key, len, DEVICE_TRAFFIC_MAX_ENTRIES) {
                counters.device_insert_failures = counters.device_insert_failures.saturating_add(1);
            }
        }
    }
    Verdict { action: TC_ACT_UNSPEC, dns }
}

/// Counts a packet that comes in on an interface.
pub fn bandix_plus_ingress(
    counters: &mut PacketCounters,
    frame: &Frame,
    ifindex: u32,
    now_ns: u64,
) -> (r: Verdict)
    requires
        old(counters).wf(),
        frame.valid(),
    ensures
        final(counters).wf(),
        r.action == TC_ACT_UNSPEC,
        packet_step(*old(counters), *final(counters), *frame, ifindex, 1, now_ns, r.dns),
        forall|k: (u32, u8, u8, Seq<u8>)|
            k.0 != ifindex || k.2 != 1 ==> #[trigger] stands_at(
                final(counters).iface_traffic@,
                k,
            ) == stands_at(old(counters).iface_traffic@, k),
        forall|k: (u32, Seq<u8>, u8, u8)|
            k.0 != ifindex || k.3 != 1 ==> #[trigger] stands_at(
                final(counters).device_traffic@,
                k,
            ) == stands_at(old(counters).device_traffic@, k),
{
    try_bandix_plus(counters, frame, ifindex, TrafficDirection::Ingress.number(), now_ns)
}

/// Counts a packet that leaves by an interface.
pub fn bandix_plus_egress(
    counters: &mut PacketCounters,
    frame: &Frame,
    ifindex: u32,
    now_ns: u64,
) -> (r: Verdict)
    requires
        old(counters).wf(),
        frame.valid(),
    ensures
        final(counters).wf(),
        r.action == TC_ACT_UNSPEC,
        packet_step(*old(counters), *final(counters), *frame, ifindex, 2, now_ns, r.dns),
        forall|k: (u32, u8, u8, Seq<u8>)|
            k.0 != ifindex || k.2 != 2 ==> #[trigger] stands_at(
                final(counters).iface_traffic@,
                k,
            ) == stands_at(old(counters).iface_traffic@, k),
        forall|k: (u32, Seq<u8>, u8, u8)|
            k.0 != ifindex || k.3 != 2 ==> #[trigger] stands_at(
                final(counters).device_traffic@,
                k,
            ) == stands_at(old(counters).device_traffic@, k),
{
    try_bandix_plus(counters, frame, ifindex, TrafficDirection::Egress.number(), now_ns)
}

/// The offload counters after a report for one direction. A report without
/// bytes changes nothing.
pub open spec fn ecm_added(
    t: Table<EcmTrafficKey, TrafficValue>,
    k: (Seq<u32>, u8, u8, Seq<u8>),
    packets: u64,
    bytes: u64,
) -> Map<(Seq<u32>, u8, u8, Seq<u8>), TrafficValue> {
    if bytes == 0 || !takes(t, k, ECM_MAX_ENTRIES) {
        t@
    } else if t@.dom().contains(k) {
        t@.insert(
            k,
            TrafficValue {
                packets: t@[k].packets.wrapping_add(packets),
                bytes: t@[k].bytes.wrapping_add(bytes),
            },
        )
    } else {
        t@.insert(k, TrafficValue { packets, bytes })
    }
}

/// The offload key of an address in a direction.
pub open spec fn ecm_key(ip: Seq<u32>, ip_version: u8, direction: u8) -> (
    Seq<u32>,
    u8,
    u8,
    Seq<u8>,
) {
    (ip, ip_version, direction, seq![0u8, 0u8])
}

fn ecm_add(
    t: &mut Table<EcmTrafficKey, TrafficValue>,
    ip: [u32; 4],
    ip_version: u8,
    direction: u8,
    packets: u64,
    bytes: u64,
)
    requires
        old(t).wf(),
    ensures
        final(t).wf(),
        final(t)@ == ecm_added(*old(t), ecm_key(ip@, ip_version, direction), packets, bytes),
        final(t).entries@.len() <= old(t).entries@.len() + 1,
        bytes == 0 ==> *final(t) == *old(t),
{
    if bytes == 0 {
        return;
    }
    let key = EcmTrafficKey { ip, ip_version, direction, pad: [0, 0] };
    assert(key.pad@ =~= seq![0u8, 0u8]);
    match t.find(&key) {
        Some(i) => {
            let v = t.entries[i].1;
            t.set_at(
                i,
                TrafficValue {
                    packets: v.packets.wrapping_add(packets),
                    bytes: v.bytes.wrapping_add(bytes),
                },
            );
        },
        None => {
            if t.len() < ECM_MAX_ENTRIES as usize {
                t.insert(key, TrafficValue { packets, bytes });
                assert(t.keys().len() == t.entries@.len());
                assert(old(t).keys().len() == old(t).entries@.len());
            }
        },
    }
}

/// How a report of the offload engine changes the counters: the sent bytes
/// first, then the received ones.
pub open spec fn ecm_step(
    before: PacketCounters,
    after: PacketCounters,
    ip: Seq<u32>,
    ip_version: u8,
    tx_bytes: u64,
    rx_bytes: u64,
    tx_pkts: u64,
    rx_pkts: u64,
) -> bool {
    &&& after.same_filters(before)
    &&& after.iface_traffic == before.iface_traffic
    &&& after.device_traffic == before.device_traffic
    &&& after.device_insert_failures == before.device_insert_failures
    &&& exists|mid: Table<EcmTrafficKey, TrafficValue>| #[trigger]
        mid.wf() && mid@ == ecm_added(
            before.ecm_traffic,
            ecm_key(ip, ip_version, 2),
            tx_pkts,
            tx_bytes,
        ) && after.ecm_traffic@ == ecm_added(mid, ecm_key(ip, ip_version, 1), rx_pkts, rx_bytes)
}

/// Takes in a report on an IPv4 connection; address zero is ignored.
pub fn ecm_bandix_sync_hook(
    counters: &mut PacketCounters,
    ip: u32,
    tx_bytes: u64,
    rx_bytes: u64,
    tx_pkts: u64,
    rx_pkts: u64,
) -> (r: u32)
    requires
        old(counters).wf(),
    ensures
        r == 0,
        final(counters).wf(),
        ip == 0 ==> *final(counters) == *old(counters),
        ip != 0 ==> ecm_step(
            *old(counters),
            *final(counters),
            seq![ip, 0u32, 0u32, 0u32],
            4,
            tx_bytes,
            rx_bytes,
            tx_pkts,
            rx_pkts,
        ),
{
    if ip == 0 {
        return 0;
    }
    let words = [ip, 0u32, 0u32, 0u32];
    assert(words@ =~= seq![ip, 0u32, 0u32, 0u32]);
    ecm_add(&mut counters.ecm_traffic, words, 4, 2, tx_pkts, tx_bytes);
    let ghost mid = counters.ecm_traffic;
    assert(mid.wf());
    ecm_add(&mut counters.ecm_traffic, words, 4, 1, rx_pkts, rx_bytes);
    0
}

/// Takes in a report on an IPv6 connection; a report whose address could not be
/// read is ignored.
pub fn ecm_bandix_ipv6_sync_hook(
    counters: &mut PacketCounters,
    ip: Option<[u32; 4]>,
    tx_bytes: u64,
    rx_bytes: u64,
    tx_pkts: u64,
    rx_pkts: u64,
) -> (r: u32)
    requires
        old(counters).wf(),
    ensures
        r == 0,
        final(counters).wf(),
        ip is None ==> *final(counters) == *old(counters),
        ip matches Some(a) ==> ecm_step(
            *old(counters),
            *final(counters),
            a@,
            6,
            tx_bytes,
            rx_bytes,
            tx_pkts,
            rx_pkts,
        ),
{
    let words = match ip {
        Some(a) => a,
        None => {
            return 0;
        },
    };
    ecm_add(&mut counters.ecm_traffic, words, 6, 2, tx_pkts, tx_bytes);
    let ghost mid = counters.ecm_traffic;
    assert(mid.wf());
    ecm_add(&mut counters.ecm_traffic, words, 6, 1, rx_pkts, rx_bytes);
    0
}

/// What a counter stands at; one that is not there stands at zero.
pub open spec fn stands_at<KV>(m: Map<KV, TrafficValue>, k: KV) -> TrafficValue {
    if m.dom().contains(k) {
        m[k]
    } else {
        TrafficValue { packets: 0, bytes: 0 }
    }
}

/// A packet moves at most one interface counter and at most one device counter.
pub proof fn law_packet_moves_one_counter(
    before: PacketCounters,
    after: PacketCounters,
    f: Frame,
    ifindex: u32,
    direction: u8,
    now_ns: u64,
    dns: Option<DnsPacketEvent>,
    i1: (u32, u8, u8, Seq<u8>),
    i2: (u32, u8, u8, Seq<u8>),
    d1: (u32, Seq<u8>, u8, u8),
    d2: (u32, Seq<u8>, u8, u8),
)
    requires
        before.wf(),
        packet_step(before, after, f, ifindex, direction, now_ns, dns),
        i1 != i2,
        d1 != d2,
    ensures
        stands_at(after.iface_traffic@, i1) == stands_at(before.iface_traffic@, i1) || stands_at(
            after.iface_traffic@,
            i2,
        ) == stands_at(before.iface_traffic@, i2),
        stands_at(after.device_traffic@, d1) == stands_at(before.device_traffic@, d1) || stands_at(
            after.device_traffic@,
            d2,
        ) == stands_at(before.device_traffic@, d2),
{
}

/// A packet leaves every counter at least where it was.
pub proof fn law_counters_never_fall(
    before: PacketCounters,
    after: PacketCounters,
    f: Frame,
    ifindex: u32,
    direction: u8,
    now_ns: u64,
    dns: Option<DnsPacketEvent>,
    i: (u32, u8, u8, Seq<u8>),
    d: (u32, Seq<u8>, u8, u8),
)
    requires
        before.wf(),
        packet_step(before, after, f, ifindex, direction, now_ns, dns),
    ensures
        stands_at(before.iface_traffic@, i).bytes <= stands_at(after.iface_traffic@, i).bytes,
        stands_at(before.iface_traffic@, i).packets <= stands_at(after.iface_traffic@, i).packets,
        stands_at(before.device_traffic@, d).bytes <= stands_at(after.device_traffic@, d).bytes,
        stands_at(before.device_traffic@, d).packets <= stands_at(
            after.device_traffic@,
            d,
        ).packets,
{
}

/// The router's management traffic is not counted: a packet that belongs to it leaves
/// everything as it was.
pub proof fn law_management_is_not_counted(
    before: PacketCounters,
    after: PacketCounters,
    f: Frame,
    ifindex: u32,
    direction: u8,
    now_ns: u64,
    dns: Option<DnsPacketEvent>,
)
    requires
        packet_step(before, after, f, ifindex, direction, now_ns, dns),
        f.reach(0, 14),
        ({
            let (proto, off) = vlan_walk(f, f.u16_at(12), 14, 2);
            &&& version_from_eth(f, proto, off) is Some
            &&& management_packet(
                f,
                direction,
                proto,
                off,
                before.management_ports@.dom(),
                before.router_local_ips@.dom(),
            )
        }),
    ensures
        after == before,
        dns is None,
{
}

} // verus!
