use bandix_plus::counting::{
    bandix_plus_egress, bandix_plus_ingress, ecm_bandix_ipv6_sync_hook, ecm_bandix_sync_hook,
    PacketCounters,
};
use bandix_plus::keys::{
    DeviceTrafficKey, EcmTrafficKey, InterfaceTrafficKey, RouterIpKey, TrafficValue,
};
use bandix_plus::packet::{is_dns_packet, management_port_matches, Frame, TC_ACT_UNSPEC};
use bandix_plus::table::Table;

const CLIENT: [u8; 6] = [2, 0, 0, 0, 0, 1];
const ROUTER: [u8; 6] = [2, 0, 0, 0, 0, 254];

fn frame(dst: [u8; 6], src: [u8; 6], proto: u8, src_ip: [u8; 4], dst_ip: [u8; 4], ports: (u16, u16)) -> Frame {
    let mut bytes = Vec::new();
    bytes.extend_from_slice(&dst);
    bytes.extend_from_slice(&src);
    bytes.extend_from_slice(&[0x08, 0x00]);
    let mut ip = [0u8; 20];
    ip[0] = 0x45;
    ip[3] = 60;
    ip[9] = proto;
    ip[12..16].copy_from_slice(&src_ip);
    ip[16..20].copy_from_slice(&dst_ip);
    bytes.extend_from_slice(&ip);
    let mut transport = [0u8; 40];
    transport[0..2].copy_from_slice(&ports.0.to_be_bytes());
    transport[2..4].copy_from_slice(&ports.1.to_be_bytes());
    transport[4..6].copy_from_slice(&40u16.to_be_bytes());
    transport[13] = 1;
    bytes.extend_from_slice(&transport);
    let linear = bytes.len();
    Frame { bytes, linear }
}

fn iface_key(direction: u8) -> InterfaceTrafficKey {
    InterfaceTrafficKey {
        ifindex: 5,
        ip_version: 4,
        direction,
        _pad: [0, 0],
    }
}

fn device_key(direction: u8) -> DeviceTrafficKey {
    DeviceTrafficKey {
        ifindex: 5,
        mac: CLIENT,
        ip_version: 4,
        direction,
    }
}

#[test]
fn packets_are_counted_by_interface_and_device() {
    let mut counters = PacketCounters::new(false);
    counters.track_devices.insert(5, 1);
    let up = frame(ROUTER, CLIENT, 6, [10, 0, 0, 5], [203, 0, 113, 1], (40000, 443));
    let len = up.bytes.len() as u64;
    let verdict = bandix_plus_ingress(&mut counters, &up, 5, 1);
    assert_eq!(verdict.action, TC_ACT_UNSPEC);
    assert!(verdict.dns.is_none());
    bandix_plus_ingress(&mut counters, &up, 5, 2);
    let down = frame(CLIENT, ROUTER, 6, [203, 0, 113, 1], [10, 0, 0, 5], (443, 40000));
    bandix_plus_egress(&mut counters, &down, 5, 3);
    assert_eq!(
        counters.iface_traffic.get(&iface_key(1)),
        Some(&TrafficValue { packets: 2, bytes: 2 * len })
    );
    assert_eq!(counters.iface_traffic.get(&iface_key(2)), Some(&TrafficValue { packets: 1, bytes: len }));
    assert_eq!(
        counters.device_traffic.get(&device_key(1)),
        Some(&TrafficValue { packets: 2, bytes: 2 * len })
    );
    assert_eq!(counters.device_traffic.get(&device_key(2)).unwrap().packets, 1);
    assert_eq!(counters.device_insert_failures, 0);
}

#[test]
fn devices_are_counted_only_where_they_are_tracked() {
    let mut counters = PacketCounters::new(false);
    let up = frame(ROUTER, CLIENT, 6, [10, 0, 0, 5], [203, 0, 113, 1], (40000, 443));
    bandix_plus_ingress(&mut counters, &up, 5, 1);
    assert_eq!(counters.iface_traffic.len(), 1);
    assert!(counters.device_traffic.is_empty());
    let other = Frame { bytes: vec![0; 14], linear: 14 };
    bandix_plus_ingress(&mut counters, &other, 5, 2);
    assert_eq!(counters.iface_traffic.len(), 1);
}

#[test]
fn management_of_the_router_is_not_counted() {
    let mut counters = PacketCounters::new(false);
    counters.management_ports.insert(443, 1);
    counters.router_local_ips.insert(
        RouterIpKey {
            ip: [0x0a000001, 0, 0, 0],
            ip_version: 4,
            _pad: [0, 0, 0],
        },
        1,
    );
    let to_router = frame(ROUTER, CLIENT, 6, [10, 0, 0, 5], [10, 0, 0, 1], (40000, 443));
    bandix_plus_ingress(&mut counters, &to_router, 5, 1);
    assert!(counters.iface_traffic.is_empty());
    let past_router = frame(ROUTER, CLIENT, 6, [10, 0, 0, 5], [203, 0, 113, 1], (40000, 443));
    bandix_plus_ingress(&mut counters, &past_router, 5, 2);
    assert_eq!(counters.iface_traffic.len(), 1);
    let mut ports: Table<u16, u8> = Table::new();
    ports.insert(80, 1);
    assert!(management_port_matches(&ports, 40000, 80, 1));
    assert!(!management_port_matches(&ports, 40000, 80, 2));
    assert!(management_port_matches(&ports, 80, 40000, 2));
}

#[test]
fn dns_packets_are_handed_on() {
    let query = frame(ROUTER, CLIENT, 17, [10, 0, 0, 5], [9, 9, 9, 9], (40000, 53));
    let mut quiet = PacketCounters::new(false);
    assert!(bandix_plus_ingress(&mut quiet, &query, 5, 1).dns.is_none());
    let mut counters = PacketCounters::new(true);
    let event = bandix_plus_ingress(&mut counters, &query, 5, 77).dns.unwrap();
    assert_eq!(event.header.timestamp_ns, 77);
    assert_eq!((event.header.ifindex, event.header.ip_offset, event.header.ip_version), (5, 14, 4));
    assert_eq!((event.header.mac, event.header.has_mac), (CLIENT, 1));
    assert_eq!(event.header.captured_len as usize, query.bytes.len());
    assert_eq!(event.packet[..query.bytes.len()], query.bytes[..]);
    assert!(is_dns_packet(&query, 14, 4, query.bytes.len()));
    assert!(!is_dns_packet(&query, 14, 6, query.bytes.len()));
}

#[test]
fn offload_reports_are_added_up() {
    let mut counters = PacketCounters::new(false);
    let key = |direction: u8| EcmTrafficKey {
        ip: [0x0a000005, 0, 0, 0],
        ip_version: 4,
        direction,
        pad: [0, 0],
    };
    assert_eq!(ecm_bandix_sync_hook(&mut counters, 0x0a000005, 100, 200, 1, 2), 0);
    ecm_bandix_sync_hook(&mut counters, 0x0a000005, 10, 0, 1, 0);
    ecm_bandix_sync_hook(&mut counters, 0, 10, 10, 1, 1);
    assert_eq!(counters.ecm_traffic.get(&key(2)), Some(&TrafficValue { packets: 2, bytes: 110 }));
    assert_eq!(counters.ecm_traffic.get(&key(1)), Some(&TrafficValue { packets: 2, bytes: 200 }));
    ecm_bandix_ipv6_sync_hook(&mut counters, None, 1, 1, 1, 1);
    assert_eq!(counters.ecm_traffic.len(), 2);
    ecm_bandix_ipv6_sync_hook(&mut counters, Some([1, 2, 3, 4]), 1, 1, 1, 1);
    assert_eq!(counters.ecm_traffic.len(), 4);
}
