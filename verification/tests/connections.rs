use bandix_plus::api::{connection_devices, connection_flows, paging};
use bandix_plus::conntrack::{
    calculate_stats, device_identities, flow_matches_ip_filters, read_dump, ClientIdentity,
    ConntrackMonitor, StreamAction, StreamEvent,
};
use bandix_plus::ip::parse_ip_text;
use bandix_plus::netlink::{
    dump_request, message_error_code, native_is_big, parse_flow_message, read_messages,
    status_flags, tcp_state_name, ConnectionEndpoint, ConnectionFlow, NetlinkAttributes,
    NetlinkError, CTA_STATUS, IPS_ASSURED, IPS_HW_OFFLOAD,
};
use bandix_plus::runtime::KnownDevice;
use bandix_plus::table::Table;

#[test]
fn tcp_states_are_named_like_conntrack() {
    assert_eq!(tcp_state_name(3), "ESTABLISHED");
    assert_eq!(tcp_state_name(8), "TIME_WAIT");
    assert_eq!(tcp_state_name(99), "NONE");
}

#[test]
fn status_flags_are_decoded() {
    assert_eq!(
        status_flags(IPS_ASSURED | IPS_HW_OFFLOAD),
        vec!["ASSURED".to_string(), "HW_OFFLOAD".to_string()]
    );
}

#[test]
fn netlink_attribute_alignment_is_checked() {
    let mut bytes = Vec::new();
    bytes.extend_from_slice(&6u16.to_ne_bytes());
    bytes.extend_from_slice(&CTA_STATUS.to_ne_bytes());
    bytes.extend_from_slice(&[1, 2]);
    bytes.extend_from_slice(&[0, 0]);
    bytes.extend_from_slice(&[0, 0, 0, 0]);
    let mut attrs = NetlinkAttributes::new(&bytes);
    let (kind, value) = attrs.next().unwrap().unwrap();
    assert_eq!(kind, CTA_STATUS);
    assert_eq!(value, &[1, 2]);
    assert!(attrs.next().is_none());
}

#[test]
fn zero_length_attribute_terminates_vendor_padding() {
    let mut bytes = Vec::new();
    bytes.extend_from_slice(&0u16.to_ne_bytes());
    bytes.extend_from_slice(&CTA_STATUS.to_ne_bytes());
    // Keep non-zero bytes after the marker: this is the case that cannot
    // be identified by the all-zero trailing-padding fast path.
    bytes.extend_from_slice(&[0xaa, 0xbb, 0xcc, 0xdd]);
    let mut attrs = NetlinkAttributes::new(&bytes);
    assert!(attrs.next().is_none());
}

#[test]
fn missing_attribute_alignment_bytes_do_not_panic() {
    let bytes = [6u8, 0, CTA_STATUS as u8, 0, 1, 2];
    let mut attrs = NetlinkAttributes::new(&bytes);
    let (kind, value) = attrs.next().unwrap().unwrap();
    assert_eq!(kind, CTA_STATUS);
    assert_eq!(value, &[1, 2]);
    assert!(attrs.next().is_none());
}

#[test]
fn broken_attributes_end_the_walk() {
    let mut attrs = NetlinkAttributes::in_order(&[0, 9, 0, 3, 1, 2], true);
    assert_eq!(attrs.next(), Some(Err(NetlinkError::Attribute)));
    assert!(attrs.next().is_none());
    let mut attrs = NetlinkAttributes::in_order(&[0, 0, 3], true);
    assert_eq!(attrs.next(), Some(Err(NetlinkError::Attribute)));
    assert_eq!(native_is_big(), u16::from_ne_bytes([0, 1]) == 1);
}

fn flow(protocol: &str, state: Option<&str>, sport: u16, dport: u16, remote: &str) -> ConnectionFlow {
    ConnectionFlow {
        id: None,
        protocol: protocol.to_string(),
        state: state.map(String::from),
        orig: ConnectionEndpoint {
            src: "192.168.1.10".to_string(),
            dst: remote.to_string(),
            sport,
            dport,
        },
        reply: ConnectionEndpoint {
            src: remote.to_string(),
            dst: "192.168.1.10".to_string(),
            sport: dport,
            dport: sport,
        },
        orig_packets: 1,
        orig_bytes: 2,
        reply_packets: 3,
        reply_bytes: 4,
        flags: Vec::new(),
    }
}

#[test]
fn calculate_stats_attributes_known_client() {
    let identity = ClientIdentity {
        mac: "00:11:22:33:44:55".to_string(),
        hostname: "client".to_string(),
        logical_iface: "br-lan".to_string(),
        ipv4: vec![parse_ip_text("192.168.1.10").unwrap()],
        ipv6: Vec::new(),
    };
    let flow = flow("tcp", Some("ESTABLISHED"), 1234, 443, "203.0.113.1");
    let (global, devices) = calculate_stats(&vec![flow.clone()], &vec![identity], 10);
    assert_eq!(global.total_connections, 1);
    assert_eq!(global.established_tcp, 1);
    assert_eq!(devices[0].total_connections, 1);
    let filters = |texts: &[&str]| -> Vec<String> { texts.iter().map(|t| t.to_string()).collect() };
    assert!(flow_matches_ip_filters(&flow, &filters(&["192.168.1.10", "2001:db8::10"])));
    assert!(!flow_matches_ip_filters(&flow, &filters(&["2001:db8::20"])));
}

#[test]
fn calculate_stats_leaves_ambiguous_client_unattributed() {
    let identity = ClientIdentity {
        mac: "00:11:22:33:44:55".to_string(),
        hostname: "client-a".to_string(),
        logical_iface: "br-vlan9".to_string(),
        ipv4: vec![parse_ip_text("192.168.1.10").unwrap()],
        ipv6: Vec::new(),
    };
    let duplicate_ip = ClientIdentity {
        mac: "66:77:88:99:aa:bb".to_string(),
        hostname: "client-b".to_string(),
        logical_iface: "br-vlan10".to_string(),
        ipv4: vec![parse_ip_text("192.168.1.10").unwrap()],
        ipv6: Vec::new(),
    };
    let flow = ConnectionFlow {
        reply_packets: 1,
        reply_bytes: 3,
        ..flow("udp", None, 5353, 53, "203.0.113.53")
    };

    let (global, devices) = calculate_stats(&vec![flow], &vec![identity, duplicate_ip], 10);
    assert_eq!(global.total_connections, 1);
    assert!(devices.is_empty());
}

fn attribute(kind: u16, value: &[u8]) -> Vec<u8> {
    let mut out = Vec::new();
    out.extend_from_slice(&((value.len() + 4) as u16).to_le_bytes());
    out.extend_from_slice(&kind.to_le_bytes());
    out.extend_from_slice(value);
    while out.len() % 4 != 0 {
        out.push(0);
    }
    out
}

fn tuple(kind: u16, src: [u8; 4], dst: [u8; 4], sport: u16, dport: u16) -> Vec<u8> {
    let mut ip = attribute(1, &src);
    ip.extend(attribute(2, &dst));
    let mut proto = attribute(1, &[6]);
    proto.extend(attribute(2, &sport.to_be_bytes()));
    proto.extend(attribute(3, &dport.to_be_bytes()));
    let mut body = attribute(1 | 0x8000, &ip);
    body.extend(attribute(2 | 0x8000, &proto));
    attribute(kind | 0x8000, &body)
}

fn flow_payload(id: u32, sport: u16) -> Vec<u8> {
    let mut out = vec![2, 0, 0, 0];
    out.extend(tuple(1, [192, 168, 1, 10], [203, 0, 113, 1], sport, 443));
    out.extend(tuple(2, [203, 0, 113, 1], [192, 168, 1, 10], 443, sport));
    out.extend(attribute(3, &IPS_ASSURED.to_be_bytes()));
    out.extend(attribute(13, &id.to_be_bytes()));
    out
}

fn message(kind: u16, payload: &[u8]) -> Vec<u8> {
    let mut out = Vec::new();
    out.extend_from_slice(&((payload.len() + 16) as u32).to_le_bytes());
    out.extend_from_slice(&kind.to_le_bytes());
    out.extend_from_slice(&[0, 0]);
    out.extend_from_slice(&[0; 8]);
    out.extend_from_slice(payload);
    while out.len() % 4 != 0 {
        out.push(0);
    }
    out
}

#[test]
fn flow_messages_are_read() {
    let parsed = parse_flow_message(&flow_payload(7, 1234), false).unwrap().unwrap();
    assert_eq!(parsed.flow.id, Some(7));
    assert_eq!(parsed.flow.protocol, "tcp");
    assert_eq!(parsed.flow.orig.src, "192.168.1.10");
    assert_eq!((parsed.flow.orig.sport, parsed.flow.orig.dport), (1234, 443));
    assert_eq!(parsed.flow.flags, vec!["ASSURED"]);
    assert_eq!(parse_flow_message(&[2, 0], false).err(), Some(NetlinkError::Short));
}

#[test]
fn new_and_ended_connections_are_followed() {
    let mut monitor = ConntrackMonitor::new(true);
    let new_kind: u16 = 256;
    let end_kind: u16 = 258;
    let mut buffer = message(new_kind, &flow_payload(1, 1000));
    buffer.extend(message(new_kind, &flow_payload(2, 2000)));
    monitor.apply_event_messages(&buffer, false).unwrap();
    let (enabled, flows) = monitor.filtered_flows(None, None, None);
    assert!(enabled);
    assert_eq!(flows.len(), 2);
    monitor.apply_event_messages(&message(end_kind, &flow_payload(1, 1000)), false).unwrap();
    let (_, flows) = monitor.filtered_flows(Some("192.168.1.10"), Some("tcp"), None);
    assert_eq!(flows.len(), 1);
    assert_eq!(flows[0].orig.sport, 2000);
    let (_, none) = monitor.filtered_flows(Some("10.0.0.1"), None, None);
    assert!(none.is_empty());
    monitor.refresh_stats(&vec![], 42);
    let told = connection_devices(monitor.summary());
    assert_eq!((told.total_flows, told.total_devices, told.last_updated), (1, 0, 42));
    assert!(monitor.note_error("lost".to_string()));
    assert!(!monitor.note_error("lost".to_string()));
    assert!(monitor.note_error("gone".to_string()));
    assert!(monitor.note_error("lost".to_string()));
    assert_eq!(monitor.summary().last_error.as_deref(), Some("lost"));
    monitor.note_overflow();
    assert_eq!(monitor.summary().event_loss, 1);
}

#[test]
fn dumps_end_with_their_last_message() {
    let mut flows = Vec::new();
    let mut buffer = message(256, &flow_payload(5, 5000));
    buffer.extend(message(3, &[0, 0, 0, 0]));
    assert_eq!(read_dump(&mut flows, &buffer, false), Ok(true));
    assert_eq!(flows.len(), 1);
    let mut monitor = ConntrackMonitor::new(true);
    monitor.replace_flows(flows);
    assert_eq!(monitor.filtered_flows(None, None, None).1.len(), 1);
    let mut more = Vec::new();
    assert_eq!(read_dump(&mut more, &message(256, &flow_payload(6, 6000)), false), Ok(false));
    let (messages, broken) = read_messages(&buffer, false);
    assert_eq!((messages.len(), broken), (2, false));
    let (messages, broken) = read_messages(&buffer[..buffer.len() - 2], false);
    assert_eq!((messages.len(), broken), (1, true));
    assert_eq!(message_error_code(&(-105i32).to_le_bytes(), false), -105);
    assert_eq!(dump_request(9, false).len(), 20);
}

#[test]
fn identities_come_from_known_devices() {
    let mut registry = Table::new();
    registry.insert(
        (1u32, [2u8, 0, 0, 0, 0, 1]),
        KnownDevice {
            ifindex: 1,
            mac: [2, 0, 0, 0, 0, 1],
            ipv4: vec!["10.0.0.1".to_string(), "nonsense".to_string()],
            ipv6: vec!["2001:db8::1".to_string()],
            hostname: "h".to_string(),
            logical_iface: "br-lan".to_string(),
            subnet: String::new(),
            last_seen_ms: 0,
        },
    );
    let ids = device_identities(&registry);
    assert_eq!(ids.len(), 1);
    assert_eq!(ids[0].mac, "02:00:00:00:00:01");
    assert_eq!(ids[0].ipv4, vec![parse_ip_text("10.0.0.1").unwrap()]);
    assert_eq!(ids[0].ipv6, vec![parse_ip_text("2001:db8::1").unwrap()]);
}

#[test]
fn connections_come_page_by_page() {
    let flows: Vec<ConnectionFlow> = (0..250u16).map(|i| flow("tcp", None, i, 443, "203.0.113.1")).collect();
    let page = connection_flows(true, flows.clone(), Some(3), None);
    assert_eq!((page.total, page.page_size, page.total_pages, page.page), (250, 100, 3, 3));
    assert_eq!(page.items.len(), 50);
    assert_eq!(page.items[0].orig.sport, 200);
    let last = connection_flows(true, flows.clone(), Some(99), Some(1000));
    assert_eq!((last.page, last.page_size, last.items.len()), (1, 500, 250));
    let first = connection_flows(false, flows, Some(0), Some(0));
    assert_eq!((first.page, first.page_size, first.items.len()), (1, 1, 1));
    let none = connection_flows(true, vec![], None, None);
    assert_eq!((none.page, none.total_pages, none.items.len()), (1, 1, 0));
    assert_eq!(paging(101, Some(2), Some(50)).start, 50);
}

#[test]
fn listening_goes_on_after_a_loss() {
    let mut monitor = ConntrackMonitor::new(true);
    assert_eq!(
        monitor.on_stream_event(StreamEvent::NotOpened, false),
        StreamAction::Reopen { after_secs: 5 }
    );
    assert_eq!(monitor.on_stream_event(StreamEvent::Opened, false), StreamAction::Listen);
    assert!(monitor.summary().event_stream_available);
    let buffer = message(256, &flow_payload(1, 1000));
    assert_eq!(monitor.on_stream_event(StreamEvent::Received(&buffer), false), StreamAction::Listen);
    assert_eq!(monitor.filtered_flows(None, None, None).1.len(), 1);
    assert_eq!(monitor.on_stream_event(StreamEvent::Interrupted, false), StreamAction::Listen);
    assert_eq!(
        monitor.on_stream_event(StreamEvent::Overflowed, false),
        StreamAction::Reopen { after_secs: 1 }
    );
    let told = monitor.summary();
    assert!(!told.event_stream_available);
    assert_eq!(told.event_loss, 1);
    monitor.on_stream_event(StreamEvent::Opened, false);
    monitor.on_stream_event(StreamEvent::Closed, false);
    assert!(!monitor.summary().event_stream_available);
    monitor.on_stream_event(StreamEvent::Failed, false);
    assert_eq!(monitor.summary().event_loss, 1);
}
