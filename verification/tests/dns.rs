use bandix_plus::capture::{read_header, take_event, DNS_HEADER_BYTES};
use bandix_plus::dns::{event_message, event_time_ms, DeviceIdentity, DnsMonitor};
use bandix_plus::dnsmsg::{parse_dns_packet, ParsedDnsMessage};
use bandix_plus::dnsrec::{result_matches, DnsQueriesQuery, DnsQueryRecord};
use bandix_plus::dnsreport::percentile;
use bandix_plus::dnsstore::{dns_queries_file, newest_records, resolve_device};
use bandix_plus::ip::{parse_ip_text, IpAddr};
use bandix_plus::keys::DnsPacketHeader;
use bandix_plus::runtime::{DeviceRegistry, KnownDevice};
use bandix_plus::table::Table;
use bandix_plus::topology::{Interface, InterfaceRole, TopologySnapshot};

fn dns_query_frame(vlan: bool) -> (Vec<u8>, usize) {
    let mut frame = vec![0u8; 12];
    if vlan {
        frame.extend_from_slice(&[0x81, 0x00, 0, 9, 0x08, 0x00]);
    } else {
        frame.extend_from_slice(&[0x08, 0x00]);
    }
    let ip_offset = frame.len();
    let dns = [
        0x12, 0x34, 0x01, 0x00, 0x00, 0x01, 0x00, 0x00, 0x00, 0x00, 0x00, 0x00, 0x07, b'p', b'r', b'o', b'b', b'e',
        b'-', b'1', 0x07, b'e', b'x', b'a', b'm', b'p', b'l', b'e', 0x03, b'c', b'o', b'm', 0x00, 0x00, 0x01, 0x00,
        0x01,
    ];
    let udp_len = 8 + dns.len();
    let total_len = 20 + udp_len;
    frame.extend_from_slice(&[
        0x45,
        0,
        (total_len >> 8) as u8,
        total_len as u8,
        0,
        1,
        0,
        0,
        64,
        17,
        0,
        0,
        192,
        168,
        9,
        10,
        116,
        212,
        73,
        23,
    ]);
    frame.extend_from_slice(&[0xcf, 0xdd, 0, 53, (udp_len >> 8) as u8, udp_len as u8, 0, 0]);
    frame.extend_from_slice(&dns);
    (frame, ip_offset)
}

fn dns_response_frame() -> (Vec<u8>, usize) {
    let (mut frame, ip_offset) = dns_query_frame(false);
    let udp_offset = ip_offset + 20;
    let dns_offset = udp_offset + 8;

    let source_ip = frame[ip_offset + 12..ip_offset + 16].to_vec();
    let destination_ip = frame[ip_offset + 16..ip_offset + 20].to_vec();
    frame[ip_offset + 12..ip_offset + 16].copy_from_slice(&destination_ip);
    frame[ip_offset + 16..ip_offset + 20].copy_from_slice(&source_ip);

    let source_port = frame[udp_offset..udp_offset + 2].to_vec();
    let destination_port = frame[udp_offset + 2..udp_offset + 4].to_vec();
    frame[udp_offset..udp_offset + 2].copy_from_slice(&destination_port);
    frame[udp_offset + 2..udp_offset + 4].copy_from_slice(&source_port);

    frame[dns_offset + 2..dns_offset + 4].copy_from_slice(&0x8180u16.to_be_bytes());
    frame[dns_offset + 6..dns_offset + 8].copy_from_slice(&1u16.to_be_bytes());
    frame.extend_from_slice(&[
        0xc0, 0x0c, // compressed owner name: question name
        0x00, 0x01, // A
        0x00, 0x01, // IN
        0x00, 0x00, 0x00, 0x3c, // TTL = 60s
        0x00, 0x04, // RDLENGTH
        93, 184, 216, 34, // 93.184.216.34
    ]);

    let total_len = u16::from_be_bytes([frame[ip_offset + 2], frame[ip_offset + 3]]) + 16;
    frame[ip_offset + 2..ip_offset + 4].copy_from_slice(&total_len.to_be_bytes());
    let udp_len = u16::from_be_bytes([frame[udp_offset + 4], frame[udp_offset + 5]]) + 16;
    frame[udp_offset + 4..udp_offset + 6].copy_from_slice(&udp_len.to_be_bytes());
    (frame, ip_offset)
}

fn dns_query_tcp_frame() -> (Vec<u8>, usize) {
    let (udp_frame, udp_ip_offset) = dns_query_frame(false);
    let dns = &udp_frame[udp_ip_offset + 20 + 8..];
    let ip_offset = 14;
    let tcp_dns_prefix_len = dns.len() + 2;
    let total_len = 20 + 20 + tcp_dns_prefix_len;
    let mut frame = vec![0u8; ip_offset];
    frame[12..14].copy_from_slice(&0x0800u16.to_be_bytes());

    let mut ip = [0u8; 20];
    ip[0] = 0x45;
    ip[2..4].copy_from_slice(&(total_len as u16).to_be_bytes());
    ip[8] = 64;
    ip[9] = 6;
    ip[12..16].copy_from_slice(&[192, 168, 9, 10]);
    ip[16..20].copy_from_slice(&[116, 212, 73, 23]);
    frame.extend_from_slice(&ip);

    let mut tcp = [0u8; 20];
    tcp[0..2].copy_from_slice(&0xcfdd_u16.to_be_bytes());
    tcp[2..4].copy_from_slice(&53u16.to_be_bytes());
    tcp[12] = 5 << 4;
    tcp[13] = 0x18;
    frame.extend_from_slice(&tcp);
    frame.extend_from_slice(&(dns.len() as u16).to_be_bytes());
    frame.extend_from_slice(dns);
    (frame, ip_offset)
}

#[test]
fn parses_dns_query_from_vlan_frame() {
    let (frame, ip_offset) = dns_query_frame(true);
    let parsed = parse_dns_packet(&frame, ip_offset, 4).unwrap();
    assert!(parsed.is_query);
    assert_eq!(parsed.domain, "probe-1.example.com");
    assert_eq!(parsed.query_type, "A");
    assert_eq!(parsed.source_ip, parse_ip_text("192.168.9.10").unwrap());
    assert_eq!(parsed.destination_port, 53);
}

#[test]
fn parses_dns_over_tcp_when_message_is_complete_in_one_segment() {
    let (frame, ip_offset) = dns_query_tcp_frame();
    let parsed = parse_dns_packet(&frame, ip_offset, 4).unwrap();
    assert!(parsed.is_query);
    assert_eq!(parsed.protocol, "TCP");
    assert_eq!(parsed.domain, "probe-1.example.com");
}

#[test]
fn parses_dns_response_answer_records() {
    let (frame, ip_offset) = dns_response_frame();
    let parsed = parse_dns_packet(&frame, ip_offset, 4).unwrap();
    assert!(!parsed.is_query);
    assert_eq!(parsed.response_code.as_deref(), Some("NOERROR"));
    assert_eq!(parsed.response_ips, vec!["93.184.216.34"]);
    assert_eq!(parsed.response_records, vec!["A:93.184.216.34"]);
}

#[test]
fn truncated_and_foreign_frames_are_no_dns() {
    let (frame, ip_offset) = dns_query_frame(false);
    assert!(parse_dns_packet(&frame[..frame.len() - 1], ip_offset, 4).is_none());
    assert!(parse_dns_packet(&frame, ip_offset, 6).is_none());
    assert!(parse_dns_packet(&frame, frame.len() + 7, 4).is_none());
    let mut other = frame.clone();
    other[ip_offset + 23] = 54;
    assert!(parse_dns_packet(&other, ip_offset, 4).is_none());
}

#[test]
fn bytes_outside_utf8_in_names_are_replaced() {
    let (mut frame, ip_offset) = dns_query_frame(false);
    frame[ip_offset + 28 + 13] = 0xff;
    let parsed = parse_dns_packet(&frame, ip_offset, 4).unwrap();
    assert_eq!(parsed.domain, "\u{fffd}robe-1.example.com");
}

fn record() -> DnsQueryRecord {
    DnsQueryRecord {
        timestamp: 0,
        domain: "example.com".into(),
        query_type: "A".into(),
        response_code: Some("NXDOMAIN".into()),
        response_time_ms: Some(1),
        source_ip: "192.168.9.10".into(),
        destination_ip: "192.168.13.121".into(),
        source_port: 53053,
        destination_port: 53,
        transaction_id: 1,
        is_query: true,
        protocol: "UDP".into(),
        response_ips: Vec::new(),
        response_records: Vec::new(),
        device_mac: String::new(),
        device_name: String::new(),
        iface: "br-vlan9".into(),
    }
}

#[test]
fn result_filter_matches_rcode_and_blocked_answers() {
    let mut record = record();

    assert!(result_matches(&record, "nxdomain"));
    assert!(!result_matches(&record, "blocked"));

    record.response_code = Some("NOERROR".into());
    record.response_ips = vec!["0.0.0.0".into()];
    record.response_records = vec!["A:0.0.0.0".into()];
    assert!(result_matches(&record, "blocked"));
    assert!(result_matches(&record, "0.0.0.0"));
    assert!(!result_matches(&record, "nxdomain"));
}

#[test]
fn matches_response_after_query_and_suppresses_cross_interface_duplicate() {
    let (query_frame, ip_offset) = dns_query_frame(false);
    let query = parse_dns_packet(&query_frame, ip_offset, 4).unwrap();
    let (mut response_frame, response_ip_offset) = dns_response_frame();
    response_frame[response_ip_offset + 12..response_ip_offset + 16].copy_from_slice(&[192, 168, 13, 121]);
    let response = parse_dns_packet(&response_frame, response_ip_offset, 4).unwrap();
    let mut monitor = DnsMonitor::new(true, false, 10, vec!["br-vlan9".into()]);
    let header = DnsPacketHeader {
        timestamp_ns: 1_000_000_000,
        ..DnsPacketHeader::default()
    };
    let device = DeviceIdentity {
        mac: "14:dd:a9:ec:8d:41".into(),
        name: "regis-imac-pro".into(),
        iface: "br-vlan9".into(),
    };
    monitor.ingest(query.clone(), header, 1000, device.clone());
    monitor.ingest(
        query,
        DnsPacketHeader {
            timestamp_ns: 1_100_000_000,
            ..header
        },
        1100,
        device.clone(),
    );
    monitor.ingest(
        response.clone(),
        DnsPacketHeader {
            timestamp_ns: 1_250_000_000,
            ..header
        },
        1250,
        device,
    );
    monitor.ingest(
        response,
        DnsPacketHeader {
            timestamp_ns: 1_300_000_000,
            ..header
        },
        1300,
        DeviceIdentity::default(),
    );

    let records = monitor.records_for_persistence();
    assert_eq!(records.len(), 1);
    assert_eq!(records[0].response_code.as_deref(), Some("NOERROR"));
    assert_eq!(records[0].response_time_ms, Some(250));
    assert_eq!(records[0].response_ips, vec!["93.184.216.34"]);
    let stats = monitor.stats(2000);
    assert_eq!(stats.unique_devices, 1);
    assert_eq!(stats.top_devices[0].name, "regis-imac-pro");
}

fn query_of(id: u8) -> ParsedDnsMessage {
    let (mut frame, ip_offset) = dns_query_frame(false);
    frame[ip_offset + 28] = id;
    parse_dns_packet(&frame, ip_offset, 4).unwrap()
}

#[test]
fn oldest_queries_give_way() {
    let mut monitor = DnsMonitor::new(true, false, 2, vec![]);
    for id in 1..=3u8 {
        let header = DnsPacketHeader {
            timestamp_ns: id as u64 * 1_000_000_000,
            ..DnsPacketHeader::default()
        };
        monitor.ingest(query_of(id), header, id as u64 * 1000, DeviceIdentity::default());
    }
    let times: Vec<u64> = monitor.records_for_persistence().iter().map(|r| r.timestamp).collect();
    assert_eq!(times, vec![2000, 3000]);
    let page = monitor.queries(&DnsQueriesQuery::default(), 4000);
    assert_eq!(page.total, 2);
    assert!(monitor.config().enabled);
}

#[test]
fn stored_queries_are_taken_over_once() {
    let mut open = record();
    open.response_code = None;
    open.response_time_ms = None;
    let kept = newest_records(vec![record(), record(), open], 2);
    assert_eq!(kept.len(), 2);
    assert_eq!(kept[0].response_code.as_deref(), Some("NXDOMAIN"));
    assert_eq!(kept[1].response_code.as_deref(), Some("NO_RESPONSE"));
    let again = newest_records(kept, 2);
    assert_eq!(again[1].response_code.as_deref(), Some("NO_RESPONSE"));
    assert!(newest_records(again, 0).is_empty());
    assert_eq!(dns_queries_file("/tmp/x"), "/tmp/x/dns/queries.jsonl");
    assert_eq!(dns_queries_file("/tmp/x/"), "/tmp/x/dns/queries.jsonl");
}

fn device(last: u8, ipv4: Vec<&str>) -> ((u32, [u8; 6]), KnownDevice) {
    let mac = [2, 0, 0, 0, 0, last];
    (
        (3, mac),
        KnownDevice {
            ifindex: 3,
            mac,
            ipv4: ipv4.into_iter().map(String::from).collect(),
            ipv6: vec![],
            hostname: format!("host-{last}"),
            logical_iface: "br-lan".into(),
            subnet: String::new(),
            last_seen_ms: 0,
        },
    )
}

#[test]
fn clients_are_put_down_to_devices() {
    let mut registry = DeviceRegistry { entries: Table::new() };
    for (key, known) in [
        device(1, vec!["10.0.0.1"]),
        device(2, vec!["10.0.0.2", "10.0.0.9"]),
        device(3, vec!["10.0.0.9"]),
        device(4, vec![]),
    ] {
        registry.entries.insert(key, known);
    }
    let topology = TopologySnapshot::from_interfaces(vec![Interface {
        ifindex: 3,
        name: "br-lan".into(),
        role: InterfaceRole::Bridge,
        zone: "lan".into(),
        parent_ifindex: None,
        ipv4_cidrs: vec![],
        ipv6_cidrs: vec![],
    }]);
    let header = |last: u8| DnsPacketHeader {
        ifindex: 3,
        mac: [2, 0, 0, 0, 0, last],
        has_mac: (last != 0) as u8,
        ..DnsPacketHeader::default()
    };
    let who = |last: u8, ip: [u8; 4]| resolve_device(&registry, &topology, &header(last), &IpAddr::V4(ip));
    // By the hardware address.
    assert_eq!(who(2, [10, 0, 0, 9]).name, "host-2");
    // One without known addresses.
    assert_eq!(who(4, [10, 0, 0, 50]).name, "host-4");
    // By the only owner of the address.
    assert_eq!(who(0, [10, 0, 0, 1]).name, "host-1");
    assert_eq!(who(3, [10, 0, 0, 1]).name, "host-1");
    // Shared, and nobody's.
    assert_eq!(who(0, [10, 0, 0, 9]).name, "");
    let unknown = who(9, [10, 0, 0, 77]);
    assert_eq!((unknown.mac.as_str(), unknown.iface.as_str()), ("02:00:00:00:00:09", "br-lan"));
    // The hardware address belongs to a device with another address.
    assert_eq!(who(1, [10, 0, 0, 77]).mac, "");
}

#[test]
fn events_are_read_with_their_time() {
    let (frame, ip_offset) = dns_query_frame(false);
    let header = DnsPacketHeader {
        captured_len: frame.len() as u32,
        ip_offset: ip_offset as u16,
        ip_version: 4,
        ..DnsPacketHeader::default()
    };
    assert_eq!(event_message(&header, &frame).unwrap().domain, "probe-1.example.com");
    assert_eq!(event_time_ms(5_000_000_000, 10_000, 6_000_000_000), 9_000);
}

#[test]
fn percentiles_are_of_the_sorted_times() {
    let times: Vec<u64> = (1..=100).collect();
    assert_eq!(percentile(&times, 50), 50);
    assert_eq!(percentile(&times, 99), 99);
    assert_eq!(percentile(&vec![], 50), 0);
}

fn event(frame: &[u8], ip_offset: usize, ns: u64) -> Vec<u8> {
    let mut item = Vec::new();
    item.extend_from_slice(&ns.to_le_bytes());
    item.extend_from_slice(&3u32.to_le_bytes());
    item.extend_from_slice(&(frame.len() as u32).to_le_bytes());
    item.extend_from_slice(&(ip_offset as u16).to_le_bytes());
    item.extend_from_slice(&[4, 1, 2, 0, 0, 0, 0, 1, 1, 0, 0, 0, 0, 0]);
    item.extend_from_slice(frame);
    item
}

#[test]
fn captured_events_reach_the_monitor() {
    let mut registry = DeviceRegistry { entries: Table::new() };
    let (key, known) = device(1, vec!["192.168.9.10"]);
    registry.entries.insert(key, known);
    let topology = TopologySnapshot::from_interfaces(vec![]);
    let mut monitor = DnsMonitor::new(true, false, 10, vec![]);
    let (query, ip_offset) = dns_query_frame(false);
    let item = event(&query, ip_offset, 5_000_000_000);
    assert_eq!(item.len(), DNS_HEADER_BYTES + query.len());

    let header = read_header(&item, false).unwrap();
    assert_eq!((header.timestamp_ns, header.ifindex), (5_000_000_000, 3));
    assert_eq!(header.captured_len as usize, query.len());
    assert_eq!((header.ip_offset as usize, header.ip_version, header.direction), (ip_offset, 4, 1));
    assert_eq!((header.mac, header.has_mac), ([2, 0, 0, 0, 0, 1], 1));
    assert_eq!(read_header(&item, true).unwrap().ifindex, 3u32.swap_bytes());
    assert_eq!(read_header(&item, true).unwrap().timestamp_ns, 5_000_000_000u64.swap_bytes());
    assert!(read_header(&item[..31], false).is_none());

    assert!(take_event(&mut monitor, &registry, &topology, &item, 10_000, 6_000_000_000, false).is_some());
    let kept = monitor.records_for_persistence();
    assert_eq!(kept.len(), 1);
    assert_eq!((kept[0].timestamp, kept[0].domain.as_str()), (9_000, "probe-1.example.com"));
    assert_eq!((kept[0].device_name.as_str(), kept[0].iface.as_str()), ("host-1", "br-lan"));

    // Cut off in the header, cut off in the packet, and no DNS at all.
    for broken in [&item[..20], &item[..item.len() - 1], &event(&[0; 60], 14, 1)[..]] {
        assert!(take_event(&mut monitor, &registry, &topology, broken, 10_000, 0, false).is_none());
    }
    assert_eq!(monitor.stats(10_000).capture_parse_errors, 3);
    assert_eq!(monitor.records_for_persistence().len(), 1);
}

#[test]
fn repeated_messages_are_ignored() {
    let mut monitor = DnsMonitor::new(true, false, 10, vec![]);
    let at = |ms: u64| DnsPacketHeader {
        timestamp_ns: ms * 1_000_000,
        ..DnsPacketHeader::default()
    };
    let (frame, ip_offset) = dns_response_frame();
    let answer = || parse_dns_packet(&frame, ip_offset, 4).unwrap();
    let query = || {
        let (frame, ip_offset) = dns_query_frame(false);
        parse_dns_packet(&frame, ip_offset, 4).unwrap()
    };
    monitor.ingest(query(), at(1_000), 1_000, DeviceIdentity::default());
    monitor.ingest(query(), at(1_499), 1_499, DeviceIdentity::default());
    assert_eq!(monitor.records_for_persistence().len(), 1);
    monitor.ingest(query(), at(1_500), 1_500, DeviceIdentity::default());
    assert_eq!(monitor.records_for_persistence().len(), 2);

    // The first response answers the older query; its repetition answers none.
    monitor.ingest(answer(), at(1_600), 1_600, DeviceIdentity::default());
    monitor.ingest(answer(), at(2_099), 2_099, DeviceIdentity::default());
    let times: Vec<Option<u64>> =
        monitor.records_for_persistence().iter().map(|r| r.response_time_ms).collect();
    assert_eq!(times, vec![Some(600), None]);
    monitor.ingest(answer(), at(2_100), 2_100, DeviceIdentity::default());
    let times: Vec<Option<u64>> =
        monitor.records_for_persistence().iter().map(|r| r.response_time_ms).collect();
    assert_eq!(times, vec![Some(600), Some(600)]);
}

#[test]
fn stored_records_come_back_in_their_order() {
    let mut first = record();
    first.timestamp = 1;
    let mut open = record();
    open.timestamp = 2;
    open.response_code = None;
    open.response_time_ms = None;
    let mut monitor = DnsMonitor::new(true, true, 5, vec![]);
    monitor.restore_records(vec![first, open]);
    let kept = monitor.records_for_persistence();
    let listed: Vec<(u64, Option<&str>)> =
        kept.iter().map(|r| (r.timestamp, r.response_code.as_deref())).collect();
    assert_eq!(listed, vec![(1, Some("NXDOMAIN")), (2, Some("NO_RESPONSE"))]);
}

#[test]
fn every_record_is_on_one_page() {
    let mut monitor = DnsMonitor::new(true, true, 50, vec![]);
    let records = (0..25u64)
        .map(|i| {
            let mut r = record();
            r.timestamp = i;
            r
        })
        .collect();
    monitor.restore_records(records);
    let page = |page: usize| {
        let query = DnsQueriesQuery {
            page: Some(page),
            page_size: Some(10),
            ..DnsQueriesQuery::default()
        };
        let r = monitor.queries(&query, 0);
        (r.queries.iter().map(|q| q.timestamp).collect::<Vec<u64>>(), r.total, r.total_pages)
    };
    assert_eq!(page(1), ((15..25).rev().collect(), 25, 3));
    assert_eq!(page(3), ((0..5).rev().collect(), 25, 3));
    assert_eq!(page(4), (vec![], 25, 3));
    assert_eq!(page(usize::MAX), (vec![], 25, 3));
}
