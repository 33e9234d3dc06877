use bandix_plus::attach::{
    attach_point, dns_buffer_bytes, kernel_at_least, management_ports, missing_keys,
    parse_interface_address, resolve_backend, router_addresses, validate_arguments, ArgumentError,
    AttachError, AttachPoint, ResolvedBackend,
};
use bandix_plus::cidr::{ipv4_key, ipv6_key, parse_cidr_to_u32};
use bandix_plus::hosts::{list_hostname_by_mac, parse_dhcp_hosts, parse_dnsmasq_leases};
use bandix_plus::interfaces::{
    list_interface_subnets, list_interfaces, InterfaceAddress, InterfaceEntry,
};
use bandix_plus::ip::{parse_ip_text, IpAddr};
use bandix_plus::options::{LogLevel, Options, RawOptions, TcBackend, TcOrder};
use bandix_plus::system::{
    check_interface_exist, infer_role, ipv6_addr_type, list_neighbors_filtered,
    pick_best_neighbor_state, redact_ipv6_cidr_for_log, KindFacts,
};
use bandix_plus::table::Table;
use bandix_plus::topology::{Interface, InterfaceRole, Ipv6AddrType, SystemFacts, TopologySnapshot};

#[test]
fn kernel_versions_are_compared() {
    assert!(kernel_at_least(Some("6.6.0"), 6, 6, 0));
    assert!(kernel_at_least(Some("6.12.1-openwrt"), 6, 6, 0));
    assert!(!kernel_at_least(Some("6.1.141"), 6, 6, 0));
    assert!(kernel_at_least(Some("6.6-rc1"), 6, 6, 0));
    assert!(!kernel_at_least(Some("6.6.0-rc1"), 6, 6, 1));
    assert!(!kernel_at_least(Some("linux"), 0, 0, 1));
    assert!(!kernel_at_least(None, 0, 0, 0));
}

#[test]
fn programs_are_attached_as_asked() {
    let backend = |asked, order, priority, tcx| resolve_backend(asked, order, priority, tcx);
    assert_eq!(backend(TcBackend::Auto, TcOrder::First, None, true), Ok(ResolvedBackend::Tcx));
    assert_eq!(backend(TcBackend::Auto, TcOrder::First, None, false), Ok(ResolvedBackend::Netlink));
    assert_eq!(backend(TcBackend::Tcx, TcOrder::First, None, false), Err(AttachError::KernelTooOld));
    assert_eq!(
        backend(TcBackend::Tcx, TcOrder::First, Some(3), true),
        Err(AttachError::PriorityWithoutNetlink)
    );
    assert_eq!(
        backend(TcBackend::Netlink, TcOrder::After, None, true),
        Err(AttachError::OrderWithNetlink)
    );
    let tcx = |order, anchor| attach_point(ResolvedBackend::Tcx, order, None, anchor);
    assert_eq!(tcx(TcOrder::Before, Some(7)), Ok(AttachPoint::Before(7)));
    assert_eq!(tcx(TcOrder::After, None), Err(AttachError::AnchorMissing));
    assert_eq!(tcx(TcOrder::Last, None), Ok(AttachPoint::Last));
    let netlink = |order, priority| attach_point(ResolvedBackend::Netlink, order, priority, None);
    assert_eq!(netlink(TcOrder::First, None), Ok(AttachPoint::Priority(1)));
    assert_eq!(netlink(TcOrder::Default, None), Ok(AttachPoint::Priority(0)));
    assert_eq!(netlink(TcOrder::Last, None), Ok(AttachPoint::Priority(65535)));
    assert_eq!(netlink(TcOrder::Last, Some(5)), Ok(AttachPoint::Priority(5)));
    assert_eq!((dns_buffer_bytes(true), dns_buffer_bytes(false)), (1024 * 1024, 4096));
}

fn entry(name: &str, ifindex: &str) -> InterfaceEntry {
    InterfaceEntry {
        name: name.into(),
        ifindex: Some(ifindex.into()),
        address: Some("02:00:00:00:00:01\n".into()),
        operstate: Some("up\n".into()),
        mtu: Some("1500\n".into()),
        kind: KindFacts {
            type_text: Some("1".into()),
            has_bridge: true,
            uevent: String::new(),
            has_tun_flags: false,
        },
    }
}

fn address(name: &str, ip: &str, mask: &str) -> InterfaceAddress {
    InterfaceAddress {
        name: name.into(),
        flags: 1,
        address: parse_ip_text(ip),
        netmask: parse_ip_text(mask),
    }
}

#[test]
fn interfaces_make_up_the_topology() {
    let addrs = vec![
        address("br-lan", "10.0.0.1", "255.255.255.0"),
        address("br-lan", "2001:db8::1", "ffff:ffff:ffff:ffff::"),
    ];
    let all = list_interfaces(&vec![entry("br-lan", "7"), entry("bad", "x")], &addrs);
    assert_eq!(all.len(), 1);
    assert_eq!((all[0].ifindex, all[0].mtu, all[0].role), (7, Some(1500), InterfaceRole::Bridge));
    assert_eq!(check_interface_exist(&vec!["br-lan".into()], &all), Ok(()));
    assert_eq!(check_interface_exist(&vec!["br-lan".into(), "eth9".into()], &all), Err("eth9".to_string()));
    let subnets = list_interface_subnets(&addrs);
    assert_eq!(subnets.get(&"br-lan".to_string()).unwrap().len(), 2);
    let mut zones = Table::new();
    zones.insert("br-lan".to_string(), "lan".to_string());
    let topology = TopologySnapshot::discover(&all, &SystemFacts { subnets, zones, masters: Table::new() });
    let found = topology.by_ifindex(7).unwrap();
    assert_eq!((found.name.as_str(), found.zone.as_str()), ("br-lan", "lan"));
    assert_eq!(topology.ifindex_by_name(" br-lan "), Some(7));
    let given = |raw: RawOptions| Options::from_raw(raw).unwrap();
    let named = || RawOptions { iface: vec!["br-lan".into()], ..RawOptions::default() };
    let settings = validate_arguments(&given(named()), &all).unwrap();
    assert_eq!(
        (settings.order, settings.backend, settings.level),
        (TcOrder::Default, TcBackend::Auto, LogLevel::Info)
    );
    let refused = |raw: RawOptions| validate_arguments(&given(raw), &all).unwrap_err();
    assert!(matches!(refused(RawOptions::default()), ArgumentError::NoInterface));
    assert!(matches!(
        refused(RawOptions { iface: vec!["eth9".into()], ..RawOptions::default() }),
        ArgumentError::MissingInterface(name) if name == "eth9"
    ));
    assert!(matches!(refused(RawOptions { tc_order: Some("x".into()), ..named() }), ArgumentError::Order));
    assert!(matches!(refused(RawOptions { tc_backend: Some("x".into()), ..named() }), ArgumentError::Backend));
    assert!(matches!(refused(RawOptions { log_level: Some("x".into()), ..named() }), ArgumentError::Level));
}

#[test]
fn filters_hold_the_routers_own_addresses() {
    let topology = TopologySnapshot::from_interfaces(vec![Interface {
        ifindex: 1,
        name: "br-lan".into(),
        role: InterfaceRole::Bridge,
        zone: "lan".into(),
        parent_ifindex: None,
        ipv4_cidrs: vec!["10.0.0.1/24".into(), "10.0.0.1/16".into(), "junk".into()],
        ipv6_cidrs: vec!["fe80::1%br-lan/64".into()],
    }]);
    let keys = router_addresses(&topology);
    assert_eq!(keys.len(), 2);
    assert_eq!((keys[0].ip, keys[0].ip_version), ([0x0a000001, 0, 0, 0], 4));
    assert_eq!((keys[1].ip, keys[1].ip_version), ([0xfe800000, 0, 0, 1], 6));
    assert_eq!(parse_interface_address("10.0.0.1/24"), Some(IpAddr::V4([10, 0, 0, 1])));
    assert_eq!(management_ports(8787), vec![80, 443, 8787]);
    assert_eq!(management_ports(443), vec![80, 443]);
    assert_eq!(missing_keys(&vec![1u16, 2, 3], &vec![2u16, 9]), vec![1, 3]);
    assert_eq!(missing_keys(&vec![2u16, 9], &vec![1u16, 2, 3]), vec![9]);
}

#[test]
fn addresses_are_told_apart() {
    let kind = |text: &str| match parse_ip_text(text) {
        Some(IpAddr::V6(a)) => ipv6_addr_type(&a),
        _ => panic!("no IPv6 address"),
    };
    assert_eq!(kind("fe80::1"), Ipv6AddrType::LinkLocal);
    assert_eq!(kind("febf::1"), Ipv6AddrType::LinkLocal);
    assert_ne!(kind("2001:db8::1"), Ipv6AddrType::LinkLocal);
    assert_eq!(parse_cidr_to_u32("10.1.2.3/8"), Some((0x0a000000, 0xff000000)));
    assert_eq!(parse_cidr_to_u32("10.1.2.3/33"), None);
    assert_eq!(ipv4_key("10.0.0.1"), Some(([0x0a000001, 0, 0, 0], 4)));
    assert_eq!(ipv6_key("::1%lo/128"), Some(([0, 0, 0, 1], 6)));
    assert_eq!(parse_ip_text("1.2.3.04"), None);
    assert_eq!(parse_ip_text("1::2::3"), None);
    assert_eq!(parse_ip_text("::ffff:1.2.3.4").map(|a| a.to_text()).as_deref(), Some("::ffff:1.2.3.4"));
    let once = redact_ipv6_cidr_for_log("2408:820c:a93a:2040::1/60");
    assert_eq!(redact_ipv6_cidr_for_log(&once), once);
}

#[test]
fn roles_follow_the_kind() {
    let facts = |type_text: &str, bridge: bool, tun: bool| KindFacts {
        type_text: Some(type_text.into()),
        has_bridge: bridge,
        uevent: String::new(),
        has_tun_flags: tun,
    };
    assert_eq!(infer_role("lo", &facts("772", false, false)), InterfaceRole::Loopback);
    assert_eq!(infer_role("br-lan", &facts("1", true, false)), InterfaceRole::Bridge);
    assert_eq!(infer_role("tun0", &facts("65534", false, true)), InterfaceRole::Tun);
    assert_eq!(infer_role("eth0", &facts("1", false, false)), InterfaceRole::Ethernet);
}

#[test]
fn neighbors_are_read_from_both_tables() {
    let arp = "IP address HW type Flags HW address Mask Device\n\
               10.0.0.5 0x1 0x2 02:00:00:00:00:01 * br-lan\n\
               10.9.0.5 0x1 0x2 02:00:00:00:00:02 * br-lan\n\
               10.0.0.6 0x1 0x2 00:00:00:00:00:00 * br-lan\n";
    let neigh = b"2001:db8::5 dev br-lan lladdr 02:00:00:00:00:01 REACHABLE\n";
    let mut subnets = Table::new();
    subnets.insert("br-lan".to_string(), vec!["10.0.0.1/24".to_string()]);
    let found = list_neighbors_filtered(&vec!["br-lan".into()], &subnets, Some(arp), Some(neigh));
    let ips: Vec<&str> = found.iter().map(|n| n.ip.as_str()).collect();
    assert_eq!(ips, vec!["10.0.0.5", "2001:db8::5"]);
    assert!(list_neighbors_filtered(&vec!["eth0".into()], &subnets, Some(arp), None).is_empty());
    assert_eq!(pick_best_neighbor_state("STALE", "REACHABLE"), "REACHABLE");
}

#[test]
fn names_come_from_leases_and_configuration() {
    let leases = "1700000000 02:00:00:00:00:01 10.0.0.5 phone 01:02\n1 02:00:00:00:00:02 10.0.0.6 * x\n";
    let config = "config host\n\toption name 'desk'\n\tlist mac '02:00:00:00:00:02'\n";
    let mac = |last: u8| [2, 0, 0, 0, 0, last];
    assert_eq!(parse_dnsmasq_leases(leases).get(&mac(1)).map(String::as_str), Some("phone"));
    assert_eq!(parse_dnsmasq_leases(leases).len(), 1);
    assert_eq!(parse_dhcp_hosts(config).get(&mac(2)).map(String::as_str), Some("desk"));
    let both = list_hostname_by_mac(Some(leases), Some(config));
    assert_eq!(both.len(), 2);
    assert!(list_hostname_by_mac(None, None).is_empty());
}

#[test]
fn addresses_are_read_as_they_are_written() {
    let v6 = |s: [u16; 8]| {
        let mut a = [0u8; 16];
        for (i, n) in s.iter().enumerate() {
            a[2 * i] = (n >> 8) as u8;
            a[2 * i + 1] = *n as u8;
        }
        IpAddr::V6(a)
    };
    for (address, text) in [
        (IpAddr::V4([0, 10, 200, 255]), "0.10.200.255"),
        (v6([0, 0, 0, 0, 0, 0, 0, 0]), "::"),
        (v6([0, 0, 0, 0, 0, 0, 0, 1]), "::1"),
        (v6([1, 0, 0, 0, 0, 0, 0, 0]), "1::"),
        (v6([0x2001, 0xdb8, 0, 0, 1, 0, 0, 1]), "2001:db8::1:0:0:1"),
        (v6([1, 0, 0, 2, 0, 0, 0, 3]), "1:0:0:2::3"),
        (v6([1, 0, 2, 3, 4, 5, 6, 7]), "1:0:2:3:4:5:6:7"),
        (v6([0, 0, 0, 0, 0, 0xffff, 0x0102, 0x0304]), "::ffff:1.2.3.4"),
        (v6([0, 0, 0, 0, 0, 0xfffe, 0x0102, 0x0304]), "::fffe:102:304"),
    ] {
        assert_eq!(address.to_text(), text);
        assert_eq!(parse_ip_text(text), Some(address));
    }
    assert_eq!(parse_ip_text("::1.2.3.4"), Some(v6([0, 0, 0, 0, 0, 0, 0x0102, 0x0304])));
    for text in ["", ":", "1:2", "1.2.3", "1.2.3.4.", "1::2::3", "12345::", "1:2:3:4:5:6:7:8:9"] {
        assert_eq!(parse_ip_text(text), None);
    }
}
