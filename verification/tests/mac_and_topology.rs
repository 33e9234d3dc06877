use bandix_plus::cidr;
use bandix_plus::firewall::{
    list_firewall_zones_by_device, parse_firewall_zones_by_device, ZoneError,
};
use bandix_plus::json::Json;
use bandix_plus::mac;
use bandix_plus::system;
use bandix_plus::table::Table;
use bandix_plus::topology::{infer_parent_ifindex, resolve_zone, InterfaceRole};

fn zones(name: &str, zone: &str) -> Table<String, String> {
    let mut t = Table::new();
    t.insert(name.to_string(), zone.to_string());
    t
}

#[test]
fn firewall_zone_is_used_verbatim() {
    assert_eq!(resolve_zone("br-lan", &zones("br-lan", "wan")), "wan");
}

#[test]
fn custom_firewall_zone_name_is_preserved() {
    assert_eq!(resolve_zone("br-iot", &zones("br-iot", "iot")), "iot");
}

#[test]
fn interface_without_firewall_zone_is_unknown() {
    let zones: Table<String, String> = Table::new();
    assert_eq!(resolve_zone("br-lan", &zones), "unknown");
}

#[test]
fn infer_parent_ifindex_with_dot() {
    let mut map = Table::new();
    map.insert("br-lan".to_string(), 5u32);
    assert_eq!(infer_parent_ifindex("br-lan.1", &map), Some(5));
}

#[test]
fn infer_parent_ifindex_no_dot() {
    let map: Table<String, u32> = Table::new();
    assert_eq!(infer_parent_ifindex("eth0", &map), None);
}

#[test]
fn mac_to_string() {
    let mac = [0xaa, 0xbb, 0xcc, 0xdd, 0xee, 0xff];
    assert_eq!(mac::to_string(&mac), "aa:bb:cc:dd:ee:ff");
}

#[test]
fn mac_from_str_valid() {
    let mac = mac::from_str("aa:bb:cc:dd:ee:ff").unwrap();
    assert_eq!(mac, [0xaa, 0xbb, 0xcc, 0xdd, 0xee, 0xff]);
}

#[test]
fn mac_from_str_invalid() {
    assert!(mac::from_str("aa:bb:cc").is_err());
    assert!(mac::from_str("gg:bb:cc:dd:ee:ff").is_err());
    assert!(mac::from_str("aa:bb:cc:dd:ee").is_err());
}

#[test]
fn mac_errors_tell_form_from_digits() {
    assert_eq!(mac::from_str("aa:bb:cc"), Err(mac::MacError::Format));
    assert_eq!(mac::from_str("gg:bb:cc:dd:ee:ff"), Err(mac::MacError::Hex));
    assert_eq!(mac::from_str("aa:bb:cc:dd:ee:ff:00"), Err(mac::MacError::Hex));
    assert_eq!(mac::from_str(" AA:b: +c:d:e:f "), Ok([0xaa, 0xb, 0xc, 0xd, 0xe, 0xf]));
}

#[test]
fn written_mac_is_read_back() {
    for mac in [[0u8; 6], [0xff; 6], [1, 2, 3, 40, 50, 60]] {
        assert_eq!(mac::from_str(&mac::to_string(&mac)), Ok(mac));
    }
}

#[test]
fn is_special_mac_address() {
    assert!(mac::is_special_mac_address(&[0; 6]));
    assert!(mac::is_special_mac_address(&[0xff; 6]));
    assert!(mac::is_special_mac_address(&[0x01, 0, 0, 0, 0, 0]));
    assert!(!mac::is_special_mac_address(&[0x02, 0, 0, 0, 0, 0]));
}

#[test]
fn ipv4_in_cidr() {
    assert!(cidr::ipv4_in_cidr("192.168.1.100", "192.168.1.0/24"));
    assert!(!cidr::ipv4_in_cidr("192.168.2.1", "192.168.1.0/24"));
    assert!(!cidr::ipv4_in_cidr("192.168.1.1", "invalid"));
    assert!(!cidr::ipv4_in_cidr("x.x.x.x", "192.168.1.0/24"));
}

#[test]
fn interface_role_is_included_in_topology() {
    assert!(!InterfaceRole::Loopback.is_included_in_topology(true));
    assert!(!InterfaceRole::Loopback.is_included_in_topology(false));
    assert!(InterfaceRole::Ethernet.is_included_in_topology(true));
    assert!(!InterfaceRole::Ethernet.is_included_in_topology(false));
}

fn text(s: &str) -> Json {
    Json::Text(s.to_string())
}

fn object(fields: Vec<(&str, Json)>) -> Json {
    Json::Object(fields.into_iter().map(|(k, v)| (k.to_string(), v)).collect())
}

#[test]
fn parse_firewall_zones_resolves_logical_networks_to_devices() {
    let firewall = object(vec![(
        "values",
        object(vec![
            (
                "cfg_lan",
                object(vec![
                    (".type", text("zone")),
                    ("name", text("lan")),
                    ("network", Json::List(vec![text("lan")])),
                ]),
            ),
            (
                "cfg_wan",
                object(vec![
                    (".type", text("zone")),
                    ("name", text("wan")),
                    ("network", text("wan")),
                    ("device", Json::List(vec![text("eth2")])),
                ]),
            ),
            (
                "cfg_iot",
                object(vec![
                    (".type", text("zone")),
                    ("name", text("iot")),
                    ("network", Json::List(vec![text("iot")])),
                ]),
            ),
            (
                "cfg_rule",
                object(vec![(".type", text("rule")), ("name", text("not-a-zone"))]),
            ),
        ]),
    )]);
    let network = object(vec![(
        "interface",
        Json::List(vec![
            object(vec![
                ("interface", text("lan")),
                ("device", text("br-lan")),
                ("l3_device", text("br-lan")),
            ]),
            object(vec![
                ("interface", text("wan")),
                ("device", text("eth1")),
                ("l3_device", text("pppoe-wan")),
            ]),
            object(vec![
                ("interface", text("iot")),
                ("device", text("br-iot")),
                ("l3_device", text("br-iot")),
            ]),
        ]),
    )]);

    let zones = parse_firewall_zones_by_device(&firewall, &network).unwrap();
    let zone = |name: &str| zones.get(&name.to_string()).map(String::as_str);
    assert_eq!(zone("br-lan"), Some("lan"));
    assert_eq!(zone("pppoe-wan"), Some("wan"));
    assert_eq!(zone("eth1"), Some("wan"));
    assert_eq!(zone("eth2"), Some("wan"));
    assert_eq!(zone("br-iot"), Some("iot"));
}

#[test]
fn firewall_zones_are_read_from_json_text() {
    let firewall = br#"{"values": {"a": {".type": "zone", "name": "lan", "network": "lan"}}}"#;
    let network = br#"{"interface": [{"interface": "lan", "device": "br-lan"}]}"#;
    let zones = list_firewall_zones_by_device(firewall, network).unwrap();
    assert_eq!(zones.get(&"br-lan".to_string()).map(String::as_str), Some("lan"));
    assert_eq!(zones.get(&"lan".to_string()).map(String::as_str), Some("lan"));
    assert_eq!(zones.len(), 2);
    assert_eq!(
        list_firewall_zones_by_device(b"{", network).err(),
        Some(ZoneError::FirewallSyntax)
    );
    assert_eq!(
        list_firewall_zones_by_device(firewall, b"[1,").err(),
        Some(ZoneError::NetworkSyntax)
    );
    assert_eq!(
        list_firewall_zones_by_device(firewall, b"{}").err(),
        Some(ZoneError::NoInterfaces)
    );
    assert_eq!(
        list_firewall_zones_by_device(b"{}", network).err(),
        Some(ZoneError::NoValues)
    );
}

#[test]
fn redact_ipv6_cidr_for_log_keeps_four_chars_each_end() {
    assert_eq!(
        system::redact_ipv6_cidr_for_log("fe80::82af:caff:fe88:215a/64"),
        "fe80::****:****:****:215a/64"
    );
    assert_eq!(
        system::redact_ipv6_cidr_for_log("2408:820c:a93a:2040::1/60"),
        "2408:****:****:***0::1/60"
    );
    assert_eq!(
        system::redact_ipv6_cidr_for_log("2408:820c:a931:e11f:e9ae:4445:8d93:73bc/128"),
        "2408:****:****:****:****:****:****:73bc/128"
    );
    assert_eq!(system::redact_ipv6_cidr_for_log("fe80::1%eth0"), "****::*%eth0");
}
