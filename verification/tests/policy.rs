use bandix_plus::clock::LocalClock;
use bandix_plus::desired::{compute_desired_limits, desired_limits, is_rule_active, observed_pairs};
use bandix_plus::keys::DeviceTrafficKey;
use bandix_plus::limits::{
    bytes_to_kbps, kbps_to_bps, merge_limit, stale_keys, stricter_limit, RateLimitValue,
};
use bandix_plus::policy::{
    add_guest_whitelist, add_scheduled_rule, create_scheduled_rule, delete_guest_default,
    delete_iface_limit, delete_scheduled_rule, get_guest_defaults, get_guest_whitelist,
    get_iface_limits, get_scheduled_rules, init_runtime, log_policy, parse_policy, policy_items,
    remove_guest_whitelist, set_guest_default, set_iface_limit, update_scheduled_rule,
    CreateScheduledRuleRequest, GuestWhitelistEntryRequest, ParsedPolicy, PolicyRuntime,
    SetInterfaceRateLimitRequest, UpdateScheduledRuleRequest,
};
use bandix_plus::schedule::{parse_hhmm, PolicyError, TimeSlotApi};
use bandix_plus::table::Table;
use bandix_plus::topology::{Interface, InterfaceRole, TopologySnapshot};
use chrono::TimeZone;

fn rate_limit(down_v4: u64, down_v6: u64, up_v4: u64, up_v6: u64) -> RateLimitValue {
    RateLimitValue {
        down_v4_bps: down_v4,
        down_v6_bps: down_v6,
        up_v4_bps: up_v4,
        up_v6_bps: up_v6,
    }
}

#[test]
fn stricter_limit_a_zero() {
    assert_eq!(stricter_limit(0, 100), 100);
}

#[test]
fn stricter_limit_b_zero() {
    assert_eq!(stricter_limit(100, 0), 100);
}

#[test]
fn stricter_limit_both_nonzero() {
    assert_eq!(stricter_limit(100, 50), 50);
    assert_eq!(stricter_limit(50, 100), 50);
}

#[test]
fn merge_limit_first_insert() {
    let mut map: Table<[u8; 6], RateLimitValue> = Table::new();
    let mac = [0xaa, 0xbb, 0xcc, 0xdd, 0xee, 0xff];
    merge_limit(&mut map, mac, rate_limit(100, 100, 100, 100));
    assert_eq!(map.get(&mac).unwrap().down_v4_bps, 100);
}

#[test]
fn merge_limit_stricter_wins() {
    let mut map: Table<[u8; 6], RateLimitValue> = Table::new();
    let mac = [0xaa, 0xbb, 0xcc, 0xdd, 0xee, 0xff];
    merge_limit(&mut map, mac, rate_limit(100, 100, 100, 100));
    merge_limit(&mut map, mac, rate_limit(50, 50, 50, 50));
    let v = map.get(&mac).unwrap();
    assert_eq!(v.down_v4_bps, 50);
    assert_eq!(v.up_v4_bps, 50);
}

#[test]
fn merge_limit_unlimited_plus_limited() {
    let mut map: Table<[u8; 6], RateLimitValue> = Table::new();
    let mac = [0xaa, 0xbb, 0xcc, 0xdd, 0xee, 0xff];
    merge_limit(&mut map, mac, rate_limit(0, 0, 0, 0));
    merge_limit(&mut map, mac, rate_limit(50, 50, 50, 50));
    let v = map.get(&mac).unwrap();
    assert_eq!(v.down_v4_bps, 50);
    assert_eq!(v.up_v4_bps, 50);
}

fn interface(ifindex: u32, name: &str, zone: &str) -> Interface {
    Interface {
        ifindex,
        name: name.to_string(),
        role: InterfaceRole::Ethernet,
        zone: zone.to_string(),
        parent_ifindex: None,
        ipv4_cidrs: vec![],
        ipv6_cidrs: vec![],
    }
}

fn mock_topology() -> TopologySnapshot {
    TopologySnapshot::from_interfaces(vec![interface(1, "eth0", "other")])
}

fn topology_with_guest() -> TopologySnapshot {
    TopologySnapshot::from_interfaces(vec![
        interface(1, "eth0", "other"),
        interface(2, "guest0", "guest"),
    ])
}

fn monday_noon_2024_ms() -> u64 {
    chrono::Local
        .with_ymd_and_hms(2024, 1, 15, 12, 0, 0)
        .unwrap()
        .timestamp_millis() as u64
}

fn rule(start: &str, end: &str, days: Vec<u8>, kbps: u64) -> CreateScheduledRuleRequest {
    CreateScheduledRuleRequest {
        mac: "aa:bb:cc:dd:ee:ff".to_string(),
        time_slot: TimeSlotApi {
            start: start.to_string(),
            end: end.to_string(),
            days,
        },
        down_v4_kbps: kbps,
        down_v6_kbps: kbps,
        up_v4_kbps: kbps,
        up_v6_kbps: kbps,
    }
}

fn limit_of(iface: &str, kbps: u64) -> SetInterfaceRateLimitRequest {
    SetInterfaceRateLimitRequest {
        iface: iface.to_string(),
        down_v4_kbps: kbps,
        down_v6_kbps: kbps,
        up_v4_kbps: kbps,
        up_v6_kbps: kbps,
    }
}

fn with_static(mac: [u8; 6], limit: RateLimitValue) -> PolicyRuntime {
    let mut base = ParsedPolicy {
        device_static: Table::new(),
    };
    base.device_static.insert(mac, limit);
    init_runtime(base)
}

#[test]
fn compute_desired_device_static_only() {
    let mac = [0xaa, 0xbb, 0xcc, 0xdd, 0xee, 0xff];
    let rt = with_static(mac, rate_limit(12500, 6250, 10000, 5000));
    let (dev, iface_dev, iface) =
        compute_desired_limits(&rt, &[], &mock_topology(), monday_noon_2024_ms());
    assert_eq!(dev.get(&mac).unwrap().down_v4_bps, 12500);
    assert!(iface_dev.is_empty());
    assert!(iface.is_empty());
}

#[test]
fn compute_desired_device_static_plus_scheduled_in_slot() {
    let mac = [0xaa, 0xbb, 0xcc, 0xdd, 0xee, 0xff];
    let mut rt = with_static(mac, rate_limit(12500, 12500, 12500, 12500));
    create_scheduled_rule(&mut rt, rule("00:00", "23:59", vec![1, 2, 3, 4, 5, 6, 7], 50)).unwrap();
    let (dev, _, _) = compute_desired_limits(&rt, &[], &mock_topology(), monday_noon_2024_ms());
    assert_eq!(dev.get(&mac).unwrap().down_v4_bps, 6250);
}

#[test]
fn compute_desired_device_static_plus_scheduled_out_of_slot() {
    let mac = [0xaa, 0xbb, 0xcc, 0xdd, 0xee, 0xff];
    let mut rt = with_static(mac, rate_limit(12500, 12500, 12500, 12500));
    create_scheduled_rule(&mut rt, rule("09:00", "18:00", vec![1, 2, 3, 4, 5], 50)).unwrap();
    let evening_ms = chrono::Local
        .with_ymd_and_hms(2024, 1, 15, 20, 0, 0)
        .unwrap()
        .timestamp_millis() as u64;
    let (dev, _, _) = compute_desired_limits(&rt, &[], &mock_topology(), evening_ms);
    assert_eq!(dev.get(&mac).unwrap().down_v4_bps, 12500);
}

#[test]
fn compute_desired_multi_limit_overlay() {
    let mac = [0xaa, 0xbb, 0xcc, 0xdd, 0xee, 0xff];
    let mut rt = with_static(mac, rate_limit(12500, 12500, 12500, 12500));
    create_scheduled_rule(&mut rt, rule("00:00", "23:59", vec![1, 2, 3, 4, 5, 6, 7], 60)).unwrap();
    let topo = topology_with_guest();
    set_guest_default(&mut rt, limit_of("guest0", 40), &topo).unwrap();
    let observed = [(2u32, mac)];
    let (dev, iface_dev, _) = compute_desired_limits(&rt, &observed, &topo, monday_noon_2024_ms());
    assert_eq!(dev.get(&mac).unwrap().down_v4_bps, 7500);
    assert_eq!(iface_dev.get(&(2, mac)).unwrap().down_v4_bps, 5000);
}

#[test]
fn compute_desired_iface_limit() {
    let mut rt = init_runtime(parse_policy());
    let topo = mock_topology();
    set_iface_limit(
        &mut rt,
        SetInterfaceRateLimitRequest {
            iface: "eth0".to_string(),
            down_v4_kbps: 200,
            down_v6_kbps: 100,
            up_v4_kbps: 160,
            up_v6_kbps: 80,
        },
        &topo,
    )
    .unwrap();
    let (_, _, iface) = compute_desired_limits(&rt, &[], &topo, monday_noon_2024_ms());
    assert_eq!(iface.get(&1).unwrap().down_v4_bps, 25000);
}

#[test]
fn compute_desired_guest_default() {
    let mac = [0xaa, 0xbb, 0xcc, 0xdd, 0xee, 0xff];
    let mut rt = init_runtime(parse_policy());
    let topo = topology_with_guest();
    set_guest_default(&mut rt, limit_of("guest0", 50), &topo).unwrap();
    let observed = [(2u32, mac)];
    let (_, iface_dev, _) = compute_desired_limits(&rt, &observed, &topo, monday_noon_2024_ms());
    assert_eq!(iface_dev.get(&(2, mac)).unwrap().down_v4_bps, 6250);
}

#[test]
fn compute_desired_guest_whitelist_skips_limit() {
    let mac = [0xaa, 0xbb, 0xcc, 0xdd, 0xee, 0xff];
    let mut rt = init_runtime(parse_policy());
    let topo = topology_with_guest();
    set_guest_default(&mut rt, limit_of("guest0", 50), &topo).unwrap();
    add_guest_whitelist(
        &mut rt,
        GuestWhitelistEntryRequest {
            iface: "guest0".to_string(),
            mac: "aa:bb:cc:dd:ee:ff".to_string(),
        },
        &topo,
    )
    .unwrap();
    let observed = [(2u32, mac)];
    let (_, iface_dev, _) = compute_desired_limits(&rt, &observed, &topo, monday_noon_2024_ms());
    assert!(iface_dev.is_empty());
}

fn request(start: &str, end: &str, days: Vec<u8>, rates: [u64; 4]) -> CreateScheduledRuleRequest {
    CreateScheduledRuleRequest {
        down_v4_kbps: rates[0],
        down_v6_kbps: rates[1],
        up_v4_kbps: rates[2],
        up_v6_kbps: rates[3],
        ..rule(start, end, days, 0)
    }
}

#[test]
fn create_scheduled_rule_valid() {
    let mut rt = init_runtime(parse_policy());
    let req = request("09:00", "18:00", vec![1, 2, 3, 4, 5], [1000, 500, 800, 400]);
    let api = create_scheduled_rule(&mut rt, req).unwrap();
    assert_eq!(api.mac, "aa:bb:cc:dd:ee:ff");
    assert_eq!(api.time_slot.start, "09:00");
    assert_eq!(api.time_slot.end, "18:00");
    assert_eq!(rt.scheduled_rules.len(), 1);
}

#[test]
fn create_scheduled_rule_invalid_time() {
    let mut rt = init_runtime(parse_policy());
    let req = request("25:00", "18:00", vec![1], [1000, 0, 800, 0]);
    assert!(create_scheduled_rule(&mut rt, req).is_err());
}

#[test]
fn create_scheduled_rule_invalid_days() {
    let mut rt = init_runtime(parse_policy());
    let req = request("09:00", "18:00", vec![], [1000, 0, 800, 0]);
    assert!(create_scheduled_rule(&mut rt, req).is_err());
}

#[test]
fn delete_scheduled_rule_exists() {
    let mut rt = init_runtime(parse_policy());
    let req = request("09:00", "18:00", vec![1], [1000, 0, 800, 0]);
    let api = create_scheduled_rule(&mut rt, req).unwrap();
    assert!(delete_scheduled_rule(&mut rt, &api.id).is_ok());
    assert!(rt.scheduled_rules.is_empty());
}

#[test]
fn delete_scheduled_rule_not_exists() {
    let mut rt = init_runtime(parse_policy());
    assert!(delete_scheduled_rule(&mut rt, "nonexistent").is_err());
}

#[test]
fn set_and_delete_iface_limit() {
    let mut rt = init_runtime(parse_policy());
    let topo = mock_topology();
    set_iface_limit(
        &mut rt,
        SetInterfaceRateLimitRequest {
            iface: "eth0".to_string(),
            down_v4_kbps: 100,
            down_v6_kbps: 50,
            up_v4_kbps: 80,
            up_v6_kbps: 40,
        },
        &topo,
    )
    .unwrap();
    assert_eq!(get_iface_limits(&rt).len(), 1);
    assert!(delete_iface_limit(&mut rt, "eth0").is_ok());
    assert!(delete_iface_limit(&mut rt, "eth0").is_err());
}

#[test]
fn set_iface_limit_unknown_iface() {
    let mut rt = init_runtime(parse_policy());
    let topo = mock_topology();
    let err = set_iface_limit(
        &mut rt,
        SetInterfaceRateLimitRequest {
            iface: "nonexistent".to_string(),
            down_v4_kbps: 100,
            down_v6_kbps: 0,
            up_v4_kbps: 80,
            up_v6_kbps: 0,
        },
        &topo,
    );
    assert!(err.is_err());
}

#[test]
fn delete_guest_default_exists() {
    let mut rt = init_runtime(parse_policy());
    let topo = mock_topology();
    set_guest_default(
        &mut rt,
        SetInterfaceRateLimitRequest {
            iface: "eth0".to_string(),
            down_v4_kbps: 100,
            down_v6_kbps: 0,
            up_v4_kbps: 80,
            up_v6_kbps: 0,
        },
        &topo,
    )
    .unwrap();
    assert!(delete_guest_default(&mut rt, "eth0").is_ok());
    assert!(delete_guest_default(&mut rt, "eth0").is_err());
}

#[test]
fn policy_items_serialize() {
    let mut rt = init_runtime(parse_policy());
    let req = request("09:00", "18:00", vec![1], [1000, 0, 800, 0]);
    create_scheduled_rule(&mut rt, req).unwrap();
    let topo = mock_topology();
    set_iface_limit(
        &mut rt,
        SetInterfaceRateLimitRequest {
            iface: "eth0".to_string(),
            down_v4_kbps: 100,
            down_v6_kbps: 0,
            up_v4_kbps: 80,
            up_v6_kbps: 0,
        },
        &topo,
    )
    .unwrap();
    let items = policy_items(&rt);
    assert!(items.iter().any(|i| i.scope == "iface" && i.iface.as_deref() == Some("eth0")));
    assert!(items
        .iter()
        .any(|i| i.scope == "device" && i.extra.as_deref().map(|e| e.contains("scheduled")).unwrap_or(false)));
}

#[test]
fn random_identifiers_have_their_form() {
    let mut rt = init_runtime(parse_policy());
    let a = create_scheduled_rule(&mut rt, rule("00:00", "01:00", vec![1], 1)).unwrap().id;
    let b = create_scheduled_rule(&mut rt, rule("00:00", "01:00", vec![1], 1)).unwrap().id;
    assert_ne!(a, b);
    for id in [a, b] {
        assert_eq!(id.len(), 36);
        assert_eq!(&id[14..15], "4");
        assert!(["8", "9", "a", "b"].contains(&&id[19..20]));
        for (i, c) in id.chars().enumerate() {
            if [8, 13, 18, 23].contains(&i) {
                assert_eq!(c, '-');
            } else {
                assert!(c.is_ascii_digit() || ('a'..='f').contains(&c));
            }
        }
    }
}

#[test]
fn rules_are_shown_changed_and_refused() {
    let mut rt = init_runtime(parse_policy());
    let made = add_scheduled_rule(&mut rt, rule("9:05", "23:59", vec![7, 1, 7], 80), "r1".to_string())
        .unwrap();
    assert_eq!(made.id, "r1");
    assert_eq!(made.time_slot.start, "09:05");
    assert_eq!(made.time_slot.days, vec![1, 7]);
    assert_eq!(made.down_v6_kbps, 80);
    let update = |mac: &str, start: &str, days: Vec<u8>| UpdateScheduledRuleRequest {
        mac: mac.to_string(),
        time_slot: TimeSlotApi {
            start: start.to_string(),
            end: "10:00".to_string(),
            days,
        },
        down_v4_kbps: 8,
        down_v6_kbps: 16,
        up_v4_kbps: 24,
        up_v6_kbps: 32,
    };
    let changed = update_scheduled_rule(&mut rt, "r1", update("02:00:00:00:00:01", "08:00", vec![3])).unwrap();
    assert_eq!((changed.id.as_str(), changed.mac.as_str()), ("r1", "02:00:00:00:00:01"));
    assert_eq!(rt.scheduled_rules[0].limit, rate_limit(1000, 2000, 3000, 4000));
    let shown = get_scheduled_rules(&rt);
    assert_eq!(shown.len(), 1);
    assert_eq!((shown[0].down_v4_kbps, shown[0].up_v6_kbps), (8, 32));
    let refused = |rt: &mut PolicyRuntime, req| update_scheduled_rule(rt, "r1", req).err();
    assert!(matches!(refused(&mut rt, update("02", "08:00", vec![3])), Some(PolicyError::Mac(_))));
    assert_eq!(refused(&mut rt, update("02:0:0:0:0:1", "0800", vec![3])), Some(PolicyError::TimeFormat));
    assert_eq!(refused(&mut rt, update("02:0:0:0:0:1", "a:00", vec![3])), Some(PolicyError::TimeNumber));
    assert_eq!(refused(&mut rt, update("02:0:0:0:0:1", "24:00", vec![3])), Some(PolicyError::TimeRange));
    assert_eq!(refused(&mut rt, update("02:0:0:0:0:1", "08:00", vec![8])), Some(PolicyError::DayRange));
    assert_eq!(refused(&mut rt, update("02:0:0:0:0:1", "08:00", vec![])), Some(PolicyError::NoDays));
    assert_eq!(
        update_scheduled_rule(&mut rt, "r2", update("02:0:0:0:0:1", "08:00", vec![1])).err(),
        Some(PolicyError::UnknownRule)
    );
    assert_eq!(get_scheduled_rules(&rt)[0].time_slot.start, "08:00");
}

#[test]
fn times_are_read_as_they_are_written() {
    assert_eq!(parse_hhmm("00:00"), Ok(0));
    assert_eq!(parse_hhmm("23:59"), Ok(1439));
    assert_eq!(parse_hhmm("+7:05"), Ok(425));
    assert_eq!(parse_hhmm("12:60"), Err(PolicyError::TimeRange));
    for minute in [0u16, 59, 60, 754, 1439] {
        assert_eq!(parse_hhmm(&bandix_plus::schedule::minute_to_hhmm(minute)), Ok(minute));
    }
}

#[test]
fn rates_come_back_from_limits() {
    assert_eq!(kbps_to_bps(50), 6250);
    assert_eq!(bytes_to_kbps(6250), 50);
    assert_eq!(bytes_to_kbps(6251), 50);
    assert_eq!(kbps_to_bps(u64::MAX), u64::MAX / 8);
    assert_eq!(bytes_to_kbps(u64::MAX), u64::MAX / 1000);
}

#[test]
fn rules_over_midnight_belong_to_the_day_they_start() {
    let mut rt = init_runtime(parse_policy());
    add_scheduled_rule(&mut rt, rule("22:00", "06:00", vec![1], 50), "n".to_string()).unwrap();
    let at = |weekday: u32, hour: u32, minute: u32| LocalClock {
        year: 2024,
        month: 1,
        day: 15,
        hour,
        minute,
        weekday,
    };
    let active = |c: LocalClock| is_rule_active(&rt.scheduled_rules[0], &c);
    assert!(active(at(0, 22, 0)));
    assert!(active(at(1, 6, 0)));
    assert!(!active(at(1, 6, 1)));
    assert!(!active(at(0, 6, 0)));
    assert!(!active(at(1, 23, 0)));
    let mac = [0xaa, 0xbb, 0xcc, 0xdd, 0xee, 0xff];
    let (dev, _, _) = desired_limits(&rt, &[], &mock_topology(), &Some(at(0, 23, 0)));
    assert_eq!(dev.get(&mac), Some(&rate_limit(6250, 6250, 6250, 6250)));
    let (dev, _, _) = desired_limits(&rt, &[], &mock_topology(), &None);
    assert!(dev.is_empty());
}

#[test]
fn guests_are_listed_in_order_and_forgotten_with_their_limit() {
    let mut rt = init_runtime(parse_policy());
    let topo = topology_with_guest();
    set_guest_default(&mut rt, limit_of("guest0", 40), &topo).unwrap();
    set_guest_default(&mut rt, limit_of("eth0", 80), &topo).unwrap();
    let names: Vec<String> = get_guest_defaults(&rt).into_iter().map(|x| x.iface).collect();
    assert_eq!(names, vec!["eth0", "guest0"]);
    let entry = |iface: &str, mac: &str| GuestWhitelistEntryRequest {
        iface: iface.to_string(),
        mac: mac.to_string(),
    };
    add_guest_whitelist(&mut rt, entry("guest0", "02:00:00:00:00:02"), &topo).unwrap();
    add_guest_whitelist(&mut rt, entry("guest0", "02:00:00:00:00:01"), &topo).unwrap();
    add_guest_whitelist(&mut rt, entry("eth0", "02:00:00:00:00:03"), &topo).unwrap();
    let listed: Vec<(String, String)> =
        get_guest_whitelist(&rt).into_iter().map(|x| (x.iface, x.mac)).collect();
    assert_eq!(
        listed,
        vec![
            ("eth0".to_string(), "02:00:00:00:00:03".to_string()),
            ("guest0".to_string(), "02:00:00:00:00:01".to_string()),
            ("guest0".to_string(), "02:00:00:00:00:02".to_string()),
        ]
    );
    assert_eq!(
        add_guest_whitelist(&mut rt, entry("wlan9", "02:00:00:00:00:03"), &topo),
        Err(PolicyError::UnknownInterface)
    );
    assert_eq!(
        remove_guest_whitelist(&mut rt, entry("eth0", "02:00:00:00:00:09")),
        Err(PolicyError::UnknownWhitelistEntry)
    );
    assert_eq!(remove_guest_whitelist(&mut rt, entry("eth0", "02:00:00:00:00:03")), Ok(()));
    assert_eq!(delete_guest_default(&mut rt, "guest0"), Ok(()));
    assert!(get_guest_whitelist(&rt).is_empty());
    assert_eq!(delete_guest_default(&mut rt, "guest0"), Err(PolicyError::UnknownGuestDefault));
    assert_eq!(delete_iface_limit(&mut rt, "guest0"), Err(PolicyError::UnknownInterfaceLimit));
}

#[test]
fn kernel_tables_are_brought_up_to_date() {
    let mut wanted: Table<u32, RateLimitValue> = Table::new();
    wanted.insert(2, rate_limit(1, 1, 1, 1));
    assert_eq!(stale_keys(&vec![1, 2, 3], &wanted), vec![1, 3]);
    let key = |ifindex: u32, last: u8, direction: u8| DeviceTrafficKey {
        ifindex,
        mac: [2, 0, 0, 0, 0, last],
        ip_version: 4,
        direction,
    };
    let seen = observed_pairs(&vec![key(1, 1, 1), key(1, 1, 2), key(2, 1, 1)]);
    assert_eq!(seen, vec![(1, [2, 0, 0, 0, 0, 1]), (2, [2, 0, 0, 0, 0, 1])]);
}

#[test]
fn a_shown_rule_makes_the_same_rule_and_a_deleted_one_is_gone() {
    let mut rt = init_runtime(parse_policy());
    add_scheduled_rule(&mut rt, rule("9:05", "23:59", vec![7, 1, 3, 7], 81), "r1".to_string()).unwrap();
    let shown = get_scheduled_rules(&rt).remove(0);
    let again = CreateScheduledRuleRequest {
        mac: shown.mac,
        time_slot: shown.time_slot,
        down_v4_kbps: shown.down_v4_kbps,
        down_v6_kbps: shown.down_v6_kbps,
        up_v4_kbps: shown.up_v4_kbps,
        up_v6_kbps: shown.up_v6_kbps,
    };
    add_scheduled_rule(&mut rt, again, "r2".to_string()).unwrap();
    let (a, b) = (&rt.scheduled_rules[0], &rt.scheduled_rules[1]);
    assert_eq!((a.mac, a.start_minute, a.end_minute, a.days_mask), (b.mac, b.start_minute, b.end_minute, b.days_mask));
    assert_eq!(a.limit, b.limit);
    assert_eq!(a.days_mask, 0b100_0101);
    assert!(delete_scheduled_rule(&mut rt, "r1").is_ok());
    assert_eq!(rt.scheduled_rules.len(), 1);
    assert_eq!(rt.scheduled_rules[0].id, "r2");
    assert!(delete_scheduled_rule(&mut rt, "r1").is_err());
}

#[test]
fn limits_from_the_start_are_logged() {
    assert_eq!(log_policy(&parse_policy()), vec!["policy.startup.begin", "policy.startup.empty"]);
    let limited = with_static([2, 0, 0, 0, 0, 10], rate_limit(1000, 2000, 3000, 125));
    assert_eq!(
        log_policy(&limited.base),
        vec![
            "policy.startup.begin",
            "policy.startup.device mac=02:00:00:00:00:0a down(v4/v6)_kbps=8/16 up(v4/v6)_kbps=24/1",
        ]
    );
}

#[test]
fn a_created_rule_is_deleted_alone() {
    let mut rt = init_runtime(parse_policy());
    for id in ["a", "b", "a"] {
        add_scheduled_rule(&mut rt, rule("09:00", "10:00", vec![1], 8), id.to_string()).unwrap();
    }
    let ids = |rt: &PolicyRuntime| rt.scheduled_rules.iter().map(|r| r.id.clone()).collect::<Vec<_>>();
    let made = create_scheduled_rule(&mut rt, rule("11:00", "12:00", vec![2], 16)).unwrap();
    assert_eq!(rt.scheduled_rules.len(), 4);
    delete_scheduled_rule(&mut rt, &made.id).unwrap();
    assert_eq!(ids(&rt), vec!["a", "b", "a"]);
    // An identifier that is there twice goes twice.
    add_scheduled_rule(&mut rt, rule("11:00", "12:00", vec![2], 16), "b".to_string()).unwrap();
    delete_scheduled_rule(&mut rt, "b").unwrap();
    assert_eq!(ids(&rt), vec!["a", "a"]);
}
