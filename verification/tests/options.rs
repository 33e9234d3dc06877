use bandix_plus::options::{LogLevel, NumberOption, Options, OptionsError, RawOptions, TcBackend, TcOrder};

fn some(s: &str) -> Option<String> {
    Some(s.to_string())
}

#[test]
fn ring_buffer_days_are_validated() {
    assert_eq!(Options::from_raw(RawOptions::default()).unwrap().ring_buffer, 30);
    for days in ["1", "60", "90"] {
        assert_eq!(
            Options::from_raw(RawOptions {
                ring_buffer: some(days),
                ..RawOptions::default()
            })
            .unwrap()
            .ring_buffer,
            days.parse::<u32>().unwrap()
        );
    }
    for days in ["0", "-1", "91", "4294967295", "1.5", "abc"] {
        assert!(Options::from_raw(RawOptions {
            ring_buffer: some(days),
            ..RawOptions::default()
        })
        .is_err());
    }
}

#[test]
fn ecm_diagnostics_require_ecm() {
    assert!(Options::from_raw(RawOptions {
        enable_ecm_log: true,
        ..RawOptions::default()
    })
    .is_err());
    assert!(Options::from_raw(RawOptions {
        enable_ecm: true,
        enable_ecm_log: true,
        ..RawOptions::default()
    })
    .is_ok());
}

#[test]
fn dns_monitoring_requires_traffic_service_and_bounds_record_count() {
    assert!(Options::from_raw(RawOptions {
        enable_dns: true,
        ..RawOptions::default()
    })
    .is_err());
    assert!(Options::from_raw(RawOptions {
        enable_traffic: true,
        enable_dns: true,
        ..RawOptions::default()
    })
    .is_ok());
    for records in ["99", "50001", "not-a-number"] {
        assert!(Options::from_raw(RawOptions {
            enable_traffic: true,
            dns_max_records: some(records),
            ..RawOptions::default()
        })
        .is_err());
    }
    assert_eq!(
        Options::from_raw(RawOptions {
            enable_traffic: true,
            dns_max_records: some("100"),
            ..RawOptions::default()
        })
        .unwrap()
        .dns_max_records,
        100
    );
}

#[test]
fn tls_options_require_a_pair() {
    let cert_only = RawOptions {
        tls_cert: some("file.pem"),
        ..RawOptions::default()
    };
    let key_only = RawOptions {
        tls_key: some("file.pem"),
        ..RawOptions::default()
    };
    for raw in [cert_only, key_only] {
        assert_eq!(Options::from_raw(raw).unwrap_err(), OptionsError::MissingRequired);
    }
    assert!(Options::from_raw(RawOptions::default()).is_ok());
    assert!(Options::from_raw(RawOptions {
        tls_cert: some("cert.pem"),
        tls_key: some("key.pem"),
        ..RawOptions::default()
    })
    .is_ok());
}

#[test]
fn options_have_defaults() {
    let o = Options::from_raw(RawOptions::default()).unwrap();
    assert!(!o.enable_ecm && !o.enable_ecm_log && !o.enable_traffic && !o.enable_dns);
    assert_eq!(o.dns_max_records, 5000);
    assert_eq!(o.dns_flush_interval, 900);
    assert_eq!(o.history_window_minutes, 10);
    assert_eq!(o.device_ttl_days, 30);
    assert_eq!((o.host.as_str(), o.port), ("0.0.0.0", 8787));
    assert_eq!(o.log_level, "info");
    assert_eq!(o.tc_order, "default");
    assert_eq!(o.tc_backend, "auto");
    assert_eq!(o.data_dir, "/tmp/bandix-plus");
    assert_eq!(o.api_token_file, "/tmp/etc/bandix-plus/api-token");
    assert_eq!((o.netlink_priority, o.tcx_anchor_ingress_id, o.tcx_anchor_egress_id), (None, None, None));
}

#[test]
fn refused_values_name_their_option() {
    let refused = |raw: RawOptions| Options::from_raw(raw).unwrap_err();
    assert_eq!(
        refused(RawOptions { dns_max_records: some("99"), ..RawOptions::default() }),
        OptionsError::Value(NumberOption::DnsMaxRecords)
    );
    assert_eq!(
        refused(RawOptions { dns_flush_interval: some("59"), ..RawOptions::default() }),
        OptionsError::Value(NumberOption::DnsFlushInterval)
    );
    assert_eq!(
        refused(RawOptions { ring_buffer: some("91"), ..RawOptions::default() }),
        OptionsError::Value(NumberOption::RingBuffer)
    );
    assert_eq!(
        refused(RawOptions { netlink_priority: some("65536"), ..RawOptions::default() }),
        OptionsError::Value(NumberOption::NetlinkPriority)
    );
    assert_eq!(
        refused(RawOptions { tcx_anchor_ingress_id: some("4294967296"), ..RawOptions::default() }),
        OptionsError::Value(NumberOption::TcxAnchorIngressId)
    );
    assert_eq!(
        refused(RawOptions { tcx_anchor_egress_id: some("x"), ..RawOptions::default() }),
        OptionsError::Value(NumberOption::TcxAnchorEgressId)
    );
    assert_eq!(
        refused(RawOptions { history_window_minutes: some("61"), ..RawOptions::default() }),
        OptionsError::Value(NumberOption::HistoryWindowMinutes)
    );
    assert_eq!(
        refused(RawOptions { port: some("65536"), ..RawOptions::default() }),
        OptionsError::Value(NumberOption::Port)
    );
    assert_eq!(
        refused(RawOptions { device_ttl_days: some("3651"), ..RawOptions::default() }),
        OptionsError::Value(NumberOption::DeviceTtlDays)
    );
    let o = Options::from_raw(RawOptions {
        netlink_priority: some("-0"),
        tcx_anchor_egress_id: some("+7"),
        ..RawOptions::default()
    })
    .unwrap();
    assert_eq!((o.netlink_priority, o.tcx_anchor_egress_id), (Some(0), Some(7)));
}

#[test]
fn tc_order_parse_first() {
    assert_eq!(TcOrder::parse("first"), Some(TcOrder::First));
    assert_eq!(TcOrder::parse("FIRST"), Some(TcOrder::First));
}

#[test]
fn tc_order_parse_default() {
    assert_eq!(TcOrder::parse("default"), Some(TcOrder::Default));
}

#[test]
fn tc_order_parse_last() {
    assert_eq!(TcOrder::parse("last"), Some(TcOrder::Last));
}

#[test]
fn tc_order_parse_before() {
    assert_eq!(TcOrder::parse("before"), Some(TcOrder::Before));
}

#[test]
fn tc_order_parse_after() {
    assert_eq!(TcOrder::parse("after"), Some(TcOrder::After));
}

#[test]
fn tc_order_parse_invalid() {
    assert_eq!(TcOrder::parse("invalid"), None);
}

#[test]
fn tc_backend_parse_auto() {
    assert_eq!(TcBackend::parse("auto"), Some(TcBackend::Auto));
    assert_eq!(TcBackend::parse("AUTO"), Some(TcBackend::Auto));
}

#[test]
fn tc_backend_parse_tcx() {
    assert_eq!(TcBackend::parse("tcx"), Some(TcBackend::Tcx));
}

#[test]
fn tc_backend_parse_netlink() {
    assert_eq!(TcBackend::parse("netlink"), Some(TcBackend::Netlink));
}

#[test]
fn tc_backend_parse_invalid() {
    assert_eq!(TcBackend::parse("invalid"), None);
}

#[test]
fn names_are_lowered_by_unicode_rules() {
    assert_eq!(LogLevel::parse("WARN"), Some(LogLevel::Warn));
    assert_eq!(LogLevel::parse("Trace"), Some(LogLevel::Trace));
    assert_eq!(LogLevel::parse("verbose"), None);
    // The Kelvin sign is a capital of k.
    assert_eq!(TcBackend::parse("netlin\u{212a}"), Some(TcBackend::Netlink));
}
