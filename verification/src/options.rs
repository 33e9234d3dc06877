//! The options of the program and what they may hold.
use crate::number::{parse_unsigned, parsed};
use crate::text::{chars_of, copy_text, lowered, text_eq, text_range, views};
use vstd::prelude::*;

verus! {

/// Where a program goes in the order of an interface's programs.
#[derive(Clone, Copy, Debug, PartialEq, Eq, Structural)]
pub enum TcOrder {
    First,
    Default,
    Last,
    Before,
    After,
}

/// How a program is attached to an interface.
#[derive(Clone, Copy, Debug, PartialEq, Eq, Structural)]
pub enum TcBackend {
    Auto,
    Tcx,
    Netlink,
}

/// How much is logged.
#[derive(Clone, Copy, Debug, PartialEq, Eq, Structural)]
pub enum LogLevel {
    Trace,
    Debug,
    Info,
    Warn,
    Error,
}

/// What `str::to_lowercase` makes of a text.
pub uninterp spec fn lowercase(s: Seq<char>) -> Seq<char>;

/// Whether every character is an ASCII one.
pub open spec fn ascii_only(s: Seq<char>) -> bool {
    forall|i: int| 0 <= i < s.len() ==> (#[trigger] s[i] as u32) < 128
}

/// `str::to_lowercase`: the lower case of a text, by the rules of Unicode. Of a
/// text of ASCII characters it is the text with its letters in lower case.
#[verifier::external_body]
fn to_lowercase(s: &str) -> (r: String)
    ensures
        r@ == lowercase(s@),
        ascii_only(s@) ==> r@ == lowered(s@),
{
    s.to_lowercase()
}

impl TcOrder {
    /// The order with a name in lower case.
    pub open spec fn named(s: Seq<char>) -> Option<Self> {
        if s == "first"@ {
            Some(TcOrder::First)
        } else if s == "default"@ {
            Some(TcOrder::Default)
        } else if s == "last"@ {
            Some(TcOrder::Last)
        } else if s == "before"@ {
            Some(TcOrder::Before)
        } else if s == "after"@ {
            Some(TcOrder::After)
        } else {
            None
        }
    }

    /// The order with a name in lower case.
    pub fn from_name(s: &str) -> (r: Option<Self>)
        ensures
            r == Self::named(s@),
    {
        if text_eq(s, "first") {
            Some(TcOrder::First)
        } else if text_eq(s, "default") {
            Some(TcOrder::Default)
        } else if text_eq(s, "last") {
            Some(TcOrder::Last)
        } else if text_eq(s, "before") {
            Some(TcOrder::Before)
        } else if text_eq(s, "after") {
            Some(TcOrder::After)
        } else {
            None
        }
    }

    /// The order with a name, in upper or lower case.
    pub fn parse(s: &str) -> (r: Option<Self>)
        ensures
            r == Self::named(lowercase(s@)),
            ascii_only(s@) ==> r == Self::named(lowered(s@)),
    {
        Self::from_name(to_lowercase(s).as_str())
    }
}

impl TcBackend {
    /// The way of attaching with a name in lower case.
    pub open spec fn named(s: Seq<char>) -> Option<Self> {
        if s == "auto"@ {
            Some(TcBackend::Auto)
        } else if s == "tcx"@ {
            Some(TcBackend::Tcx)
        } else if s == "netlink"@ {
            Some(TcBackend::Netlink)
        } else {
            None
        }
    }

    /// The way of attaching with a name in lower case.
    pub fn from_name(s: &str) -> (r: Option<Self>)
        ensures
            r == Self::named(s@),
    {
        if text_eq(s, "auto") {
            Some(TcBackend::Auto)
        } else if text_eq(s, "tcx") {
            Some(TcBackend::Tcx)
        } else if text_eq(s, "netlink") {
            Some(TcBackend::Netlink)
        } else {
            None
        }
    }

    /// The way of attaching with a name, in upper or lower case.
    pub fn parse(s: &str) -> (r: Option<Self>)
        ensures
            r == Self::named(lowercase(s@)),
            ascii_only(s@) ==> r == Self::named(lowered(s@)),
    {
        Self::from_name(to_lowercase(s).as_str())
    }
}

impl LogLevel {
    /// The level with a name in lower case.
    pub open spec fn named(s: Seq<char>) -> Option<Self> {
        if s == "trace"@ {
            Some(LogLevel::Trace)
        } else if s == "debug"@ {
            Some(LogLevel::Debug)
        } else if s == "info"@ {
            Some(LogLevel::Info)
        } else if s == "warn"@ {
            Some(LogLevel::Warn)
        } else if s == "error"@ {
            Some(LogLevel::Error)
        } else {
            None
        }
    }

    /// The level with a name in lower case.
    pub fn from_name(s: &str) -> (r: Option<Self>)
        ensures
            r == Self::named(s@),
    {
        if text_eq(s, "trace") {
            Some(LogLevel::Trace)
        } else if text_eq(s, "debug") {
            Some(LogLevel::Debug)
        } else if text_eq(s, "info") {
            Some(LogLevel::Info)
        } else if text_eq(s, "warn") {
            Some(LogLevel::Warn)
        } else if text_eq(s, "error") {
            Some(LogLevel::Error)
        } else {
            None
        }
    }

    /// The level with a name, in upper or lower case.
    pub fn parse(s: &str) -> (r: Option<Self>)
        ensures
            r == Self::named(lowercase(s@)),
            ascii_only(s@) ==> r == Self::named(lowered(s@)),
    {
        Self::from_name(to_lowercase(s).as_str())
    }
}

/// The options as they were given: flags, and the text of each value.
#[derive(Debug)]
pub struct RawOptions {
    pub enable_ecm: bool,
    pub enable_ecm_log: bool,
    pub enable_traffic: bool,
    pub enable_dns: bool,
    pub dns_max_records: Option<String>,
    pub dns_enable_storage: bool,
    pub dns_flush_interval: Option<String>,
    pub traffic_enable_storage: bool,
    pub ring_buffer: Option<String>,
    pub iface: Vec<String>,
    pub log_level: Option<String>,
    pub tc_order: Option<String>,
    pub tc_backend: Option<String>,
    pub netlink_priority: Option<String>,
    pub tcx_anchor_ingress_id: Option<String>,
    pub tcx_anchor_egress_id: Option<String>,
    pub history_window_minutes: Option<String>,
    pub host: Option<String>,
    pub port: Option<String>,
    pub data_dir: Option<String>,
    pub cors_origin: Option<String>,
    pub api_token_file: Option<String>,
    pub tls_cert: Option<String>,
    pub tls_key: Option<String>,
    pub device_ttl_days: Option<String>,
}

impl Default for RawOptions {
    /// No option is given.
    fn default() -> (r: Self)
        ensures
            !r.enable_ecm,
            !r.enable_ecm_log,
            !r.enable_traffic,
            !r.enable_dns,
            r.dns_max_records is None,
            !r.dns_enable_storage,
            r.dns_flush_interval is None,
            !r.traffic_enable_storage,
            r.ring_buffer is None,
            r.iface@.len() == 0,
            r.log_level is None,
            r.tc_order is None,
            r.tc_backend is None,
            r.netlink_priority is None,
            r.tcx_anchor_ingress_id is None,
            r.tcx_anchor_egress_id is None,
            r.history_window_minutes is None,
            r.host is None,
            r.port is None,
            r.data_dir is None,
            r.cors_origin is None,
            r.api_token_file is None,
            r.tls_cert is None,
            r.tls_key is None,
            r.device_ttl_days is None,
    {
        RawOptions {
            enable_ecm: false,
            enable_ecm_log: false,
            enable_traffic: false,
            enable_dns: false,
            dns_max_records: None,
            dns_enable_storage: false,
            dns_flush_interval: None,
            traffic_enable_storage: false,
            ring_buffer: None,
            iface: Vec::new(),
            log_level: None,
            tc_order: None,
            tc_backend: None,
            netlink_priority: None,
            tcx_anchor_ingress_id: None,
            tcx_anchor_egress_id: None,
            history_window_minutes: None,
            host: None,
            port: None,
            data_dir: None,
            cors_origin: None,
            api_token_file: None,
            tls_cert: None,
            tls_key: None,
            device_ttl_days: None,
        }
    }
}

/// The options of the program.
#[derive(Debug)]
pub struct Options {
    /// Counts what a hardware offload engine forwards.
    pub enable_ecm: bool,
    /// Logs what of it could not be attributed.
    pub enable_ecm_log: bool,
    /// Runs the service at all.
    pub enable_traffic: bool,
    /// Watches DNS.
    pub enable_dns: bool,
    /// How many DNS queries are kept, 100 to 50000.
    pub dns_max_records: u32,
    /// Keeps DNS queries on disk.
    pub dns_enable_storage: bool,
    /// The seconds between two writes of the DNS queries, 60 to 86400.
    pub dns_flush_interval: u64,
    /// Keeps the history of traffic on disk.
    pub traffic_enable_storage: bool,
    /// The days of history, 1 to 90.
    pub ring_buffer: u32,
    /// The interfaces to watch.
    pub iface: Vec<String>,
    pub log_level: String,
    pub tc_order: String,
    pub tc_backend: String,
    pub netlink_priority: Option<u16>,
    pub tcx_anchor_ingress_id: Option<u32>,
    pub tcx_anchor_egress_id: Option<u32>,
    /// The minutes of the recent past that are kept second by second, 1 to 60.
    pub history_window_minutes: u32,
    pub host: String,
    pub port: u16,
    pub data_dir: String,
    /// The one web origin that may call the interface.
    pub cors_origin: Option<String>,
    /// The file that holds the secret that callers must present.
    pub api_token_file: String,
    pub tls_cert: Option<String>,
    pub tls_key: Option<String>,
    /// The days after which a device that was not seen is forgotten, 0 to 3650; 0
    /// is never.
    pub device_ttl_days: u32,
}

/// The options that hold a number.
#[derive(Clone, Copy, Debug, PartialEq, Eq, Structural)]
pub enum NumberOption {
    DnsMaxRecords,
    DnsFlushInterval,
    RingBuffer,
    NetlinkPriority,
    TcxAnchorIngressId,
    TcxAnchorEgressId,
    HistoryWindowMinutes,
    Port,
    DeviceTtlDays,
}

/// Why options are refused.
#[derive(Clone, Copy, Debug, PartialEq, Eq, Structural)]
pub enum OptionsError {
    /// A value is no number, or out of its range.
    Value(NumberOption),
    /// An option is given without the one that it needs.
    MissingRequired,
}

impl NumberOption {
    /// The least and the largest value.
    pub open spec fn range(self) -> (u64, u64) {
        match self {
            NumberOption::DnsMaxRecords => (100, 50000),
            NumberOption::DnsFlushInterval => (60, 86400),
            NumberOption::RingBuffer => (1, 90),
            NumberOption::NetlinkPriority => (0, 65535),
            NumberOption::TcxAnchorIngressId => (0, 0xffff_ffff),
            NumberOption::TcxAnchorEgressId => (0, 0xffff_ffff),
            NumberOption::HistoryWindowMinutes => (1, 60),
            NumberOption::Port => (0, 65535),
            NumberOption::DeviceTtlDays => (0, 3650),
        }
    }

    /// The number that a text gives: decimal digits with one plus sign allowed
    /// before them, and a value in the range. Zero may have a minus sign.
    pub open spec fn value(self, s: Seq<char>) -> Option<u64> {
        let unsigned = if s.len() > 1 && s[0] == '-' && s[1] != '+' && self
            != NumberOption::DnsFlushInterval {
            match parsed(s.skip(1), 10, 0) {
                Some(v) => Some(v),
                None => None,
            }
        } else {
            parsed(s, 10, self.range().1 as int)
        };
        match unsigned {
            Some(v) => if self.range().0 <= v <= self.range().1 {
                Some(v as u64)
            } else {
                None
            },
            None => None,
        }
    }

    fn limits(self) -> (r: (u64, u64))
        ensures
            r == self.range(),
    {
        match self {
            NumberOption::DnsMaxRecords => (100, 50000),
            NumberOption::DnsFlushInterval => (60, 86400),
            NumberOption::RingBuffer => (1, 90),
            NumberOption::NetlinkPriority => (0, 65535),
            NumberOption::TcxAnchorIngressId => (0, 0xffff_ffff),
            NumberOption::TcxAnchorEgressId => (0, 0xffff_ffff),
            NumberOption::HistoryWindowMinutes => (1, 60),
            NumberOption::Port => (0, 65535),
            NumberOption::DeviceTtlDays => (0, 3650),
        }
    }

    fn read(self, s: &str) -> (r: Result<u64, OptionsError>)
        ensures
            match r {
                Ok(v) => self.value(s@) == Some(v),
                Err(e) => self.value(s@) is None && e == OptionsError::Value(self),
            },
    {
        let (least, largest) = self.limits();
        let cs = chars_of(s);
        let negative = cs.len() > 1 && cs[0] == '-' && cs[1] != '+' && self
            != NumberOption::DnsFlushInterval;
        let found = if negative {
            let rest = text_range(cs.as_slice(), 1, cs.len());
            assert(rest@ =~= s@.skip(1));
            parse_unsigned(rest.as_str(), 10, 0)
        } else {
            parse_unsigned(s, 10, largest)
        };
        match found {
            Some(v) => if least <= v && v <= largest {
                Ok(v)
            } else {
                Err(OptionsError::Value(self))
            },
            None => Err(OptionsError::Value(self)),
        }
    }

    /// The value of an option that may be left out.
    pub open spec fn given(self, s: Option<String>, default: u64) -> Option<u64> {
        match s {
            Some(t) => self.value(t@),
            None => Some(default),
        }
    }

    fn read_or(self, s: &Option<String>, default: u64) -> (r: Result<u64, OptionsError>)
        ensures
            match r {
                Ok(v) => self.given(*s, default) == Some(v) && (*s is None && v == default
                    || self.range().0 <= v <= self.range().1),
                Err(e) => self.given(*s, default) is None && e == OptionsError::Value(self),
            },
    {
        match s {
            Some(t) => self.read(t.as_str()),
            None => Ok(default),
        }
    }
}

/// A text, or what stands for it where it is left out.
pub open spec fn text_or(s: Option<String>, default: Seq<char>) -> Seq<char> {
    match s {
        Some(t) => t@,
        None => default,
    }
}

fn or_text(s: Option<String>, default: &str) -> (r: String)
    ensures
        r@ == text_or(s, default@),
{
    match s {
        Some(t) => t,
        None => copy_text(default),
    }
}

/// The first option whose value is refused, in the order of the options.
pub open spec fn refused_value(raw: RawOptions) -> Option<NumberOption> {
    if NumberOption::DnsMaxRecords.given(raw.dns_max_records, 5000) is None {
        Some(NumberOption::DnsMaxRecords)
    } else if NumberOption::DnsFlushInterval.given(raw.dns_flush_interval, 900) is None {
        Some(NumberOption::DnsFlushInterval)
    } else if NumberOption::RingBuffer.given(raw.ring_buffer, 30) is None {
        Some(NumberOption::RingBuffer)
    } else if NumberOption::NetlinkPriority.given(raw.netlink_priority, 0) is None {
        Some(NumberOption::NetlinkPriority)
    } else if NumberOption::TcxAnchorIngressId.given(raw.tcx_anchor_ingress_id, 0) is None {
        Some(NumberOption::TcxAnchorIngressId)
    } else if NumberOption::TcxAnchorEgressId.given(raw.tcx_anchor_egress_id, 0) is None {
        Some(NumberOption::TcxAnchorEgressId)
    } else if NumberOption::HistoryWindowMinutes.given(raw.history_window_minutes, 10) is None {
        Some(NumberOption::HistoryWindowMinutes)
    } else if NumberOption::Port.given(raw.port, 8787) is None {
        Some(NumberOption::Port)
    } else if NumberOption::DeviceTtlDays.given(raw.device_ttl_days, 30) is None {
        Some(NumberOption::DeviceTtlDays)
    } else {
        None
    }
}

/// Whether every option that needs another one has it: the offload log needs the
/// offload counters, DNS needs the service, and the two files of TLS need each
/// other.
pub open spec fn complete(raw: RawOptions) -> bool {
    &&& raw.enable_ecm_log ==> raw.enable_ecm
    &&& raw.enable_dns ==> raw.enable_traffic
    &&& raw.tls_cert is Some <==> raw.tls_key is Some
}

impl Options {
    /// Each option holds what was given for it, or its default.
    pub open spec fn holds(self, raw: RawOptions) -> bool {
        &&& self.enable_ecm == raw.enable_ecm
        &&& self.enable_ecm_log == raw.enable_ecm_log
        &&& self.enable_traffic == raw.enable_traffic
        &&& self.enable_dns == raw.enable_dns
        &&& NumberOption::DnsMaxRecords.given(raw.dns_max_records, 5000) == Some(
            self.dns_max_records as u64,
        )
        &&& self.dns_enable_storage == raw.dns_enable_storage
        &&& NumberOption::DnsFlushInterval.given(raw.dns_flush_interval, 900) == Some(
            self.dns_flush_interval,
        )
        &&& self.traffic_enable_storage == raw.traffic_enable_storage
        &&& NumberOption::RingBuffer.given(raw.ring_buffer, 30) == Some(self.ring_buffer as u64)
        &&& views(self.iface@) == views(raw.iface@)
        &&& self.log_level@ == text_or(raw.log_level, "info"@)
        &&& self.tc_order@ == text_or(raw.tc_order, "default"@)
        &&& self.tc_backend@ == text_or(raw.tc_backend, "auto"@)
        &&& match self.netlink_priority {
            Some(v) => raw.netlink_priority matches Some(s) && NumberOption::NetlinkPriority.value(
                s@,
            ) == Some(v as u64),
            None => raw.netlink_priority is None,
        }
        &&& match self.tcx_anchor_ingress_id {
            Some(v) => raw.tcx_anchor_ingress_id matches Some(s)
                && NumberOption::TcxAnchorIngressId.value(s@) == Some(v as u64),
            None => raw.tcx_anchor_ingress_id is None,
        }
        &&& match self.tcx_anchor_egress_id {
            Some(v) => raw.tcx_anchor_egress_id matches Some(s)
                && NumberOption::TcxAnchorEgressId.value(s@) == Some(v as u64),
            None => raw.tcx_anchor_egress_id is None,
        }
        &&& NumberOption::HistoryWindowMinutes.given(raw.history_window_minutes, 10) == Some(
            self.history_window_minutes as u64,
        )
        &&& self.host@ == text_or(raw.host, "0.0.0.0"@)
        &&& NumberOption::Port.given(raw.port, 8787) == Some(self.port as u64)
        &&& self.data_dir@ == text_or(raw.data_dir, "/tmp/bandix-plus"@)
        &&& self.cors_origin == raw.cors_origin
        &&& self.api_token_file@ == text_or(
            raw.api_token_file,
            "/tmp/etc/bandix-plus/api-token"@,
        )
        &&& self.tls_cert == raw.tls_cert
        &&& self.tls_key == raw.tls_key
        &&& NumberOption::DeviceTtlDays.given(raw.device_ttl_days, 30) == Some(
            self.device_ttl_days as u64,
        )
    }

    /// Reads the options.
    pub fn from_raw(raw: RawOptions) -> (r: Result<Self, OptionsError>)
        ensures
            match refused_value(raw) {
                Some(which) => r == Err::<Self, OptionsError>(OptionsError::Value(which)),
                None => if complete(raw) {
                    r matches Ok(o) && o.holds(raw)
                } else {
                    r == Err::<Self, OptionsError>(OptionsError::MissingRequired)
                },
            },
    {
        let dns_max_records = NumberOption::DnsMaxRecords.read_or(&raw.dns_max_records, 5000)?;
        let dns_flush_interval = NumberOption::DnsFlushInterval.read_or(
            &raw.dns_flush_interval,
            900,
        )?;
        let ring_buffer = NumberOption::RingBuffer.read_or(&raw.ring_buffer, 30)?;
        let priority = NumberOption::NetlinkPriority.read_or(&raw.netlink_priority, 0)?;
        let ingress = NumberOption::TcxAnchorIngressId.read_or(&raw.tcx_anchor_ingress_id, 0)?;
        let egress = NumberOption::TcxAnchorEgressId.read_or(&raw.tcx_anchor_egress_id, 0)?;
        let window = NumberOption::HistoryWindowMinutes.read_or(&raw.history_window_minutes, 10)?;
        let port = NumberOption::Port.read_or(&raw.port, 8787)?;
        let ttl = NumberOption::DeviceTtlDays.read_or(&raw.device_ttl_days, 30)?;
        if (raw.enable_ecm_log && !raw.enable_ecm) || (raw.enable_dns && !raw.enable_traffic)
            || raw.tls_cert.is_some() != raw.tls_key.is_some() {
            return Err(OptionsError::MissingRequired);
        }
        Ok(
            Options {
                enable_ecm: raw.enable_ecm,
                enable_ecm_log: raw.enable_ecm_log,
                enable_traffic: raw.enable_traffic,
                enable_dns: raw.enable_dns,
                dns_max_records: dns_max_records as u32,
                dns_enable_storage: raw.dns_enable_storage,
                dns_flush_interval,
                traffic_enable_storage: raw.traffic_enable_storage,
                ring_buffer: ring_buffer as u32,
                iface: raw.iface,
                log_level: or_text(raw.log_level, "info"),
                tc_order: or_text(raw.tc_order, "default"),
                tc_backend: or_text(raw.tc_backend, "auto"),
                netlink_priority: if raw.netlink_priority.is_some() {
                    Some(priority as u16)
                } else {
                    None
                },
                tcx_anchor_ingress_id: if raw.tcx_anchor_ingress_id.is_some() {
                    Some(ingress as u32)
                } else {
                    None
                },
                tcx_anchor_egress_id: if raw.tcx_anchor_egress_id.is_some() {
                    Some(egress as u32)
                } else {
                    None
                },
                history_window_minutes: window as u32,
                host: or_text(raw.host, "0.0.0.0"),
                port: port as u16,
                data_dir: or_text(raw.data_dir, "/tmp/bandix-plus"),
                cors_origin: raw.cors_origin,
                api_token_file: or_text(raw.api_token_file, "/tmp/etc/bandix-plus/api-token"),
                tls_cert: raw.tls_cert,
                tls_key: raw.tls_key,
                device_ttl_days: ttl as u32,
            },
        )
    }

    /// Every number is in its range.
    pub open spec fn in_range(self) -> bool {
        &&& 100 <= self.dns_max_records <= 50000
        &&& 60 <= self.dns_flush_interval <= 86400
        &&& 1 <= self.ring_buffer <= 90
        &&& 1 <= self.history_window_minutes <= 60
        &&& self.device_ttl_days <= 3650
    }
}

/// Options that were read have their numbers in range.
pub proof fn law_read_options_are_in_range(raw: RawOptions, o: Options)
    requires
        o.holds(raw),
    ensures
        o.in_range(),
{
}

} // verus!
