//! Requests: how they are read and what they do.
use crate::bucket::{AggregatedBucket, CounterQuad, HistoryDirection, HistoryTrafficType};
use crate::clock::PeriodScope;
use crate::conntrack::{
    ConnectionDeviceStats, ConnectionGlobalStats, ConnectionSummary,
};
use crate::history::{
    all_finalized, bytes_of, has_device, hourly_of, str_view, without_device, AggregateBucket,
    HistogramHistory, HistogramModel, SeriesModel,
};
use crate::mac;
use crate::mac::{mac_text, parsed_mac};
use crate::netlink::ConnectionFlow;
use crate::recent::{
    asked_points, lists_samples, merged_points, samples_of, HistorySample, RecentModel, TrafficHistory,
};
use crate::series::series_at;
use crate::runtime::{
    has_counter, known_by, without_counters, KnownDevice, KnownModel, MonitorRuntime,
};
use crate::snapshot::{
    device_views, overview_views, DeviceListItem, DeviceModel, InterfaceOverviewItem, OverviewModel,
    SnapshotData,
};
use crate::dnsrec::copy_texts;
use crate::text::{
    concat, copy_text, eq_ignore_ascii_case, lowered, text_eq, to_ascii_lowercase, trim, trimmed,
};
use crate::topology::{named_index, InterfaceModel, TopologySnapshot};
use vstd::prelude::*;

verus! {

/// A request for the devices, on an interface or for a period.
#[derive(Debug)]
pub struct DevicesQuery {
    pub iface: Option<String>,
    pub period: Option<String>,
}

/// A request for the interfaces, for a period.
#[derive(Debug)]
pub struct OverviewQuery {
    pub period: Option<String>,
}

/// A request to name a device.
#[derive(Debug)]
pub struct SetDeviceHostnameRequest {
    pub iface: String,
    pub mac: String,
    pub hostname: String,
}

/// A request to forget a device.
#[derive(Debug)]
pub struct DeleteDeviceRequest {
    pub iface: String,
    pub mac: String,
}

/// What was forgotten of a device.
#[derive(Clone, Copy, Debug, PartialEq, Eq, Structural)]
pub struct DeleteDeviceResult {
    pub device_state_deleted: bool,
    pub traffic_data_deleted: bool,
}

/// A request for the recent past of an interface or a device. The interface is
/// given by its name.
#[derive(Debug)]
pub struct HistoryQuery {
    pub iface: Option<String>,
    pub mac: Option<String>,
    pub traffic_type: Option<String>,
    pub direction: Option<String>,
}

/// A request for hours or days of a device, or of all devices of an interface.
#[derive(Debug)]
pub struct AggregateQuery {
    pub iface: Option<String>,
    pub mac: Option<String>,
    pub traffic_type: Option<String>,
    pub start_ms: Option<u64>,
    pub end_ms: Option<u64>,
    pub bucket: Option<String>,
}

/// A request for the devices by their traffic. A limit of zero is none.
#[derive(Debug)]
pub struct UsageRankingQuery {
    pub iface: Option<String>,
    pub traffic_type: Option<String>,
    pub start_ms: Option<u64>,
    pub end_ms: Option<u64>,
    pub limit: Option<usize>,
}

/// A request for connections, page by page.
#[derive(Debug)]
pub struct ConnectionFlowsQuery {
    pub ip: Option<String>,
    pub protocol: Option<String>,
    pub state: Option<String>,
    pub page: Option<usize>,
    pub page_size: Option<usize>,
}

/// The connections of devices.
#[derive(Debug)]
pub struct ConnectionDevicesResponse {
    pub enabled: bool,
    pub global: ConnectionGlobalStats,
    pub devices: Vec<ConnectionDeviceStats>,
    pub total_devices: usize,
    pub last_updated: u64,
    pub total_flows: usize,
    pub event_stream_available: bool,
    pub event_loss: u64,
    pub last_error: Option<String>,
}

/// A page of connections.
#[derive(Debug)]
pub struct ConnectionFlowsResponse {
    pub enabled: bool,
    pub items: Vec<ConnectionFlow>,
    pub total: usize,
    pub page: usize,
    pub page_size: usize,
    pub total_pages: usize,
}

/// An answer, or why there is none.
#[derive(Debug)]
pub struct ApiEnvelope<T> {
    pub ok: bool,
    pub data: T,
    pub error: Option<String>,
}

impl<T> ApiEnvelope<T> {
    /// An answer.
    pub fn success(data: T) -> (r: Self)
        ensures
            r.ok,
            r.data == data,
            r.error is None,
    {
        ApiEnvelope { ok: true, data, error: None }
    }

    /// The reason why there is no answer.
    pub fn failure(data: T, error: String) -> (r: Self)
        ensures
            !r.ok,
            r.data == data,
            r.error == Some(error),
    {
        ApiEnvelope { ok: false, data, error: Some(error) }
    }
}

/// The connections of devices, as they are told.
pub fn connection_devices(summary: ConnectionSummary) -> (r: ConnectionDevicesResponse)
    ensures
        r.enabled == summary.enabled,
        r.global == summary.global,
        r.devices == summary.devices,
        r.total_devices == summary.devices@.len(),
        r.last_updated == summary.last_updated,
        r.total_flows == summary.total_flows,
        r.event_stream_available == summary.event_stream_available,
        r.event_loss == summary.event_loss,
        r.last_error == summary.last_error,
{
    let total_devices = summary.devices.len();
    ConnectionDevicesResponse {
        enabled: summary.enabled,
        global: summary.global,
        devices: summary.devices,
        total_devices,
        last_updated: summary.last_updated,
        total_flows: summary.total_flows,
        event_stream_available: summary.event_stream_available,
        event_loss: summary.event_loss,
        last_error: summary.last_error,
    }
}

/// A text without white space around it, where it holds anything else.
pub open spec fn asked_text(s: Option<Seq<char>>) -> Option<Seq<char>> {
    match s {
        Some(t) => if trimmed(t).len() > 0 {
            Some(trimmed(t))
        } else {
            None
        },
        None => None,
    }
}

/// A text without white space around it, where it holds anything else.
pub fn asked(s: Option<&str>) -> (r: Option<String>)
    ensures
        match r {
            Some(t) => asked_text(str_view(s)) == Some(t@),
            None => asked_text(str_view(s)) is None,
        },
{
    match s {
        Some(t) => {
            let t = trim(t);
            if t.as_str().is_empty() {
                None
            } else {
                Some(t)
            }
        },
        None => None,
    }
}

/// Where a page lies: its size, the number of pages, its number and the number of
/// its first connection.
#[derive(Clone, Copy, Debug, PartialEq, Eq, Structural)]
pub struct Paging {
    pub page_size: usize,
    pub total_pages: usize,
    pub page: usize,
    pub start: usize,
}

/// The size of a page: 100 unless another one from 1 to 500 is asked for.
pub open spec fn page_size_of(asked: Option<usize>) -> int {
    match asked {
        None => 100,
        Some(n) => if n < 1 {
            1
        } else if n > 500 {
            500
        } else {
            n as int
        },
    }
}

/// The number of pages, of which there is always one.
pub open spec fn pages_of(total: int, size: int) -> int {
    if total == 0 {
        1
    } else {
        (total - 1) / size + 1
    }
}

/// The number of a page: the one that is asked for, or the nearest that there is.
pub open spec fn page_of(asked: Option<usize>, pages: int) -> int {
    match asked {
        None => 1,
        Some(n) => if n < 1 {
            1
        } else if n > pages {
            pages
        } else {
            n as int
        },
    }
}

/// Where the page that a request asks for lies.
pub fn paging(total: usize, page: Option<usize>, page_size: Option<usize>) -> (r: Paging)
    ensures
        r.page_size == page_size_of(page_size),
        r.total_pages == pages_of(total as int, page_size_of(page_size)),
        r.page == page_of(page, pages_of(total as int, page_size_of(page_size))),
        r.start == (r.page - 1) * r.page_size,
        total > 0 ==> r.start < total,
        total == 0 ==> r.start == 0,
{
    let size: usize = match page_size {
        None => 100,
        Some(n) => if n < 1 {
            1
        } else if n > 500 {
            500
        } else {
            n
        },
    };
    let pages: usize = if total == 0 {
        1
    } else {
        proof {
            assert((total - 1) / (size as int) <= total - 1) by (nonlinear_arith)
                requires
                    size >= 1,
                    total >= 1,
            ;
        }
        (total - 1) / size + 1
    };
    let number: usize = match page {
        None => 1,
        Some(n) => if n < 1 {
            1
        } else if n > pages {
            pages
        } else {
            n
        },
    };
    proof {
        if total > 0 {
            let q = (total - 1) / (size as int);
            assert((number - 1) * size <= q * size) by (nonlinear_arith)
                requires
                    number - 1 <= q,
                    size >= 1,
            ;
            assert(q * size <= total - 1) by (nonlinear_arith)
                requires
                    q == (total - 1) / (size as int),
                    size >= 1,
                    total >= 1,
            ;
            assert(0 <= (number - 1) * size) by (nonlinear_arith)
                requires
                    number >= 1,
                    size >= 1,
            ;
        } else {
            assert(number == 1);
            assert((number - 1) * size == 0) by (nonlinear_arith)
                requires
                    number == 1,
            ;
        }
    }
    let start: usize = (number - 1) * size;
    Paging { page_size: size, total_pages: pages, page: number, start }
}

/// Every connection is on one page: the one whose range its number lies in.
pub proof fn law_every_connection_is_on_one_page(total: int, size: int, i: int, page: int)
    requires
        1 <= size,
        0 <= i < total,
    ensures
        1 <= i / size + 1 <= pages_of(total, size),
        (page - 1) * size <= i < page * size <==> page == i / size + 1,
{
    let q = i / size;
    assert(0 <= q && q * size <= i < (q + 1) * size) by (nonlinear_arith)
        requires
            q == i / size,
            1 <= size,
            0 <= i,
    ;
    assert(q <= (total - 1) / size) by (nonlinear_arith)
        requires
            q == i / size,
            1 <= size,
            0 <= i <= total - 1,
    ;
    if (page - 1) * size <= i < page * size {
        assert(page - 1 == q) by (nonlinear_arith)
            requires
                (page - 1) * size <= i < page * size,
                q * size <= i < (q + 1) * size,
                1 <= size,
        ;
    }
}

/// The page of connections that a request asks for.
pub fn connection_flows(
    enabled: bool,
    flows: Vec<ConnectionFlow>,
    page: Option<usize>,
    page_size: Option<usize>,
) -> (r: ConnectionFlowsResponse)
    ensures
        r.enabled == enabled,
        r.total == flows@.len(),
        r.page_size == page_size_of(page_size),
        r.total_pages == pages_of(flows@.len() as int, page_size_of(page_size)),
        r.page == page_of(page, r.total_pages as int),
        r.items@ == flows@.skip((r.page - 1) * r.page_size).take(
            if flows@.len() - (r.page - 1) * r.page_size < r.page_size {
                flows@.len() - (r.page - 1) * r.page_size
            } else {
                r.page_size as int
            },
        ),
{
    let total = flows.len();
    let p = paging(total, page, page_size);
    let mut rest = flows;
    let ghost all = rest@;
    let mut items = rest.split_off(p.start);
    assert(items@ =~= all.skip(p.start as int));
    items.truncate(p.page_size);
    assert(items@ =~= all.skip(p.start as int).take(
        if all.len() - p.start < p.page_size {
            all.len() - p.start
        } else {
            p.page_size as int
        },
    ));
    ConnectionFlowsResponse {
        enabled,
        items,
        total,
        page: p.page,
        page_size: p.page_size,
        total_pages: p.total_pages,
    }
}

/// The period that a request asks for; all time is none. The error is a name that
/// no period has.
pub open spec fn period_asked(s: Option<Seq<char>>) -> Result<Option<PeriodScope>, ()> {
    match asked_text(s) {
        None => Ok(None),
        Some(t) => {
            let l = lowered(t);
            if l == "all"@ {
                Ok(None)
            } else if l == "today"@ {
                Ok(Some(PeriodScope::Today))
            } else if l == "week"@ {
                Ok(Some(PeriodScope::Week))
            } else if l == "month"@ {
                Ok(Some(PeriodScope::Month))
            } else if l == "year"@ {
                Ok(Some(PeriodScope::Year))
            } else {
                Err(())
            }
        },
    }
}

/// Reads the period that a request asks for. The error is what a request for none is
/// answered.
pub fn parse_period_scope(input: Option<&str>) -> (r: Result<Option<PeriodScope>, String>)
    ensures
        match r {
            Ok(p) => period_asked(str_view(input)) == Ok::<Option<PeriodScope>, ()>(p),
            Err(t) => period_asked(str_view(input)) is Err && t@
                == "invalid period, expected one of: all, today, week, month, year"@,
        },
{
    match asked(input) {
        None => Ok(None),
        Some(t) => {
            let l = to_ascii_lowercase(t.as_str());
            if text_eq(l.as_str(), "all") {
                Ok(None)
            } else if text_eq(l.as_str(), "today") {
                Ok(Some(PeriodScope::Today))
            } else if text_eq(l.as_str(), "week") {
                Ok(Some(PeriodScope::Week))
            } else if text_eq(l.as_str(), "month") {
                Ok(Some(PeriodScope::Month))
            } else if text_eq(l.as_str(), "year") {
                Ok(Some(PeriodScope::Year))
            } else {
                Err(copy_text("invalid period, expected one of: all, today, week, month, year"))
            }
        },
    }
}

/// The kind of traffic that a request asks for; all unless one version is named.
pub open spec fn traffic_asked(s: Option<Seq<char>>) -> HistoryTrafficType {
    match s {
        Some(t) => if lowered(t) == "ipv4"@ {
            HistoryTrafficType::Ipv4
        } else if lowered(t) == "ipv6"@ {
            HistoryTrafficType::Ipv6
        } else {
            HistoryTrafficType::All
        },
        None => HistoryTrafficType::All,
    }
}

/// Reads the kind of traffic that a request asks for.
pub fn parse_traffic_type(input: Option<&str>) -> (r: HistoryTrafficType)
    ensures
        r == traffic_asked(str_view(input)),
{
    match input {
        Some(t) => {
            let l = to_ascii_lowercase(t);
            if text_eq(l.as_str(), "ipv4") {
                HistoryTrafficType::Ipv4
            } else if text_eq(l.as_str(), "ipv6") {
                HistoryTrafficType::Ipv6
            } else {
                HistoryTrafficType::All
            }
        },
        None => HistoryTrafficType::All,
    }
}

/// The direction that a request asks for; both unless one is named.
pub open spec fn direction_asked(s: Option<Seq<char>>) -> HistoryDirection {
    match s {
        Some(t) => if lowered(t) == "up"@ {
            HistoryDirection::Up
        } else if lowered(t) == "down"@ {
            HistoryDirection::Down
        } else {
            HistoryDirection::Both
        },
        None => HistoryDirection::Both,
    }
}

/// Reads the direction that a request asks for.
pub fn parse_direction(input: Option<&str>) -> (r: HistoryDirection)
    ensures
        r == direction_asked(str_view(input)),
{
    match input {
        Some(t) => {
            let l = to_ascii_lowercase(t);
            if text_eq(l.as_str(), "up") {
                HistoryDirection::Up
            } else if text_eq(l.as_str(), "down") {
                HistoryDirection::Down
            } else {
                HistoryDirection::Both
            }
        },
        None => HistoryDirection::Both,
    }
}

/// The width of the buckets that a request asks for: hours unless days are named.
pub open spec fn bucket_asked(s: Option<Seq<char>>) -> AggregateBucket {
    if s is Some && lowered(s->0) == "daily"@ {
        AggregateBucket::Daily
    } else {
        AggregateBucket::Hourly
    }
}

/// Reads the width of the buckets that a request asks for.
pub fn parse_bucket(input: Option<&str>) -> (r: AggregateBucket)
    ensures
        r == bucket_asked(str_view(input)),
{
    if let Some(t) = input {
        if text_eq(to_ascii_lowercase(t).as_str(), "daily") {
            return AggregateBucket::Daily;
        }
    }
    AggregateBucket::Hourly
}

/// Why the interface of a request is not found.
#[derive(Clone, Copy, Debug, PartialEq, Eq, Structural)]
pub enum InterfaceError {
    /// None is named.
    Required,
    /// None has the name.
    Unknown,
}

/// What a request is answered whose interface is not found.
pub open spec fn interface_refusal(e: InterfaceError, iface: Option<Seq<char>>) -> Seq<char> {
    match e {
        InterfaceError::Required => "iface is required"@,
        InterfaceError::Unknown => "unknown iface: "@ + match asked_text(iface) {
            Some(name) => name,
            None => Seq::empty(),
        },
    }
}

impl InterfaceError {
    /// What the refused request is answered; the interface is the one that it named.
    pub fn message(self, iface: Option<&str>) -> (r: String)
        ensures
            r@ == interface_refusal(self, str_view(iface)),
    {
        match self {
            InterfaceError::Required => copy_text("iface is required"),
            InterfaceError::Unknown => {
                let mut text = copy_text("unknown iface: ");
                if let Some(name) = asked(iface) {
                    text.push_str(name.as_str());
                }
                assert("unknown iface: "@ + Seq::<char>::empty() =~= "unknown iface: "@);
                text
            },
        }
    }
}

/// The number of the first row with a name.
pub open spec fn row_named(s: Seq<OverviewModel>, name: Seq<char>) -> Option<u32>
    decreases s.len(),
{
    if s.len() == 0 {
        None
    } else if s[0].ifname == name {
        Some(s[0].ifindex)
    } else {
        row_named(s.drop_first(), name)
    }
}

/// The interface that a request names: a watched one, or else one of the snapshot.
pub open spec fn interface_asked(
    s: Option<Seq<char>>,
    topology: Seq<InterfaceModel>,
    rows: Seq<OverviewModel>,
) -> Result<u32, InterfaceError> {
    match asked_text(s) {
        None => Err(InterfaceError::Required),
        Some(name) => match named_index(topology, name) {
            Some(ifindex) => Ok(ifindex),
            None => match row_named(rows, name) {
                Some(ifindex) => Ok(ifindex),
                None => Err(InterfaceError::Unknown),
            },
        },
    }
}

/// Finds the interface that a request names.
pub fn resolve_query_iface_to_ifindex(
    iface: Option<&str>,
    topology: &TopologySnapshot,
    rows: &Vec<InterfaceOverviewItem>,
) -> (r: Result<u32, InterfaceError>)
    ensures
        r == interface_asked(str_view(iface), topology@, overview_views(rows@)),
{
    let name = match asked(iface) {
        Some(n) => n,
        None => return Err(InterfaceError::Required),
    };
    if let Some(ifindex) = topology.ifindex_by_name(name.as_str()) {
        return Ok(ifindex);
    }
    let ghost s = overview_views(rows@);
    let mut i: usize = 0;
    assert(s.skip(0) =~= s);
    while i < rows.len()
        invariant
            i <= rows@.len(),
            s == overview_views(rows@),
            asked_text(str_view(iface)) == Some(name@),
            named_index(topology@, name@) is None,
            row_named(s, name@) == row_named(s.skip(i as int), name@),
        decreases rows@.len() - i,
    {
        assert(s.skip(i as int)[0] == rows@[i as int]@);
        if rows[i].ifname == name {
            return Ok(rows[i].ifindex);
        }
        assert(s.skip(i as int).drop_first() =~= s.skip(i + 1));
        i += 1;
    }
    Err(InterfaceError::Unknown)
}

/// The bytes of buckets.
pub fn cumulative_from_buckets(buckets: &Vec<AggregatedBucket>) -> (r: CounterQuad)
    ensures
        r == bytes_of(buckets@),
{
    let mut r = CounterQuad::default();
    let mut i: usize = 0;
    assert(buckets@.take(0) =~= Seq::empty());
    while i < buckets.len()
        invariant
            i <= buckets@.len(),
            r == bytes_of(buckets@.take(i as int)),
        decreases buckets@.len() - i,
    {
        assert(buckets@.take(i + 1).drop_last() =~= buckets@.take(i as int));
        crate::bucket::add_bucket_bytes(&mut r, &buckets[i]);
        i += 1;
    }
    assert(buckets@.take(i as int) =~= buckets@);
    r
}

/// The interfaces with their traffic of a range of time.
pub open spec fn rows_of_range(s: Seq<OverviewModel>, h: HistogramModel, start: u64, end: u64) -> Seq<
    OverviewModel,
> {
    Seq::new(
        s.len(),
        |i: int|
            OverviewModel {
                cumulative: bytes_of(
                    all_finalized(hourly_of(h.iface, s[i].ifindex, start, end)),
                ),
                ..s[i]
            },
    )
}

/// Tells the traffic of interfaces in a range of time.
pub fn overview_of_range(
    rows: &mut Vec<InterfaceOverviewItem>,
    histogram: &HistogramHistory,
    start_ms: u64,
    end_ms: u64,
)
    requires
        histogram.wf(),
    ensures
        overview_views(final(rows)@) == rows_of_range(
            overview_views(old(rows)@),
            histogram@,
            start_ms,
            end_ms,
        ),
{
    let ghost s = overview_views(rows@);
    let ghost want = rows_of_range(s, histogram@, start_ms, end_ms);
    let mut i: usize = 0;
    while i < rows.len()
        invariant
            i <= rows@.len(),
            rows@.len() == s.len(),
            histogram.wf(),
            want == rows_of_range(s, histogram@, start_ms, end_ms),
            forall|j: int| 0 <= j < i ==> (#[trigger] rows@[j])@ == want[j],
            forall|j: int| i <= j < s.len() ==> (#[trigger] rows@[j])@ == s[j],
        decreases rows@.len() - i,
    {
        let ghost before = rows@;
        let ifindex = rows[i].ifindex;
        let total = match histogram.query_aggregate(
            ifindex,
            None,
            start_ms,
            end_ms,
            AggregateBucket::Hourly,
        ) {
            Some(v) => cumulative_from_buckets(&v),
            None => CounterQuad::default(),
        };
        assert(before[i as int]@ == s[i as int]);
        let row = &mut rows[i];
        row.cumulative = total;
        assert(rows@[i as int]@ == want[i as int]);
        assert forall|j: int| 0 <= j < i + 1 implies (#[trigger] rows@[j])@ == want[j] by {
            if j < i {
                assert(rows@[j] == before[j]);
            }
        }
        assert forall|j: int| i + 1 <= j < s.len() implies (#[trigger] rows@[j])@ == s[j] by {
            assert(rows@[j] == before[j]);
        }
        i += 1;
    }
    assert(overview_views(rows@) =~= want);
}

/// The devices on an interface; all where none is named.
pub open spec fn on_interface(s: Seq<DeviceModel>, iface: Option<Seq<char>>) -> Seq<DeviceModel>
    decreases s.len(),
{
    if s.len() == 0 {
        s
    } else {
        let front = on_interface(s.drop_last(), iface);
        if iface is None || iface->0.len() == 0 || s.last().logical_iface == iface->0 {
            front.push(s.last())
        } else {
            front
        }
    }
}

/// The devices on an interface.
pub fn devices_on(devices: &Vec<DeviceListItem>, iface: Option<&str>) -> (r: Vec<DeviceListItem>)
    ensures
        device_views(r@) == on_interface(device_views(devices@), str_view(iface)),
{
    let mut r: Vec<DeviceListItem> = Vec::new();
    let ghost s = device_views(devices@);
    let mut i: usize = 0;
    assert(s.take(0) =~= Seq::empty());
    assert(device_views(r@) =~= on_interface(s.take(0), str_view(iface)));
    while i < devices.len()
        invariant
            i <= devices@.len(),
            s == device_views(devices@),
            device_views(r@) == on_interface(s.take(i as int), str_view(iface)),
        decreases devices@.len() - i,
    {
        assert(s.take(i + 1).drop_last() =~= s.take(i as int));
        assert(s.take(i + 1).last() == devices@[i as int]@);
        let wanted = match iface {
            Some(name) => name.is_empty() || text_eq(devices[i].logical_iface.as_str(), name),
            None => true,
        };
        if wanted {
            let ghost before = device_views(r@);
            let d = devices[i].clone();
            let ghost dv = d@;
            r.push(d);
            assert(device_views(r@) =~= before.push(dv));
        }
        i += 1;
    }
    assert(s.take(i as int) =~= s);
    r
}

/// A row of a device with its traffic of a range of time.
pub open spec fn row_of_range(d: DeviceModel, h: HistogramHistory, start: u64, end: u64) -> DeviceModel {
    DeviceModel {
        cumulative: bytes_of(
            all_finalized(h.hours_asked(d.ifindex, Some(d.mac), start, end)),
        ),
        ..d
    }
}

/// Tells the traffic of devices in a range of time.
pub fn devices_of_range(
    rows: &mut Vec<DeviceListItem>,
    histogram: &HistogramHistory,
    start_ms: u64,
    end_ms: u64,
)
    requires
        histogram.wf(),
    ensures
        device_views(final(rows)@) == Seq::new(
            old(rows)@.len(),
            |i: int| row_of_range(old(rows)@[i]@, *histogram, start_ms, end_ms),
        ),
{
    let ghost s = rows@;
    let ghost want = Seq::new(
        s.len(),
        |i: int| row_of_range(s[i]@, *histogram, start_ms, end_ms),
    );
    let mut i: usize = 0;
    while i < rows.len()
        invariant
            i <= rows@.len(),
            rows@.len() == s.len(),
            histogram.wf(),
            want == Seq::new(
                s.len(),
                |i: int| row_of_range(s[i]@, *histogram, start_ms, end_ms),
            ),
            forall|j: int| 0 <= j < i ==> (#[trigger] rows@[j])@ == want[j],
            forall|j: int| i <= j < s.len() ==> #[trigger] rows@[j] == s[j],
        decreases rows@.len() - i,
    {
        let ghost before = rows@;
        let found = histogram.query_aggregate(
            rows[i].ifindex,
            Some(rows[i].mac.as_str()),
            start_ms,
            end_ms,
            AggregateBucket::Hourly,
        );
        let total = match &found {
            Some(v) => cumulative_from_buckets(v),
            None => CounterQuad::default(),
        };
        assert(before[i as int] == s[i as int]);
        let row = &mut rows[i];
        row.cumulative = total;
        assert(rows@[i as int]@ == want[i as int]);
        assert forall|j: int| 0 <= j < i + 1 implies (#[trigger] rows@[j])@ == want[j] by {
            if j < i {
                assert(rows@[j] == before[j]);
            }
        }
        assert forall|j: int| i + 1 <= j < s.len() implies #[trigger] rows@[j] == s[j] by {
            assert(rows@[j] == before[j]);
        }
        i += 1;
    }
    assert(device_views(rows@) =~= want);
}

/// Why a device is not named or not forgotten.
#[derive(Clone, Copy, Debug, PartialEq, Eq, Structural)]
pub enum DeviceError {
    InterfaceRequired,
    MacRequired,
    HostnameRequired,
    UnknownInterface,
    InvalidMac,
    NotFound,
}

/// What a refused request about a device is answered.
pub open spec fn device_refusal(e: DeviceError, iface: Seq<char>) -> Seq<char> {
    match e {
        DeviceError::InterfaceRequired => "iface is required"@,
        DeviceError::MacRequired => "mac is required"@,
        DeviceError::HostnameRequired => "hostname is required"@,
        DeviceError::UnknownInterface => "unknown iface: "@ + trimmed(iface),
        DeviceError::InvalidMac => "invalid mac format"@,
        DeviceError::NotFound => "device not found"@,
    }
}

impl DeviceError {
    /// What the refused request is answered; the interface is the one that it named.
    pub fn message(self, iface: &str) -> (r: String)
        ensures
            r@ == device_refusal(self, iface@),
    {
        match self {
            DeviceError::InterfaceRequired => copy_text("iface is required"),
            DeviceError::MacRequired => copy_text("mac is required"),
            DeviceError::HostnameRequired => copy_text("hostname is required"),
            DeviceError::UnknownInterface => concat("unknown iface: ", trim(iface).as_str()),
            DeviceError::InvalidMac => copy_text("invalid mac format"),
            DeviceError::NotFound => copy_text("device not found"),
        }
    }
}

/// The answer to a request to forget a device that was refused or failed.
pub fn delete_device_error(message: String) -> (r: ApiEnvelope<DeleteDeviceResult>)
    ensures
        !r.ok,
        !r.data.device_state_deleted,
        !r.data.traffic_data_deleted,
        r.error == Some(message),
{
    ApiEnvelope::failure(
        DeleteDeviceResult { device_state_deleted: false, traffic_data_deleted: false },
        message,
    )
}

/// The answer to a request to forget a device, from what was there of it and whether
/// its file was there.
pub fn delete_device_answer(forgotten: DeleteDeviceResult, file_deleted: bool) -> (r: ApiEnvelope<
    DeleteDeviceResult,
>)
    ensures
        r.ok,
        r.data.device_state_deleted == forgotten.device_state_deleted,
        r.data.traffic_data_deleted == (forgotten.traffic_data_deleted || file_deleted),
        r.error is None,
{
    ApiEnvelope::success(
        DeleteDeviceResult {
            device_state_deleted: forgotten.device_state_deleted,
            traffic_data_deleted: forgotten.traffic_data_deleted || file_deleted,
        },
    )
}

/// The device that a request names, and the name that it is to have.
pub open spec fn device_to_name(
    iface: Seq<char>,
    mac: Seq<char>,
    hostname: Seq<char>,
    topology: Seq<InterfaceModel>,
) -> Result<(u32, Seq<u8>), DeviceError> {
    if trimmed(iface).len() == 0 {
        Err(DeviceError::InterfaceRequired)
    } else if trimmed(mac).len() == 0 {
        Err(DeviceError::MacRequired)
    } else if trimmed(hostname).len() == 0 {
        Err(DeviceError::HostnameRequired)
    } else {
        match named_index(topology, trimmed(iface)) {
            None => Err(DeviceError::UnknownInterface),
            Some(ifindex) => match parsed_mac(trimmed(mac)) {
                None => Err(DeviceError::InvalidMac),
                Some(m) => Ok((ifindex, m)),
            },
        }
    }
}

/// Whether a row is that of a device; letters of the address may differ in case.
pub open spec fn is_row_of(d: DeviceModel, ifindex: u32, mac: Seq<char>) -> bool {
    d.ifindex == ifindex && lowered(d.mac) == lowered(mac)
}

/// The rows with a name for a device.
pub open spec fn renamed(s: Seq<DeviceModel>, ifindex: u32, mac: Seq<char>, name: Seq<char>) -> Seq<
    DeviceModel,
> {
    Seq::new(
        s.len(),
        |i: int|
            if is_row_of(s[i], ifindex, mac) {
                DeviceModel { hostname: name, ..s[i] }
            } else {
                s[i]
            },
    )
}

/// The last row of a device.
pub open spec fn last_row(s: Seq<DeviceModel>, ifindex: u32, mac: Seq<char>) -> Option<DeviceModel>
    decreases s.len(),
{
    if s.len() == 0 {
        None
    } else if is_row_of(s.last(), ifindex, mac) {
        Some(s.last())
    } else {
        last_row(s.drop_last(), ifindex, mac)
    }
}

fn rename_rows(rows: &mut Vec<DeviceListItem>, ifindex: u32, mac: &str, name: &str) -> (r: Option<
    usize,
>)
    ensures
        device_views(final(rows)@) == renamed(device_views(old(rows)@), ifindex, mac@, name@),
        match r {
            Some(i) => i < final(rows)@.len() && last_row(
                device_views(old(rows)@),
                ifindex,
                mac@,
            ) == Some(device_views(old(rows)@)[i as int]) && is_row_of(
                device_views(old(rows)@)[i as int],
                ifindex,
                mac@,
            ),
            None => last_row(device_views(old(rows)@), ifindex, mac@) is None,
        },
{
    let ghost s = device_views(rows@);
    let ghost want = renamed(s, ifindex, mac@, name@);
    let mut last: Option<usize> = None;
    let mut i: usize = 0;
    assert(s.take(0) =~= Seq::empty());
    while i < rows.len()
        invariant
            i <= rows@.len(),
            rows@.len() == s.len(),
            want == renamed(s, ifindex, mac@, name@),
            forall|j: int| 0 <= j < i ==> (#[trigger] rows@[j])@ == want[j],
            forall|j: int| i <= j < s.len() ==> (#[trigger] rows@[j])@ == s[j],
            match last {
                Some(k) => k < i && last_row(s.take(i as int), ifindex, mac@) == Some(s[k as int])
                    && is_row_of(s[k as int], ifindex, mac@),
                None => last_row(s.take(i as int), ifindex, mac@) is None,
            },
        decreases rows@.len() - i,
    {
        let ghost before = rows@;
        assert(s.take(i + 1).drop_last() =~= s.take(i as int));
        assert(s.take(i + 1).last() == s[i as int]);
        assert(before[i as int]@ == s[i as int]);
        if rows[i].ifindex == ifindex && eq_ignore_ascii_case(rows[i].mac.as_str(), mac) {
            let row = &mut rows[i];
            row.hostname = copy_text(name);
            last = Some(i);
        }
        assert(rows@[i as int]@ == want[i as int]);
        assert forall|j: int| 0 <= j < i + 1 implies (#[trigger] rows@[j])@ == want[j] by {
            if j < i {
                assert(rows@[j] == before[j]);
            }
        }
        assert forall|j: int| i + 1 <= j < s.len() implies (#[trigger] rows@[j])@ == s[j] by {
            assert(rows@[j] == before[j]);
        }
        i += 1;
    }
    assert(s.take(i as int) =~= s);
    assert(device_views(rows@) =~= want);
    last
}

/// A device as it is known from its row.
pub open spec fn known_from(d: DeviceModel, ifindex: u32, mac: Seq<u8>, name: Seq<char>, now: u64) -> KnownModel {
    KnownModel {
        ifindex,
        mac,
        ipv4: d.ipv4,
        ipv6: d.ipv6,
        hostname: name,
        logical_iface: d.logical_iface,
        subnet: d.subnet,
        last_seen_ms: now,
    }
}

/// Names a device: in the rows of the snapshot, and among the known devices. One
/// that is only in the snapshot becomes known.
pub fn set_device_hostname(
    req: &SetDeviceHostnameRequest,
    topology: &TopologySnapshot,
    snapshot: &mut SnapshotData,
    runtime: &mut MonitorRuntime,
    now_ms: u64,
) -> (r: Result<(), DeviceError>)
    requires
        old(runtime).wf(),
    ensures
        final(runtime).wf(),
        match device_to_name(req.iface@, req.mac@, req.hostname@, topology@) {
            Err(e) => r == Err::<(), DeviceError>(e) && *final(snapshot) == *old(snapshot)
                && *final(runtime) == *old(runtime),
            Ok((ifindex, m)) => {
                let name = trimmed(req.hostname@);
                let rows = device_views(old(snapshot).devices@);
                let known = known_by(old(runtime).device_registry.entries@);
                let after = known_by(final(runtime).device_registry.entries@);
                &&& device_views(final(snapshot).devices@) == renamed(
                    rows,
                    ifindex,
                    mac_text(m),
                    name,
                )
                &&& final(snapshot).timestamp_ms == old(snapshot).timestamp_ms
                &&& final(snapshot).interfaces == old(snapshot).interfaces
                &&& *final(runtime) == (MonitorRuntime {
                    device_registry: final(runtime).device_registry,
                    ..*old(runtime)
                })
                &&& if known.dom().contains((ifindex, m)) {
                    r is Ok && after == known.insert(
                        (ifindex, m),
                        KnownModel { hostname: name, ..known[(ifindex, m)] },
                    )
                } else {
                    match last_row(rows, ifindex, mac_text(m)) {
                        Some(d) => r is Ok && after == known.insert(
                            (ifindex, m),
                            known_from(d, ifindex, m, name, now_ms),
                        ),
                        None => r == Err::<(), DeviceError>(DeviceError::NotFound) && after
                            == known,
                    }
                }
            },
        },
{
    let iface = trim(req.iface.as_str());
    if iface.as_str().is_empty() {
        return Err(DeviceError::InterfaceRequired);
    }
    let mac_raw = trim(req.mac.as_str());
    if mac_raw.as_str().is_empty() {
        return Err(DeviceError::MacRequired);
    }
    let name = trim(req.hostname.as_str());
    if name.as_str().is_empty() {
        return Err(DeviceError::HostnameRequired);
    }
    let ifindex = match topology.ifindex_by_name(iface.as_str()) {
        Some(i) => i,
        None => return Err(DeviceError::UnknownInterface),
    };
    let m = match mac::from_str(mac_raw.as_str()) {
        Ok(m) => m,
        Err(_) => return Err(DeviceError::InvalidMac),
    };
    let written = mac::to_string(&m);
    let ghost rows = device_views(snapshot.devices@);
    let ghost known = known_by(runtime.device_registry.entries@);
    let row = rename_rows(&mut snapshot.devices, ifindex, written.as_str(), name.as_str());
    let key = (ifindex, m);
    assert(key@ == (ifindex, m@));
    match runtime.device_registry.entries.find(&key) {
        Some(i) => {
            let mut device = runtime.device_registry.entries.entries[i].1.clone();
            assert(device@ == known[(ifindex, m@)]);
            device.hostname = name;
            let ghost dv = device@;
            assert(dv == (KnownModel {
                hostname: trimmed(req.hostname@),
                ..known[(ifindex, m@)]
            }));
            runtime.device_registry.entries.set_at(i, device);
            assert(known_by(runtime.device_registry.entries@) =~= known.insert((ifindex, m@), dv));
            Ok(())
        },
        None => match row {
            Some(i) => {
                let ghost now = device_views(snapshot.devices@);
                assert(now.len() == rows.len());
                assert(now[i as int] == snapshot.devices@[i as int]@);
                assert(now[i as int] == (DeviceModel {
                    hostname: trimmed(req.hostname@),
                    ..rows[i as int]
                }));
                let d = &snapshot.devices[i];
                let device = KnownDevice {
                    ifindex,
                    mac: m,
                    ipv4: copy_texts(&d.ipv4),
                    ipv6: copy_texts(&d.ipv6),
                    hostname: name,
                    logical_iface: d.logical_iface.clone(),
                    subnet: d.subnet.clone(),
                    last_seen_ms: now_ms,
                };
                let ghost dv = device@;
                assert(dv == known_from(rows[i as int], ifindex, m@, trimmed(req.hostname@), now_ms));
                assert(!known.dom().contains((ifindex, m@)));
                runtime.device_registry.entries.insert(key, device);
                assert(known_by(runtime.device_registry.entries@) =~= known.insert(
                    (ifindex, m@),
                    dv,
                ));
                Ok(())
            },
            None => Err(DeviceError::NotFound),
        },
    }
}

/// The device that a request wants forgotten.
pub open spec fn device_to_forget(
    iface: Seq<char>,
    mac: Seq<char>,
    topology: Seq<InterfaceModel>,
) -> Result<(u32, Seq<u8>), DeviceError> {
    if trimmed(iface).len() == 0 {
        Err(DeviceError::InterfaceRequired)
    } else {
        match parsed_mac(trimmed(mac)) {
            None => Err(DeviceError::InvalidMac),
            Some(m) => match named_index(topology, trimmed(iface)) {
                None => Err(DeviceError::UnknownInterface),
                Some(ifindex) => Ok((ifindex, m)),
            },
        }
    }
}

/// The rows without those of a device.
pub open spec fn rows_without(s: Seq<DeviceModel>, ifindex: u32, mac: Seq<char>) -> Seq<DeviceModel>
    decreases s.len(),
{
    if s.len() == 0 {
        s
    } else if is_row_of(s.last(), ifindex, mac) {
        rows_without(s.drop_last(), ifindex, mac)
    } else {
        rows_without(s.drop_last(), ifindex, mac).push(s.last())
    }
}

/// Whether there is a row of a device.
pub open spec fn has_row(s: Seq<DeviceModel>, ifindex: u32, mac: Seq<char>) -> bool {
    exists|i: int| 0 <= i < s.len() && is_row_of(#[trigger] s[i], ifindex, mac)
}

fn drop_rows(rows: &mut Vec<DeviceListItem>, ifindex: u32, mac: &str) -> (r: bool)
    ensures
        device_views(final(rows)@) == rows_without(device_views(old(rows)@), ifindex, mac@),
        r == has_row(device_views(old(rows)@), ifindex, mac@),
{
    let ghost all = device_views(rows@);
    let mut found = false;
    let mut i: usize = 0;
    let ghost mut k: int = 0;
    assert(all.take(0) =~= Seq::empty());
    assert(device_views(rows@) =~= rows_without(all.take(0), ifindex, mac@) + all.skip(0));
    while i < rows.len()
        invariant
            i <= rows@.len(),
            0 <= k <= all.len(),
            i == rows_without(all.take(k), ifindex, mac@).len(),
            device_views(rows@) == rows_without(all.take(k), ifindex, mac@) + all.skip(k),
            found == has_row(all.take(k), ifindex, mac@),
        decreases rows@.len() - i,
    {
        let ghost now = device_views(rows@);
        let ghost was = found;
        assert(now.len() == i + (all.len() - k));
        assert(now[i as int] == all[k]);
        assert(now[i as int] == rows@[i as int]@);
        assert(all.take(k + 1).drop_last() =~= all.take(k));
        let hit = rows[i].ifindex == ifindex && eq_ignore_ascii_case(rows[i].mac.as_str(), mac);
        if hit {
            rows.remove(i);
            found = true;
            assert(device_views(rows@) =~= now.remove(i as int));
            assert(now.remove(i as int) =~= rows_without(all.take(k + 1), ifindex, mac@)
                + all.skip(k + 1));
        } else {
            assert(now =~= rows_without(all.take(k + 1), ifindex, mac@) + all.skip(k + 1));
            i += 1;
        }
        proof {
            let t = all.take(k);
            let u = all.take(k + 1);
            assert(u[k] == all[k]);
            if has_row(t, ifindex, mac@) {
                let j = choose|j: int| 0 <= j < t.len() && is_row_of(#[trigger] t[j], ifindex, mac@);
                assert(u[j] == t[j]);
            }
            if has_row(u, ifindex, mac@) {
                let j = choose|j: int| 0 <= j < u.len() && is_row_of(#[trigger] u[j], ifindex, mac@);
                if j < k {
                    assert(t[j] == u[j]);
                }
            }
            k = k + 1;
        }
    }
    assert(k == all.len());
    assert(all.take(k) =~= all);
    assert(all.skip(k) =~= Seq::empty());
    assert(rows_without(all, ifindex, mac@) + all.skip(k) =~= rows_without(all, ifindex, mac@));
    found
}

/// A device that was forgotten: its interface and address, as they name its file,
/// and what there was of it.
#[derive(Debug)]
pub struct ForgottenDevice {
    pub iface: String,
    pub mac: String,
    pub result: DeleteDeviceResult,
}

/// Forgets a device: its rows, what is known and counted of it, its recent past
/// and its hours.
pub fn forget_device(
    req: &DeleteDeviceRequest,
    topology: &TopologySnapshot,
    snapshot: &mut SnapshotData,
    runtime: &mut MonitorRuntime,
    history: &mut TrafficHistory,
    histogram: &mut HistogramHistory,
) -> (r: Result<ForgottenDevice, DeviceError>)
    requires
        old(runtime).wf(),
        old(history).wf(),
        old(histogram).wf(),
    ensures
        final(runtime).wf(),
        final(history).wf(),
        final(histogram).wf(),
        match device_to_forget(req.iface@, req.mac@, topology@) {
            Err(e) => {
                &&& r == Err::<ForgottenDevice, DeviceError>(e)
                &&& *final(snapshot) == *old(snapshot)
                &&& *final(runtime) == *old(runtime)
                &&& *final(history) == *old(history)
                &&& *final(histogram) == *old(histogram)
            },
            Ok((ifindex, m)) => {
                let text = mac_text(m);
                let rows = device_views(old(snapshot).devices@);
                &&& device_views(final(snapshot).devices@) == rows_without(rows, ifindex, text)
                &&& final(snapshot).timestamp_ms == old(snapshot).timestamp_ms
                &&& final(snapshot).interfaces == old(snapshot).interfaces
                &&& forgets(*old(runtime), *final(runtime), (ifindex, m))
                &&& final(history)@ == (RecentModel {
                    device: without_device(old(history)@.device, ifindex, text),
                    ..old(history)@
                })
                &&& final(histogram)@ == (HistogramModel {
                    device: SeriesModel {
                        current: without_device(old(histogram)@.device.current, ifindex, text),
                        completed: without_device(old(histogram)@.device.completed, ifindex, text),
                    },
                    ..old(histogram)@
                })
                &&& r matches Ok(d) && d.iface@ == trimmed(req.iface@) && d.mac@ == text && d.result
                    == (DeleteDeviceResult {
                    device_state_deleted: has_row(rows, ifindex, text) || was_known(
                        *old(runtime),
                        (ifindex, m),
                    ),
                    traffic_data_deleted: has_device(old(history)@.device, ifindex, text)
                        || has_device(old(histogram)@.device.current, ifindex, text) || has_device(
                        old(histogram)@.device.completed,
                        ifindex,
                        text,
                    ),
                })
            },
        },
{
    let iface = trim(req.iface.as_str());
    if iface.as_str().is_empty() {
        return Err(DeviceError::InterfaceRequired);
    }
    let m = match mac::from_str(trim(req.mac.as_str()).as_str()) {
        Ok(m) => m,
        Err(_) => return Err(DeviceError::InvalidMac),
    };
    let ifindex = match topology.ifindex_by_name(iface.as_str()) {
        Some(i) => i,
        None => return Err(DeviceError::UnknownInterface),
    };
    let text = mac::to_string(&m);
    let shown = drop_rows(&mut snapshot.devices, ifindex, text.as_str());
    let known = runtime.remove_device(ifindex, m);
    let recent = history.remove_device(ifindex, text.as_str());
    let hours = histogram.remove_device(ifindex, text.as_str());
    Ok(
        ForgottenDevice {
            iface,
            mac: text,
            result: DeleteDeviceResult {
                device_state_deleted: shown || known,
                traffic_data_deleted: recent || hours,
            },
        },
    )
}

/// Whether a device is known, or anything was counted of it.
pub open spec fn was_known(r: MonitorRuntime, k: (u32, Seq<u8>)) -> bool {
    r.device_registry.entries@.dom().contains(k) || r.cumulative_device@.dom().contains(k)
        || r.smoothed_rates@.dom().contains(k) || has_counter(r.prev_device_bytes@, k.0, k.1)
}

/// Whether anything is remembered of a device: that it is known, what was counted of
/// it, or that it had offloaded traffic.
pub open spec fn remembers(r: MonitorRuntime, k: (u32, Seq<u8>)) -> bool {
    was_known(r, k) || r.ecm_active_devices@.contains(k)
}

/// What is remembered of a device is gone, and nothing else.
pub open spec fn forgets(before: MonitorRuntime, after: MonitorRuntime, k: (u32, Seq<u8>)) -> bool {
    &&& after.device_registry.entries@ == before.device_registry.entries@.remove(k)
    &&& after.cumulative_device@ == before.cumulative_device@.remove(k)
    &&& after.smoothed_rates@ == before.smoothed_rates@.remove(k)
    &&& after.prev_device_bytes@ == without_counters(before.prev_device_bytes@, k.0, k.1)
    &&& after.ecm_active_devices@ == before.ecm_active_devices@.remove(k)
    &&& after == (MonitorRuntime {
        device_registry: after.device_registry,
        cumulative_device: after.cumulative_device,
        smoothed_rates: after.smoothed_rates,
        prev_device_bytes: after.prev_device_bytes,
        ecm_active_devices: after.ecm_active_devices,
        ..before
    })
}

proof fn lemma_no_row_left(s: Seq<DeviceModel>, ifindex: u32, mac: Seq<char>)
    ensures
        !has_row(rows_without(s, ifindex, mac), ifindex, mac),
    decreases s.len(),
{
    if s.len() > 0 {
        lemma_no_row_left(s.drop_last(), ifindex, mac);
        let t = rows_without(s.drop_last(), ifindex, mac);
        let u = rows_without(s, ifindex, mac);
        if has_row(u, ifindex, mac) {
            let i = choose|i: int| 0 <= i < u.len() && is_row_of(#[trigger] u[i], ifindex, mac);
            if i < t.len() {
                assert(t[i] == u[i]);
                assert(has_row(t, ifindex, mac));
            }
        }
    }
}

/// Nothing is left of a forgotten device: no row, no entry, no counter, no hour.
pub proof fn law_forgotten_device_is_gone(
    rows: Seq<DeviceModel>,
    before: MonitorRuntime,
    after: MonitorRuntime,
    recent: RecentModel,
    hours: HistogramModel,
    ifindex: u32,
    m: Seq<u8>,
)
    requires
        forgets(before, after, (ifindex, m)),
    ensures
        !has_row(rows_without(rows, ifindex, mac_text(m)), ifindex, mac_text(m)),
        !remembers(after, (ifindex, m)),
        !has_device(without_device(recent.device, ifindex, mac_text(m)), ifindex, mac_text(m)),
        !has_device(without_device(hours.device.current, ifindex, mac_text(m)), ifindex, mac_text(m)),
        !has_device(
            without_device(hours.device.completed, ifindex, mac_text(m)),
            ifindex,
            mac_text(m),
        ),
{
    lemma_no_row_left(rows, ifindex, mac_text(m));
}

/// The recent past that a request asks for.
pub fn trend(
    history: &TrafficHistory,
    ifindex: u32,
    mac: Option<&str>,
    traffic_type: HistoryTrafficType,
    direction: HistoryDirection,
) -> (r: Vec<HistorySample>)
    requires
        history.wf(),
    ensures
        if asked_text(str_view(mac)) is Some {
            lists_samples(
                r@,
                merged_points(
                    asked_points(history.device_series.entries@, Some(ifindex), str_view(mac)->0),
                ),
            )
        } else {
            r@ == samples_of(series_at(history@.iface, ifindex))
        },
{
    if let Some(m) = mac {
        if asked(mac).is_some() {
            return history.query_device(Some(ifindex), m, traffic_type, direction);
        }
    }
    history.query_iface(ifindex, traffic_type, direction)
}

} // verus!
