//! The connections that the kernel tracks: which there are, whose they are, and how
//! many of each kind.
use crate::dnsrec::{copy_text_opt, copy_texts, text_opt};
use crate::history::str_view;
use crate::ip::{ip_text, law_address_roundtrip, parse_ip_text, parsed_ip, IpAddr};
use crate::mac::{mac_text, to_string};
use crate::netlink::{
    attr_views, end_texts, error_code, flow_in, message_error_code, message_list,
    parse_flow_message, read_messages, ConnectionFlow, ConnectionModel, EndTexts, EndpointModel,
    FlowKey, NetlinkError, ParsedFlow, ParsedFlowModel, IPCTNL_MSG_CT_DELETE, IPCTNL_MSG_CT_NEW,
    NLMSG_DONE, NLMSG_ERROR, NLMSG_NOOP, NLMSG_OVERRUN,
};
use crate::runtime::{KnownDevice, KnownModel};
use crate::sort::{arrange, law_arranged_is_ordered, lemma_same_mapped, ordered, Ranked};
use crate::table::{Key, Table};
use crate::text::{
    copy_text, eq_ignore_ascii_case, less, lemma_text_less_total, lemma_text_less_transitive, lowered, pieces,
    split, text_eq, text_less, to_ascii_lowercase, trim, trimmed, views,
};
use vstd::prelude::*;

verus! {

/// How many connections are followed at most.
pub const MAX_TRACKED_FLOWS: usize = 100_000;

/// The connections that are followed, and which of them has which number.
#[verifier::ext_equal]
pub struct FlowState {
    pub flows: Map<(u8, EndpointModel, EndpointModel), ConnectionModel>,
    pub ids: Map<u32, (u8, EndpointModel, EndpointModel)>,
}

/// After a connection is new or has changed. One with the same number goes. Beyond
/// the limit no other comes in.
pub open spec fn inserted(s: FlowState, p: ParsedFlowModel) -> FlowState {
    let t = match p.flow.id {
        Some(id) => FlowState {
            flows: if s.ids.dom().contains(id) {
                s.flows.remove(s.ids[id])
            } else {
                s.flows
            },
            ids: s.ids.insert(id, p.key),
        },
        None => s,
    };
    if t.flows.len() >= MAX_TRACKED_FLOWS && !t.flows.dom().contains(p.key) {
        t
    } else {
        FlowState { flows: t.flows.insert(p.key, p.flow), ..t }
    }
}

/// After a connection is gone: the one with its number, or else the one between its
/// ends.
pub open spec fn removed(s: FlowState, p: ParsedFlowModel) -> FlowState {
    match p.flow.id {
        Some(id) => if s.ids.dom().contains(id) {
            FlowState { flows: s.flows.remove(s.ids[id]), ids: s.ids.remove(id) }
        } else {
            FlowState { flows: s.flows.remove(p.key), ..s }
        },
        None => FlowState { flows: s.flows.remove(p.key), ..s },
    }
}

/// After all connections of a list, one after the other.
pub open spec fn all_inserted(s: FlowState, l: Seq<ParsedFlowModel>) -> FlowState
    decreases l.len(),
{
    if l.len() == 0 {
        s
    } else {
        inserted(all_inserted(s, l.drop_last()), l.last())
    }
}

/// After one message.
pub open spec fn event_step(s: FlowState, kind: u16, payload: Seq<u8>, big: bool) -> Result<
    FlowState,
    NetlinkError,
> {
    if kind == NLMSG_NOOP || kind == NLMSG_DONE {
        Ok(s)
    } else if kind == NLMSG_OVERRUN {
        Err(NetlinkError::Overrun)
    } else if kind == NLMSG_ERROR {
        if payload.len() >= 4 && error_code(payload, big) != 0 {
            Err(NetlinkError::Code(error_code(payload, big)))
        } else {
            Ok(s)
        }
    } else {
        match flow_in(payload, big) {
            Err(e) => Err(e),
            Ok(None) => Ok(s),
            Ok(Some(f)) => if kind % 256 == IPCTNL_MSG_CT_DELETE {
                Ok(removed(s, f))
            } else if kind % 256 == IPCTNL_MSG_CT_NEW {
                Ok(inserted(s, f))
            } else {
                Ok(s)
            },
        }
    }
}

/// After messages, and what was wrong with the first that could not be used, behind
/// which none counts.
pub open spec fn events_applied(
    s: FlowState,
    messages: Seq<(u16, Seq<u8>)>,
    bad: bool,
    big: bool,
) -> (FlowState, Option<NetlinkError>)
    decreases messages.len(),
{
    if messages.len() == 0 {
        (
            s,
            if bad {
                Some(NetlinkError::Message)
            } else {
                None
            },
        )
    } else {
        match event_step(s, messages[0].0, messages[0].1, big) {
            Ok(t) => events_applied(t, messages.drop_first(), bad, big),
            Err(e) => (s, Some(e)),
        }
    }
}

/// The connections of a dump after one message; and whether it ends the dump, or
/// what is wrong with it.
pub open spec fn dump_step(
    l: Seq<ParsedFlowModel>,
    kind: u16,
    payload: Seq<u8>,
    big: bool,
) -> (Seq<ParsedFlowModel>, Option<Result<bool, NetlinkError>>) {
    if kind == NLMSG_NOOP {
        (l, None)
    } else if kind == NLMSG_DONE {
        (l, Some(Ok(true)))
    } else if kind == NLMSG_OVERRUN {
        (l, Some(Err(NetlinkError::Overrun)))
    } else if kind == NLMSG_ERROR {
        if payload.len() < 4 {
            (l, Some(Err(NetlinkError::ErrorReply)))
        } else if error_code(payload, big) != 0 {
            (l, Some(Err(NetlinkError::Code(error_code(payload, big)))))
        } else {
            (l, None)
        }
    } else {
        match flow_in(payload, big) {
            Err(e) => (l, Some(Err(e))),
            Ok(None) => (l, None),
            Ok(Some(f)) => (
                if l.len() < MAX_TRACKED_FLOWS {
                    l.push(f)
                } else {
                    l
                },
                None,
            ),
        }
    }
}

/// The connections of a dump after messages, and whether it is complete or what was
/// wrong.
pub open spec fn dump_applied(
    l: Seq<ParsedFlowModel>,
    messages: Seq<(u16, Seq<u8>)>,
    bad: bool,
    big: bool,
) -> (Seq<ParsedFlowModel>, Result<bool, NetlinkError>)
    decreases messages.len(),
{
    if messages.len() == 0 {
        (
            l,
            if bad {
                Err(NetlinkError::Message)
            } else {
                Ok(false)
            },
        )
    } else {
        match dump_step(l, messages[0].0, messages[0].1, big) {
            (m, Some(r)) => (m, r),
            (m, None) => dump_applied(m, messages.drop_first(), bad, big),
        }
    }
}

/// Parsed connections over plain values.
pub open spec fn parsed_views(v: Seq<ParsedFlow>) -> Seq<ParsedFlowModel> {
    Seq::new(v.len(), |i: int| v[i]@)
}

fn dump_one(flows: &mut Vec<ParsedFlow>, kind: u16, payload: &[u8], big: bool) -> (r: Option<
    Result<bool, NetlinkError>,
>)
    requires
        payload@.len() <= usize::MAX - 3,
    ensures
        (parsed_views(final(flows)@), r) == dump_step(parsed_views(old(flows)@), kind, payload@, big),
{
    if kind == NLMSG_NOOP {
        None
    } else if kind == NLMSG_DONE {
        Some(Ok(true))
    } else if kind == NLMSG_OVERRUN {
        Some(Err(NetlinkError::Overrun))
    } else if kind == NLMSG_ERROR {
        if payload.len() < 4 {
            return Some(Err(NetlinkError::ErrorReply));
        }
        let code = message_error_code(payload, big);
        if code != 0 {
            Some(Err(NetlinkError::Code(code)))
        } else {
            None
        }
    } else {
        match parse_flow_message(payload, big) {
            Err(e) => Some(Err(e)),
            Ok(None) => None,
            Ok(Some(f)) => {
                if flows.len() < MAX_TRACKED_FLOWS {
                    let ghost before = parsed_views(flows@);
                    let ghost fv = f@;
                    flows.push(f);
                    assert(parsed_views(flows@) =~= before.push(fv));
                }
                None
            },
        }
    }
}

/// Takes in a part of a dump. Tells whether the dump is complete.
pub fn read_dump(flows: &mut Vec<ParsedFlow>, buffer: &[u8], big: bool) -> (r: Result<
    bool,
    NetlinkError,
>)
    requires
        buffer@.len() <= usize::MAX - 3,
    ensures
        ({
            let (messages, bad) = message_list(buffer@, 0, big);
            (parsed_views(final(flows)@), r) == dump_applied(
                parsed_views(old(flows)@),
                messages,
                bad,
                big,
            )
        }),
{
    let ghost l0 = parsed_views(flows@);
    let (list, bad) = read_messages(buffer, big);
    let ghost ms = attr_views(list@);
    let mut i: usize = 0;
    assert(ms.skip(0) =~= ms);
    while i < list.len()
        invariant
            i <= list@.len(),
            ms == attr_views(list@),
            (ms, bad) == message_list(buffer@, 0, big),
            l0 == parsed_views(old(flows)@),
            forall|i: int| 0 <= i < list@.len() ==> (#[trigger] list@[i]).1@.len() <= usize::MAX - 3,
            dump_applied(l0, ms, bad, big) == dump_applied(
                parsed_views(flows@),
                ms.skip(i as int),
                bad,
                big,
            ),
        decreases list@.len() - i,
    {
        let (kind, payload) = list[i];
        assert(ms.skip(i as int)[0] == (kind, payload@));
        assert(ms.skip(i as int).drop_first() =~= ms.skip(i + 1));
        if let Some(r) = dump_one(flows, kind, payload, big) {
            return r;
        }
        i += 1;
    }
    assert(ms.skip(i as int) =~= Seq::empty());
    if bad {
        Err(NetlinkError::Message)
    } else {
        Ok(false)
    }
}

/// How many connections there are of each kind.
#[derive(Clone, Copy, Debug, PartialEq, Eq, Structural)]
pub struct ConnectionGlobalStats {
    pub total_connections: u32,
    pub tcp_connections: u32,
    pub udp_connections: u32,
    pub established_tcp: u32,
    pub time_wait_tcp: u32,
    pub close_wait_tcp: u32,
    pub last_updated: u64,
}

/// No connections at a time.
pub open spec fn no_connections(now: u64) -> ConnectionGlobalStats {
    ConnectionGlobalStats {
        total_connections: 0,
        tcp_connections: 0,
        udp_connections: 0,
        established_tcp: 0,
        time_wait_tcp: 0,
        close_wait_tcp: 0,
        last_updated: now,
    }
}

impl Default for ConnectionGlobalStats {
    fn default() -> (r: Self)
        ensures
            r == no_connections(0),
    {
        ConnectionGlobalStats {
            total_connections: 0,
            tcp_connections: 0,
            udp_connections: 0,
            established_tcp: 0,
            time_wait_tcp: 0,
            close_wait_tcp: 0,
            last_updated: 0,
        }
    }
}

/// One more, up to the largest number.
pub open spec fn one_more(n: u32) -> u32 {
    if n == u32::MAX {
        n
    } else {
        (n + 1) as u32
    }
}

/// Which count a state of a TCP connection belongs to.
pub enum StateClass {
    Established,
    Closing,
    CloseWait,
    Other,
}

/// Which count a state of a TCP connection belongs to.
pub open spec fn class_of(state: Option<Seq<char>>) -> StateClass {
    match state {
        Some(s) => if s == "ESTABLISHED"@ {
            StateClass::Established
        } else if s == "TIME_WAIT"@ || s == "FIN_WAIT"@ || s == "FIN_WAIT2"@ || s == "CLOSING"@ || s
            == "LAST_ACK"@ {
            StateClass::Closing
        } else if s == "CLOSE_WAIT"@ {
            StateClass::CloseWait
        } else {
            StateClass::Other
        },
        None => StateClass::Other,
    }
}

/// The counts with one more connection.
pub open spec fn with_connection(
    g: ConnectionGlobalStats,
    protocol: Seq<char>,
    state: Option<Seq<char>>,
) -> ConnectionGlobalStats {
    if lowered(protocol) == "tcp"@ {
        let h = ConnectionGlobalStats {
            tcp_connections: one_more(g.tcp_connections),
            total_connections: one_more(g.total_connections),
            ..g
        };
        match class_of(state) {
            StateClass::Established => ConnectionGlobalStats {
                established_tcp: one_more(g.established_tcp),
                ..h
            },
            StateClass::Closing => ConnectionGlobalStats {
                time_wait_tcp: one_more(g.time_wait_tcp),
                ..h
            },
            StateClass::CloseWait => ConnectionGlobalStats {
                close_wait_tcp: one_more(g.close_wait_tcp),
                ..h
            },
            StateClass::Other => h,
        }
    } else if lowered(protocol) == "udp"@ {
        ConnectionGlobalStats {
            udp_connections: one_more(g.udp_connections),
            total_connections: one_more(g.total_connections),
            ..g
        }
    } else {
        g
    }
}

fn add_connection(g: &mut ConnectionGlobalStats, protocol: &str, state: &Option<String>)
    ensures
        *final(g) == with_connection(*old(g), protocol@, text_opt(*state)),
{
    let lower = to_ascii_lowercase(protocol);
    if text_eq(lower.as_str(), "tcp") {
        g.tcp_connections = g.tcp_connections.saturating_add(1);
        g.total_connections = g.total_connections.saturating_add(1);
        if let Some(s) = state {
            let s = s.as_str();
            if text_eq(s, "ESTABLISHED") {
                g.established_tcp = g.established_tcp.saturating_add(1);
            } else if text_eq(s, "TIME_WAIT") || text_eq(s, "FIN_WAIT") || text_eq(s, "FIN_WAIT2")
                || text_eq(s, "CLOSING") || text_eq(s, "LAST_ACK") {
                g.time_wait_tcp = g.time_wait_tcp.saturating_add(1);
            } else if text_eq(s, "CLOSE_WAIT") {
                g.close_wait_tcp = g.close_wait_tcp.saturating_add(1);
            }
        }
    } else if text_eq(lower.as_str(), "udp") {
        g.udp_connections = g.udp_connections.saturating_add(1);
        g.total_connections = g.total_connections.saturating_add(1);
    }
}

/// A device as the owner of connections.
#[derive(Debug)]
pub struct ClientIdentity {
    pub mac: String,
    pub hostname: String,
    pub logical_iface: String,
    pub ipv4: Vec<IpAddr>,
    pub ipv6: Vec<IpAddr>,
}

/// Addresses over plain values.
pub open spec fn ip_views(v: Seq<IpAddr>) -> Seq<Seq<u8>> {
    Seq::new(v.len(), |i: int| v[i]@)
}

/// An owner over plain values.
pub struct IdentityModel {
    pub mac: Seq<char>,
    pub hostname: Seq<char>,
    pub logical_iface: Seq<char>,
    pub ipv4: Seq<Seq<u8>>,
    pub ipv6: Seq<Seq<u8>>,
}

impl View for ClientIdentity {
    type V = IdentityModel;

    open spec fn view(&self) -> IdentityModel {
        IdentityModel {
            mac: self.mac@,
            hostname: self.hostname@,
            logical_iface: self.logical_iface@,
            ipv4: ip_views(self.ipv4@),
            ipv6: ip_views(self.ipv6@),
        }
    }
}

/// Owners over plain values.
pub open spec fn identity_views(v: Seq<ClientIdentity>) -> Seq<IdentityModel> {
    Seq::new(v.len(), |i: int| v[i]@)
}

/// The addresses that texts name.
pub open spec fn ips_in(s: Seq<Seq<char>>) -> Seq<Seq<u8>>
    decreases s.len(),
{
    if s.len() == 0 {
        Seq::empty()
    } else {
        let before = ips_in(s.drop_last());
        match parsed_ip(s.last()) {
            Some(a) => before.push(a),
            None => before,
        }
    }
}

fn parse_ips(list: &Vec<String>) -> (r: Vec<IpAddr>)
    ensures
        ip_views(r@) == ips_in(views(list@)),
{
    let ghost s = views(list@);
    let mut r: Vec<IpAddr> = Vec::new();
    let mut i: usize = 0;
    assert(s.take(0) =~= Seq::empty());
    assert(ip_views(r@) =~= Seq::empty());
    while i < list.len()
        invariant
            i <= list@.len(),
            s == views(list@),
            ip_views(r@) == ips_in(s.take(i as int)),
        decreases list@.len() - i,
    {
        assert(s.take(i + 1).drop_last() =~= s.take(i as int));
        assert(s.take(i + 1).last() == list@[i as int]@);
        if let Some(a) = parse_ip_text(list[i].as_str()) {
            let ghost before = ip_views(r@);
            r.push(a);
            assert(ip_views(r@) =~= before.push(a@));
        }
        i += 1;
    }
    assert(s.take(i as int) =~= s);
    r
}

/// A known device as the owner of connections.
pub open spec fn identity_of(d: KnownModel) -> IdentityModel {
    IdentityModel {
        mac: mac_text(d.mac),
        hostname: d.hostname,
        logical_iface: d.logical_iface,
        ipv4: ips_in(d.ipv4),
        ipv6: ips_in(d.ipv6),
    }
}

/// All known devices as owners of connections.
pub open spec fn identities_of(entries: Seq<((u32, [u8; 6]), KnownDevice)>) -> Seq<IdentityModel> {
    Seq::new(entries.len(), |i: int| identity_of(entries[i].1@))
}

/// The known devices as owners of connections.
pub fn device_identities(registry: &Table<(u32, [u8; 6]), KnownDevice>) -> (r: Vec<ClientIdentity>)
    ensures
        identity_views(r@) == identities_of(registry.entries@),
{
    let ghost all = identities_of(registry.entries@);
    let mut r: Vec<ClientIdentity> = Vec::new();
    let mut i: usize = 0;
    assert(identity_views(r@) =~= all.take(0));
    while i < registry.entries.len()
        invariant
            i <= registry.entries@.len(),
            all == identities_of(registry.entries@),
            identity_views(r@) == all.take(i as int),
        decreases registry.entries@.len() - i,
    {
        let d = &registry.entries[i].1;
        let ghost before = identity_views(r@);
        let x = ClientIdentity {
            mac: to_string(&d.mac),
            hostname: d.hostname.clone(),
            logical_iface: d.logical_iface.clone(),
            ipv4: parse_ips(&d.ipv4),
            ipv6: parse_ips(&d.ipv6),
        };
        let ghost xv = x@;
        r.push(x);
        assert(identity_views(r@) =~= before.push(xv));
        assert(all.take(i + 1) =~= all.take(i as int).push(all[i as int]));
        i += 1;
    }
    assert(all.take(i as int) =~= all);
    r
}

/// Whether a device has an address.
pub open spec fn has_address(d: IdentityModel, ip: Seq<u8>) -> bool {
    d.ipv4.contains(ip) || d.ipv6.contains(ip)
}

/// The places of the devices that have an address.
pub open spec fn places_of(s: Seq<IdentityModel>, ip: Seq<u8>) -> Seq<int>
    decreases s.len(),
{
    if s.len() == 0 {
        Seq::empty()
    } else if has_address(s.last(), ip) {
        places_of(s.drop_last(), ip).push(s.len() - 1)
    } else {
        places_of(s.drop_last(), ip)
    }
}

/// The one device that has an address, if there is just one.
pub open spec fn unique_owner(s: Seq<IdentityModel>, ip: Seq<u8>) -> Option<IdentityModel> {
    let p = places_of(s, ip);
    if p.len() == 1 {
        Some(s[p[0]])
    } else {
        None
    }
}

fn has_ip(v: &Vec<IpAddr>, ip: &IpAddr) -> (r: bool)
    ensures
        r == ip_views(v@).contains(ip@),
{
    let mut i: usize = 0;
    while i < v.len()
        invariant
            i <= v@.len(),
            forall|j: int| 0 <= j < i ==> ip_views(v@)[j] != ip@,
        decreases v@.len() - i,
    {
        if v[i].same(ip) {
            assert(ip_views(v@)[i as int] == ip@);
            return true;
        }
        i += 1;
    }
    false
}

fn unique_identity_for_ip(identities: &Vec<ClientIdentity>, ip: &IpAddr) -> (r: Option<usize>)
    ensures
        match r {
            Some(i) => i < identities@.len() && unique_owner(identity_views(identities@), ip@) == Some(
                identities@[i as int]@,
            ),
            None => unique_owner(identity_views(identities@), ip@) is None,
        },
{
    let ghost s = identity_views(identities@);
    let mut first: usize = 0;
    let mut count: usize = 0;
    let mut i: usize = 0;
    assert(s.take(0) =~= Seq::empty());
    while i < identities.len()
        invariant
            i <= identities@.len(),
            s == identity_views(identities@),
            count == places_of(s.take(i as int), ip@).len(),
            count <= i,
            count > 0 ==> first < i && places_of(s.take(i as int), ip@)[0] == first,
        decreases identities@.len() - i,
    {
        assert(s.take(i + 1).drop_last() =~= s.take(i as int));
        assert(s.take(i + 1).last() == identities@[i as int]@);
        if has_ip(&identities[i].ipv4, ip) || has_ip(&identities[i].ipv6, ip) {
            if count == 0 {
                first = i;
            }
            count += 1;
        }
        i += 1;
    }
    assert(s.take(i as int) =~= s);
    if count == 1 {
        Some(first)
    } else {
        None
    }
}

/// How many connections of each kind a device has.
#[derive(Debug)]
pub struct ConnectionDeviceStats {
    pub mac: String,
    pub hostname: String,
    pub logical_iface: String,
    pub ipv4: Vec<String>,
    pub ipv6: Vec<String>,
    pub tcp_connections: u32,
    pub udp_connections: u32,
    pub established_tcp: u32,
    pub time_wait_tcp: u32,
    pub close_wait_tcp: u32,
    pub total_connections: u32,
    pub last_updated: u64,
}

/// The connections of a device over plain values.
pub struct DeviceStatModel {
    pub mac: Seq<char>,
    pub hostname: Seq<char>,
    pub logical_iface: Seq<char>,
    pub ipv4: Seq<Seq<char>>,
    pub ipv6: Seq<Seq<char>>,
    pub counts: ConnectionGlobalStats,
}

impl View for ConnectionDeviceStats {
    type V = DeviceStatModel;

    open spec fn view(&self) -> DeviceStatModel {
        DeviceStatModel {
            mac: self.mac@,
            hostname: self.hostname@,
            logical_iface: self.logical_iface@,
            ipv4: views(self.ipv4@),
            ipv6: views(self.ipv6@),
            counts: ConnectionGlobalStats {
                total_connections: self.total_connections,
                tcp_connections: self.tcp_connections,
                udp_connections: self.udp_connections,
                established_tcp: self.established_tcp,
                time_wait_tcp: self.time_wait_tcp,
                close_wait_tcp: self.close_wait_tcp,
                last_updated: self.last_updated,
            },
        }
    }
}

impl Clone for ConnectionDeviceStats {
    fn clone(&self) -> (r: Self)
        ensures
            r@ == self@,
    {
        ConnectionDeviceStats {
            mac: self.mac.clone(),
            hostname: self.hostname.clone(),
            logical_iface: self.logical_iface.clone(),
            ipv4: copy_texts(&self.ipv4),
            ipv6: copy_texts(&self.ipv6),
            tcp_connections: self.tcp_connections,
            udp_connections: self.udp_connections,
            established_tcp: self.established_tcp,
            time_wait_tcp: self.time_wait_tcp,
            close_wait_tcp: self.close_wait_tcp,
            total_connections: self.total_connections,
            last_updated: self.last_updated,
        }
    }
}

/// The connections of devices over plain values.
pub open spec fn stat_views(v: Seq<ConnectionDeviceStats>) -> Seq<DeviceStatModel> {
    v.map_values(|d: ConnectionDeviceStats| d@)
}

/// The texts of addresses.
pub open spec fn ip_texts(s: Seq<Seq<u8>>) -> Seq<Seq<char>> {
    Seq::new(s.len(), |i: int| ip_text(s[i]))
}

fn write_ips(v: &Vec<IpAddr>) -> (r: Vec<String>)
    ensures
        views(r@) == ip_texts(ip_views(v@)),
{
    let ghost all = ip_texts(ip_views(v@));
    let mut r: Vec<String> = Vec::new();
    let mut i: usize = 0;
    assert(views(r@) =~= all.take(0));
    while i < v.len()
        invariant
            i <= v@.len(),
            all == ip_texts(ip_views(v@)),
            views(r@) == all.take(i as int),
        decreases v@.len() - i,
    {
        let ghost before = views(r@);
        let t = v[i].to_text();
        let ghost tv = t@;
        r.push(t);
        assert(views(r@) =~= before.push(tv));
        assert(all.take(i + 1) =~= all.take(i as int).push(all[i as int]));
        i += 1;
    }
    assert(all.take(i as int) =~= all);
    r
}

/// A device without connections yet.
pub open spec fn fresh_stats(d: IdentityModel, now: u64) -> DeviceStatModel {
    DeviceStatModel {
        mac: d.mac,
        hostname: d.hostname,
        logical_iface: d.logical_iface,
        ipv4: ip_texts(d.ipv4),
        ipv6: ip_texts(d.ipv6),
        counts: no_connections(now),
    }
}

/// The devices with one more connection of one of them, which is known by its
/// address.
pub open spec fn stats_noted(
    s: Seq<DeviceStatModel>,
    d: IdentityModel,
    protocol: Seq<char>,
    state: Option<Seq<char>>,
    now: u64,
) -> Seq<DeviceStatModel>
    decreases s.len(),
{
    if s.len() == 0 {
        let f = fresh_stats(d, now);
        seq![DeviceStatModel { counts: with_connection(f.counts, protocol, state), ..f }]
    } else if s[0].mac == d.mac {
        s.update(
            0,
            DeviceStatModel { counts: with_connection(s[0].counts, protocol, state), ..s[0] },
        )
    } else {
        seq![s[0]] + stats_noted(s.drop_first(), d, protocol, state, now)
    }
}

/// The devices with one more connection, which counts for the one device that has
/// the address that it comes from.
pub open spec fn stats_with(
    s: Seq<DeviceStatModel>,
    f: ConnectionModel,
    identities: Seq<IdentityModel>,
    now: u64,
) -> Seq<DeviceStatModel> {
    match parsed_ip(f.orig.src) {
        Some(ip) => match unique_owner(identities, ip) {
            Some(d) => stats_noted(s, d, f.protocol, f.state, now),
            None => s,
        },
        None => s,
    }
}

/// The counts of all connections, and those of devices in the order in which they
/// first have one.
pub open spec fn stats_of(
    flows: Seq<ConnectionModel>,
    identities: Seq<IdentityModel>,
    now: u64,
) -> (ConnectionGlobalStats, Seq<DeviceStatModel>)
    decreases flows.len(),
{
    if flows.len() == 0 {
        (no_connections(now), Seq::empty())
    } else {
        let (g, s) = stats_of(flows.drop_last(), identities, now);
        let f = flows.last();
        (with_connection(g, f.protocol, f.state), stats_with(s, f, identities, now))
    }
}

fn count_for(d: &mut ConnectionDeviceStats, protocol: &str, state: &Option<String>)
    ensures
        final(d)@ == (DeviceStatModel {
            counts: with_connection(old(d)@.counts, protocol@, text_opt(*state)),
            ..old(d)@
        }),
{
    let mut g = ConnectionGlobalStats {
        total_connections: d.total_connections,
        tcp_connections: d.tcp_connections,
        udp_connections: d.udp_connections,
        established_tcp: d.established_tcp,
        time_wait_tcp: d.time_wait_tcp,
        close_wait_tcp: d.close_wait_tcp,
        last_updated: d.last_updated,
    };
    add_connection(&mut g, protocol, state);
    d.total_connections = g.total_connections;
    d.tcp_connections = g.tcp_connections;
    d.udp_connections = g.udp_connections;
    d.established_tcp = g.established_tcp;
    d.time_wait_tcp = g.time_wait_tcp;
    d.close_wait_tcp = g.close_wait_tcp;
}

fn note_stats(
    list: &mut Vec<ConnectionDeviceStats>,
    d: &ClientIdentity,
    protocol: &str,
    state: &Option<String>,
    now: u64,
)
    ensures
        stat_views(final(list)@) == stats_noted(
            stat_views(old(list)@),
            d@,
            protocol@,
            text_opt(*state),
            now,
        ),
{
    let ghost s = stat_views(list@);
    let ghost st = text_opt(*state);
    let mut i: usize = 0;
    assert(s.skip(0) =~= s);
    assert(stats_noted(s, d@, protocol@, st, now) =~= s.take(0) + stats_noted(
        s.skip(0),
        d@,
        protocol@,
        st,
        now,
    ));
    while i < list.len() && !text_eq(list[i].mac.as_str(), d.mac.as_str())
        invariant
            i <= list@.len(),
            s == stat_views(list@),
            stats_noted(s, d@, protocol@, st, now) == s.take(i as int) + stats_noted(
                s.skip(i as int),
                d@,
                protocol@,
                st,
                now,
            ),
        decreases list@.len() - i,
    {
        assert(s.skip(i as int)[0] == list@[i as int]@);
        assert(s.skip(i as int).drop_first() =~= s.skip(i + 1));
        assert(s.take(i as int) + stats_noted(s.skip(i as int), d@, protocol@, st, now) =~= s.take(
            i + 1,
        ) + stats_noted(s.skip(i + 1), d@, protocol@, st, now));
        i += 1;
    }
    if i < list.len() {
        assert(s.skip(i as int)[0] == list@[i as int]@);
        count_for(&mut list[i], protocol, state);
        assert(stat_views(list@) =~= s.take(i as int) + stats_noted(
            s.skip(i as int),
            d@,
            protocol@,
            st,
            now,
        ));
    } else {
        let mut x = ConnectionDeviceStats {
            mac: d.mac.clone(),
            hostname: d.hostname.clone(),
            logical_iface: d.logical_iface.clone(),
            ipv4: write_ips(&d.ipv4),
            ipv6: write_ips(&d.ipv6),
            tcp_connections: 0,
            udp_connections: 0,
            established_tcp: 0,
            time_wait_tcp: 0,
            close_wait_tcp: 0,
            total_connections: 0,
            last_updated: now,
        };
        count_for(&mut x, protocol, state);
        let ghost xv = x@;
        list.push(x);
        assert(s.skip(i as int) =~= Seq::empty());
        assert(stat_views(list@) =~= s.take(i as int) + seq![xv]);
    }
}

/// Whether a device stands before another: the one with more connections, then by
/// address.
pub open spec fn busier(a: DeviceStatModel, b: DeviceStatModel) -> bool {
    a.counts.total_connections > b.counts.total_connections || (a.counts.total_connections
        == b.counts.total_connections && text_less(a.mac, b.mac))
}

impl Ranked for ConnectionDeviceStats {
    open spec fn precedes(self, other: Self) -> bool {
        busier(self@, other@)
    }

    proof fn asymmetric(a: Self, b: Self) {
        lemma_text_less_total(a.mac@, b.mac@);
    }

    proof fn cotransitive(a: Self, b: Self, c: Self) {
        lemma_text_less_total(a.mac@, b.mac@);
        lemma_text_less_total(b.mac@, c.mac@);
        lemma_text_less_total(a.mac@, c.mac@);
        if text_less(c.mac@, b.mac@) && text_less(b.mac@, a.mac@) {
            lemma_text_less_transitive(c.mac@, b.mac@, a.mac@);
        }
    }

    fn comes_before(&self, other: &Self) -> (r: bool) {
        self.total_connections > other.total_connections || (self.total_connections
            == other.total_connections && less(self.mac.as_str(), other.mac.as_str()))
    }
}

fn arrange_stats(list: Vec<ConnectionDeviceStats>) -> (r: Vec<ConnectionDeviceStats>)
    ensures
        ordered(r@),
        stat_views(r@).to_multiset() == stat_views(list@).to_multiset(),
{
    let ghost all = list@;
    let r = arrange(list);
    proof {
        law_arranged_is_ordered(all);
        lemma_same_mapped(r@, all, |d: ConnectionDeviceStats| d@);
    }
    r
}

fn count_flow(
    global: &mut ConnectionGlobalStats,
    devices: &mut Vec<ConnectionDeviceStats>,
    flow: &ConnectionFlow,
    identities: &Vec<ClientIdentity>,
    now: u64,
)
    ensures
        *final(global) == with_connection(*old(global), flow@.protocol, flow@.state),
        stat_views(final(devices)@) == stats_with(
            stat_views(old(devices)@),
            flow@,
            identity_views(identities@),
            now,
        ),
{
    add_connection(global, flow.protocol.as_str(), &flow.state);
    if let Some(ip) = parse_ip_text(flow.orig.src.as_str()) {
        if let Some(i) = unique_identity_for_ip(identities, &ip) {
            note_stats(devices, &identities[i], flow.protocol.as_str(), &flow.state, now);
        }
    }
}

/// Connections over plain values.
pub open spec fn flow_views(v: Seq<ConnectionFlow>) -> Seq<ConnectionModel> {
    v.map_values(|f: ConnectionFlow| f@)
}

/// How many connections there are, and how many each device has. A connection counts
/// for a device only where no other has the address that it comes from.
pub fn calculate_stats(
    flows: &Vec<ConnectionFlow>,
    identities: &Vec<ClientIdentity>,
    now: u64,
) -> (r: (ConnectionGlobalStats, Vec<ConnectionDeviceStats>))
    ensures
        ({
            let (g, s) = stats_of(flow_views(flows@), identity_views(identities@), now);
            &&& r.0 == g
            &&& ordered(r.1@)
            &&& stat_views(r.1@).to_multiset() == s.to_multiset()
        }),
{
    let ghost fs = flow_views(flows@);
    let ghost ids = identity_views(identities@);
    let mut global = ConnectionGlobalStats { last_updated: now, ..ConnectionGlobalStats::default() };
    let mut devices: Vec<ConnectionDeviceStats> = Vec::new();
    let mut i: usize = 0;
    assert(fs.take(0) =~= Seq::empty());
    assert(stat_views(devices@) =~= Seq::empty());
    while i < flows.len()
        invariant
            i <= flows@.len(),
            fs == flow_views(flows@),
            ids == identity_views(identities@),
            (global, stat_views(devices@)) == stats_of(fs.take(i as int), ids, now),
        decreases flows@.len() - i,
    {
        assert(fs.take(i + 1).drop_last() =~= fs.take(i as int));
        assert(fs.take(i + 1).last() == flows@[i as int]@);
        count_flow(&mut global, &mut devices, &flows[i], identities, now);
        i += 1;
    }
    assert(fs.take(i as int) =~= fs);
    (global, arrange_stats(devices))
}

/// Where the following of connections stands.
#[derive(Debug)]
pub struct ConntrackMonitor {
    pub enabled: bool,
    pub flows: Table<FlowKey, ConnectionFlow>,
    pub flow_ids: Table<u32, FlowKey>,
    pub global: ConnectionGlobalStats,
    pub devices: Vec<ConnectionDeviceStats>,
    pub last_updated: u64,
    pub event_stream_available: bool,
    pub event_loss: u64,
    pub last_error: Option<String>,
}

/// Connections by key, over plain values.
pub open spec fn flows_by(m: Map<(u8, EndpointModel, EndpointModel), ConnectionFlow>) -> Map<
    (u8, EndpointModel, EndpointModel),
    ConnectionModel,
> {
    Map::new(
        |k: (u8, EndpointModel, EndpointModel)| m.dom().contains(k),
        |k: (u8, EndpointModel, EndpointModel)| m[k]@,
    )
}

/// Keys by number, over plain values.
pub open spec fn ids_by(m: Map<u32, FlowKey>) -> Map<u32, (u8, EndpointModel, EndpointModel)> {
    Map::new(|k: u32| m.dom().contains(k), |k: u32| m[k]@)
}

/// What is told of the connections.
#[derive(Debug)]
pub struct ConnectionSummary {
    pub enabled: bool,
    pub global: ConnectionGlobalStats,
    pub devices: Vec<ConnectionDeviceStats>,
    pub total_flows: usize,
    pub last_updated: u64,
    pub event_stream_available: bool,
    pub event_loss: u64,
    pub last_error: Option<String>,
}

/// Whether a connection has an end with one of the addresses that are asked for:
/// where it comes from, or where replies go.
pub open spec fn ip_wanted(f: ConnectionModel, filters: Seq<Seq<char>>) -> bool {
    filters.len() == 0 || exists|i: int|
        0 <= i < filters.len() && (lowered(f.orig.src) == lowered(#[trigger] filters[i]) || lowered(
            f.reply.dst,
        ) == lowered(filters[i]))
}

/// Whether a connection has an end with one of the addresses that are asked for.
pub fn flow_matches_ip_filters(flow: &ConnectionFlow, filters: &Vec<String>) -> (r: bool)
    ensures
        r == ip_wanted(flow@, views(filters@)),
{
    if filters.len() == 0 {
        return true;
    }
    let ghost fs = views(filters@);
    let mut i: usize = 0;
    while i < filters.len()
        invariant
            i <= filters@.len(),
            fs == views(filters@),
            forall|j: int|
                0 <= j < i ==> !(lowered(flow@.orig.src) == lowered(#[trigger] fs[j]) || lowered(
                    flow@.reply.dst,
                ) == lowered(fs[j])),
        decreases filters@.len() - i,
    {
        assert(fs[i as int] == filters@[i as int]@);
        if eq_ignore_ascii_case(flow.orig.src.as_str(), filters[i].as_str()) || eq_ignore_ascii_case(
            flow.reply.dst.as_str(),
            filters[i].as_str(),
        ) {
            return true;
        }
        i += 1;
    }
    false
}

/// The texts of a list without white space around them, but for those with nothing
/// else.
pub open spec fn filled_parts(s: Seq<Seq<char>>) -> Seq<Seq<char>>
    decreases s.len(),
{
    if s.len() == 0 {
        Seq::empty()
    } else if trimmed(s.last()).len() == 0 {
        filled_parts(s.drop_last())
    } else {
        filled_parts(s.drop_last()).push(trimmed(s.last()))
    }
}

/// The addresses that a text with commas asks for.
pub open spec fn asked_addresses(ip: Option<Seq<char>>) -> Seq<Seq<char>> {
    match ip {
        Some(s) => filled_parts(pieces(s, ',')),
        None => Seq::empty(),
    }
}

fn read_filters(ip: Option<&str>) -> (r: Vec<String>)
    ensures
        views(r@) == asked_addresses(str_view(ip)),
{
    let mut r: Vec<String> = Vec::new();
    assert(views(r@) =~= Seq::empty());
    if let Some(text) = ip {
        let parts = split(text, ',');
        let ghost ps = pieces(text@, ',');
        let mut i: usize = 0;
        assert(ps.take(0) =~= Seq::empty());
        while i < parts.len()
            invariant
                i <= parts@.len(),
                views(parts@) == ps,
                views(r@) == filled_parts(ps.take(i as int)),
            decreases parts@.len() - i,
        {
            assert(ps.take(i + 1).drop_last() =~= ps.take(i as int));
            assert(ps.take(i + 1).last() == parts@[i as int]@);
            let t = trim(parts[i].as_str());
            if !t.as_str().is_empty() {
                let ghost before = views(r@);
                let ghost tv = t@;
                r.push(t);
                assert(views(r@) =~= before.push(tv));
            }
            i += 1;
        }
        assert(ps.take(i as int) =~= ps);
    }
    r
}

/// Whether a connection is asked for.
pub open spec fn flow_wanted(
    f: ConnectionModel,
    ips: Seq<Seq<char>>,
    protocol: Option<Seq<char>>,
    state: Option<Seq<char>>,
) -> bool {
    &&& protocol matches Some(p) ==> lowered(f.protocol) == lowered(p)
    &&& state matches Some(s) ==> (f.state matches Some(t) && lowered(t) == lowered(s))
    &&& ip_wanted(f, ips)
}

/// The connections of a table that are asked for, in its order.
pub open spec fn flows_wanted(
    entries: Seq<(FlowKey, ConnectionFlow)>,
    ips: Seq<Seq<char>>,
    protocol: Option<Seq<char>>,
    state: Option<Seq<char>>,
) -> Seq<ConnectionModel>
    decreases entries.len(),
{
    if entries.len() == 0 {
        Seq::empty()
    } else {
        let before = flows_wanted(entries.drop_last(), ips, protocol, state);
        if flow_wanted(entries.last().1@, ips, protocol, state) {
            before.push(entries.last().1@)
        } else {
            before
        }
    }
}

/// Whether a connection stands before another: by the ends of its first direction.
pub open spec fn ends_before(a: EndTexts, b: EndTexts) -> bool {
    if a.src != b.src {
        text_less(a.src, b.src)
    } else if a.dst != b.dst {
        text_less(a.dst, b.dst)
    } else if a.sport != b.sport {
        a.sport < b.sport
    } else {
        a.dport < b.dport
    }
}

proof fn lemma_ends(a: EndTexts, b: EndTexts, c: EndTexts)
    ensures
        ends_before(a, b) ==> !ends_before(b, a),
        ends_before(a, c) ==> ends_before(a, b) || ends_before(b, c),
{
    lemma_text_less_total(a.src, b.src);
    lemma_text_less_total(b.src, c.src);
    lemma_text_less_total(a.src, c.src);
    lemma_text_less_total(a.dst, b.dst);
    lemma_text_less_total(b.dst, c.dst);
    lemma_text_less_total(a.dst, c.dst);
    if text_less(c.src, b.src) && text_less(b.src, a.src) {
        lemma_text_less_transitive(c.src, b.src, a.src);
    }
    if text_less(c.dst, b.dst) && text_less(b.dst, a.dst) {
        lemma_text_less_transitive(c.dst, b.dst, a.dst);
    }
}

impl Ranked for ConnectionFlow {
    open spec fn precedes(self, other: Self) -> bool {
        ends_before(self.orig@, other.orig@)
    }

    proof fn asymmetric(a: Self, b: Self) {
        lemma_ends(a.orig@, b.orig@, b.orig@);
    }

    proof fn cotransitive(a: Self, b: Self, c: Self) {
        lemma_ends(a.orig@, b.orig@, c.orig@);
    }

    fn comes_before(&self, other: &Self) -> (r: bool) {
        let a = &self.orig;
        let b = &other.orig;
        if a.src != b.src {
            less(a.src.as_str(), b.src.as_str())
        } else if a.dst != b.dst {
            less(a.dst.as_str(), b.dst.as_str())
        } else if a.sport != b.sport {
            a.sport < b.sport
        } else {
            a.dport < b.dport
        }
    }
}

/// The connections of a table in its order.
pub open spec fn flow_seq(entries: Seq<(FlowKey, ConnectionFlow)>) -> Seq<ConnectionModel> {
    Seq::new(entries.len(), |i: int| entries[i].1@)
}

fn copy_stats(v: &Vec<ConnectionDeviceStats>) -> (r: Vec<ConnectionDeviceStats>)
    ensures
        stat_views(r@) == stat_views(v@),
{
    let mut r: Vec<ConnectionDeviceStats> = Vec::new();
    let mut i: usize = 0;
    while i < v.len()
        invariant
            i <= v@.len(),
            r@.len() == i,
            forall|j: int| 0 <= j < i ==> (#[trigger] r@[j])@ == v@[j]@,
        decreases v@.len() - i,
    {
        r.push(v[i].clone());
        i += 1;
    }
    assert(stat_views(r@) =~= stat_views(v@));
    r
}

/// What came of listening for messages about connections: a place to listen at, or
/// none; messages; the end of them; or a reason why none came.
pub enum StreamEvent<'a> {
    Opened,
    NotOpened,
    Received(&'a [u8]),
    Closed,
    Interrupted,
    Overflowed,
    Failed,
}

/// How the listening goes on: at the same place, or at a new one after some seconds.
#[derive(Clone, Copy, Debug, PartialEq, Eq, Structural)]
pub enum StreamAction {
    Listen,
    Reopen { after_secs: u64 },
}

impl ConntrackMonitor {
    pub open spec fn wf(self) -> bool {
        self.flows.wf() && self.flow_ids.wf()
    }

    /// The connections that are followed.
    pub open spec fn state(self) -> FlowState {
        FlowState { flows: flows_by(self.flows@), ids: ids_by(self.flow_ids@) }
    }

    /// What is not about single connections stays as it was.
    pub open spec fn same_notes(self, other: Self) -> bool {
        &&& self.enabled == other.enabled
        &&& self.global == other.global
        &&& self.devices == other.devices
        &&& self.last_updated == other.last_updated
        &&& self.event_stream_available == other.event_stream_available
        &&& self.event_loss == other.event_loss
    }

    /// No connection is followed yet.
    pub fn new(enabled: bool) -> (r: Self)
        ensures
            r.wf(),
            r.enabled == enabled,
            r.state() == (FlowState { flows: Map::empty(), ids: Map::empty() }),
            r.global == no_connections(0),
            r.devices@.len() == 0,
            r.last_updated == 0,
            !r.event_stream_available,
            r.event_loss == 0,
            r.last_error is None,
    {
        let r = ConntrackMonitor {
            enabled,
            flows: Table::new(),
            flow_ids: Table::new(),
            global: ConnectionGlobalStats::default(),
            devices: Vec::new(),
            last_updated: 0,
            event_stream_available: false,
            event_loss: 0,
            last_error: None,
        };
        assert(r.state().flows =~= Map::empty());
        assert(r.state().ids =~= Map::empty());
        r
    }

    fn insert_flow(&mut self, parsed: ParsedFlow)
        requires
            old(self).wf(),
        ensures
            final(self).wf(),
            final(self).state() == inserted(old(self).state(), parsed@),
            final(self).same_notes(*old(self)),
            final(self).last_error == old(self).last_error,
    {
        let ghost s = self.state();
        let ghost pv = parsed@;
        if let Some(id) = parsed.flow.id {
            let ghost f0 = self.flows@;
            let ghost i0 = self.flow_ids@;
            if let Some(key) = self.flow_ids.get(&id) {
                let old_key = *key;
                let _ = self.flows.remove(&old_key);
                assert(flows_by(self.flows@) =~= flows_by(f0).remove(old_key@));
            }
            self.flow_ids.insert(id, parsed.key);
            assert(ids_by(self.flow_ids@) =~= ids_by(i0).insert(id, parsed.key@));
        }
        let ghost mid = self.state();
        proof {
            self.flows.lemma_len();
            assert(mid.flows.dom() =~= self.flows@.dom());
        }
        if self.flows.len() >= MAX_TRACKED_FLOWS && !self.flows.contains(&parsed.key) {
            return;
        }
        let ghost f1 = self.flows@;
        self.flows.insert(parsed.key, parsed.flow);
        assert(flows_by(self.flows@) =~= flows_by(f1).insert(pv.key, pv.flow));
    }

    fn remove_flow(&mut self, parsed: &ParsedFlow)
        requires
            old(self).wf(),
        ensures
            final(self).wf(),
            final(self).state() == removed(old(self).state(), parsed@),
            final(self).same_notes(*old(self)),
            final(self).last_error == old(self).last_error,
    {
        let ghost f0 = self.flows@;
        let ghost i0 = self.flow_ids@;
        if let Some(id) = parsed.flow.id {
            if let Some(key) = self.flow_ids.remove(&id) {
                let _ = self.flows.remove(&key);
                assert(flows_by(self.flows@) =~= flows_by(f0).remove(key@));
                assert(ids_by(self.flow_ids@) =~= ids_by(i0).remove(id));
                return;
            }
            assert(ids_by(self.flow_ids@) =~= ids_by(i0));
        }
        let _ = self.flows.remove(&parsed.key);
        assert(flows_by(self.flows@) =~= flows_by(f0).remove(parsed.key@));
    }

    /// Takes over a whole dump: every other connection is forgotten, and so is the
    /// last error.
    pub fn replace_flows(&mut self, flows: Vec<ParsedFlow>)
        requires
            old(self).wf(),
        ensures
            final(self).wf(),
            final(self).state() == all_inserted(
                FlowState { flows: Map::empty(), ids: Map::empty() },
                if flows@.len() <= MAX_TRACKED_FLOWS {
                    parsed_views(flows@)
                } else {
                    parsed_views(flows@).take(MAX_TRACKED_FLOWS as int)
                },
            ),
            final(self).same_notes(*old(self)),
            final(self).last_error is None,
    {
        let ghost all = parsed_views(flows@);
        let ghost before = *self;
        let n = if flows.len() <= MAX_TRACKED_FLOWS {
            flows.len()
        } else {
            MAX_TRACKED_FLOWS
        };
        self.flows = Table::new();
        self.flow_ids = Table::new();
        self.last_error = None;
        let ghost none = FlowState { flows: Map::empty(), ids: Map::empty() };
        assert(self.state().flows =~= none.flows);
        assert(self.state().ids =~= none.ids);
        let mut i: usize = 0;
        assert(all.take(0) =~= Seq::empty());
        while i < n
            invariant
                i <= n <= flows@.len(),
                all == parsed_views(flows@),
                self.wf(),
                self.state() == all_inserted(none, all.take(i as int)),
                self.same_notes(before),
                self.last_error is None,
            decreases n - i,
        {
            assert(all.take(i + 1).drop_last() =~= all.take(i as int));
            assert(all.take(i + 1).last() == flows@[i as int]@);
            let f = &flows[i];
            self.insert_flow(ParsedFlow { key: f.key, flow: f.flow.clone() });
            i += 1;
        }
        assert(n == flows@.len() ==> all.take(n as int) =~= all);
    }

    /// Notes why a dump failed, and tells whether that is news: whether the last error
    /// was another one.
    pub fn note_error(&mut self, message: String) -> (r: bool)
        requires
            old(self).wf(),
        ensures
            final(self).wf(),
            final(self).state() == old(self).state(),
            final(self).same_notes(*old(self)),
            final(self).last_error matches Some(m) && m@ == message@,
            r == !(old(self).last_error matches Some(m) && m@ == message@),
    {
        let news = match &self.last_error {
            Some(m) => !text_eq(m.as_str(), message.as_str()),
            None => true,
        };
        self.last_error = Some(message);
        news
    }

    /// Notes that the kernel lost messages.
    pub fn note_overflow(&mut self)
        requires
            old(self).wf(),
        ensures
            final(self).wf(),
            final(self).state() == old(self).state(),
            final(self).event_loss == if old(self).event_loss == u64::MAX {
                u64::MAX
            } else {
                (old(self).event_loss + 1) as u64
            },
            final(self).last_error matches Some(m) && m@
                == "conntrack event socket overflowed; waiting for reconciliation dump"@,
            final(self).enabled == old(self).enabled,
            final(self).global == old(self).global,
            final(self).devices == old(self).devices,
            final(self).last_updated == old(self).last_updated,
            final(self).event_stream_available == old(self).event_stream_available,
    {
        self.event_loss = self.event_loss.saturating_add(1);
        self.last_error = Some(
            copy_text(
                "conntrack event socket overflowed; waiting for reconciliation dump",
            ),
        );
    }

    fn apply_event(&mut self, kind: u16, payload: &[u8], big: bool) -> (r: Result<(), NetlinkError>)
        requires
            old(self).wf(),
            payload@.len() <= usize::MAX - 3,
        ensures
            final(self).wf(),
            match event_step(old(self).state(), kind, payload@, big) {
                Ok(s) => r is Ok && final(self).state() == s,
                Err(e) => r == Err::<(), NetlinkError>(e)
                    && final(self).state() == old(self).state(),
            },
            final(self).same_notes(*old(self)),
            final(self).last_error == old(self).last_error,
    {
        if kind == NLMSG_NOOP || kind == NLMSG_DONE {
            return Ok(());
        }
        if kind == NLMSG_OVERRUN {
            return Err(NetlinkError::Overrun);
        }
        if kind == NLMSG_ERROR {
            if payload.len() >= 4 {
                let code = message_error_code(payload, big);
                if code != 0 {
                    return Err(NetlinkError::Code(code));
                }
            }
            return Ok(());
        }
        match parse_flow_message(payload, big) {
            Err(e) => Err(e),
            Ok(None) => Ok(()),
            Ok(Some(f)) => {
                if kind % 256 == IPCTNL_MSG_CT_DELETE {
                    self.remove_flow(&f);
                } else if kind % 256 == IPCTNL_MSG_CT_NEW {
                    self.insert_flow(f);
                }
                Ok(())
            },
        }
    }

    /// Takes in messages about connections. Behind one that cannot be used the rest
    /// is left out.
    pub fn apply_event_messages(&mut self, buffer: &[u8], big: bool) -> (r: Result<
        (),
        NetlinkError,
    >)
        requires
            old(self).wf(),
            buffer@.len() <= usize::MAX - 3,
        ensures
            final(self).wf(),
            ({
                let (messages, bad) = message_list(buffer@, 0, big);
                let (s, e) = events_applied(old(self).state(), messages, bad, big);
                &&& final(self).state() == s
                &&& match e {
                    Some(e) => r == Err::<(), NetlinkError>(e),
                    None => r is Ok,
                }
            }),
            final(self).same_notes(*old(self)),
            final(self).last_error == old(self).last_error,
    {
        let ghost s0 = self.state();
        let (list, bad) = read_messages(buffer, big);
        let ghost ms = attr_views(list@);
        let mut i: usize = 0;
        assert(ms.skip(0) =~= ms);
        while i < list.len()
            invariant
                i <= list@.len(),
                ms == attr_views(list@),
                (ms, bad) == message_list(buffer@, 0, big),
                forall|i: int|
                    0 <= i < list@.len() ==> (#[trigger] list@[i]).1@.len() <= usize::MAX - 3,
                self.wf(),
                self.same_notes(*old(self)),
                self.last_error == old(self).last_error,
                s0 == old(self).state(),
                events_applied(s0, ms, bad, big) == events_applied(
                    self.state(),
                    ms.skip(i as int),
                    bad,
                    big,
                ),
            decreases list@.len() - i,
        {
            let (kind, payload) = list[i];
            assert(ms.skip(i as int)[0] == (kind, payload@));
            assert(ms.skip(i as int).drop_first() =~= ms.skip(i + 1));
            if let Err(e) = self.apply_event(kind, payload, big) {
                return Err(e);
            }
            i += 1;
        }
        assert(ms.skip(i as int) =~= Seq::empty());
        if bad {
            Err(NetlinkError::Message)
        } else {
            Ok(())
        }
    }

    /// Takes in what came of listening for messages about connections, and tells how
    /// to go on. Messages that cannot be used are passed over.
    pub fn on_stream_event(&mut self, event: StreamEvent, big: bool) -> (r: StreamAction)
        requires
            old(self).wf(),
            event matches StreamEvent::Received(b) ==> b@.len() <= usize::MAX - 3,
        ensures
            final(self).wf(),
            r == match event {
                StreamEvent::Opened | StreamEvent::Interrupted | StreamEvent::Received(
                    _,
                ) => StreamAction::Listen,
                StreamEvent::NotOpened => StreamAction::Reopen { after_secs: 5 },
                _ => StreamAction::Reopen { after_secs: 1 },
            },
            final(self).event_stream_available == match event {
                StreamEvent::Opened => true,
                StreamEvent::Closed | StreamEvent::Overflowed | StreamEvent::Failed => false,
                _ => old(self).event_stream_available,
            },
            final(self).state() == match event {
                StreamEvent::Received(b) => {
                    let (messages, bad) = message_list(b@, 0, big);
                    events_applied(old(self).state(), messages, bad, big).0
                },
                _ => old(self).state(),
            },
            event is Overflowed ==> {
                &&& final(self).event_loss == if old(self).event_loss == u64::MAX {
                    u64::MAX
                } else {
                    (old(self).event_loss + 1) as u64
                }
                &&& final(self).last_error matches Some(m) && m@
                    == "conntrack event socket overflowed; waiting for reconciliation dump"@
            },
            event !is Overflowed ==> {
                &&& final(self).event_loss == old(self).event_loss
                &&& final(self).last_error == old(self).last_error
            },
            final(self).enabled == old(self).enabled,
            final(self).global == old(self).global,
            final(self).devices == old(self).devices,
            final(self).last_updated == old(self).last_updated,
    {
        match event {
            StreamEvent::Opened => {
                self.event_stream_available = true;
                StreamAction::Listen
            },
            StreamEvent::NotOpened => StreamAction::Reopen { after_secs: 5 },
            StreamEvent::Interrupted => StreamAction::Listen,
            StreamEvent::Received(buffer) => {
                let _ = self.apply_event_messages(buffer, big);
                StreamAction::Listen
            },
            StreamEvent::Overflowed => {
                self.note_overflow();
                self.event_stream_available = false;
                StreamAction::Reopen { after_secs: 1 }
            },
            StreamEvent::Closed | StreamEvent::Failed => {
                self.event_stream_available = false;
                StreamAction::Reopen { after_secs: 1 }
            },
        }
    }

    /// Counts the connections anew.
    pub fn refresh_stats(&mut self, identities: &Vec<ClientIdentity>, now: u64)
        requires
            old(self).wf(),
        ensures
            final(self).wf(),
            final(self).state() == old(self).state(),
            ({
                let (g, s) = stats_of(
                    flow_seq(old(self).flows.entries@),
                    identity_views(identities@),
                    now,
                );
                &&& final(self).global == g
                &&& ordered(final(self).devices@)
                &&& stat_views(final(self).devices@).to_multiset() == s.to_multiset()
            }),
            final(self).last_updated == now,
            final(self).enabled == old(self).enabled,
            final(self).event_stream_available == old(self).event_stream_available,
            final(self).event_loss == old(self).event_loss,
            final(self).last_error == old(self).last_error,
    {
        let ghost fs = flow_seq(self.flows.entries@);
        let ghost ids = identity_views(identities@);
        let mut global = ConnectionGlobalStats {
            last_updated: now,
            ..ConnectionGlobalStats::default()
        };
        let mut devices: Vec<ConnectionDeviceStats> = Vec::new();
        let mut i: usize = 0;
        assert(fs.take(0) =~= Seq::empty());
        assert(stat_views(devices@) =~= Seq::empty());
        while i < self.flows.entries.len()
            invariant
                i <= self.flows.entries@.len(),
                fs == flow_seq(self.flows.entries@),
                ids == identity_views(identities@),
                (global, stat_views(devices@)) == stats_of(fs.take(i as int), ids, now),
            decreases self.flows.entries@.len() - i,
        {
            assert(fs.take(i + 1).drop_last() =~= fs.take(i as int));
            assert(fs.take(i + 1).last() == fs[i as int]);
            count_flow(&mut global, &mut devices, &self.flows.entries[i].1, identities, now);
            i += 1;
        }
        assert(fs.take(i as int) =~= fs);
        self.global = global;
        self.devices = arrange_stats(devices);
        self.last_updated = now;
    }

    /// What is told of the connections.
    pub fn summary(&self) -> (r: ConnectionSummary)
        requires
            self.wf(),
        ensures
            r.enabled == self.enabled,
            r.global == self.global,
            stat_views(r.devices@) == stat_views(self.devices@),
            r.total_flows == self.state().flows.len(),
            r.last_updated == self.last_updated,
            r.event_stream_available == self.event_stream_available,
            r.event_loss == self.event_loss,
            text_opt(r.last_error) == text_opt(self.last_error),
    {
        proof {
            self.flows.lemma_len();
            assert(self.state().flows.dom() =~= self.flows@.dom());
        }
        ConnectionSummary {
            enabled: self.enabled,
            global: self.global,
            devices: copy_stats(&self.devices),
            total_flows: self.flows.len(),
            last_updated: self.last_updated,
            event_stream_available: self.event_stream_available,
            event_loss: self.event_loss,
            last_error: copy_text_opt(&self.last_error),
        }
    }

    /// The connections that are asked for, in the order of their ends, and whether
    /// connections are followed at all.
    pub fn filtered_flows(
        &self,
        ip: Option<&str>,
        protocol: Option<&str>,
        state_filter: Option<&str>,
    ) -> (r: (bool, Vec<ConnectionFlow>))
        ensures
            r.0 == self.enabled,
            ordered(r.1@),
            flow_views(r.1@).to_multiset() == flows_wanted(
                self.flows.entries@,
                asked_addresses(str_view(ip)),
                str_view(protocol),
                str_view(state_filter),
            ).to_multiset(),
    {
        let ips = read_filters(ip);
        let ghost iv = views(ips@);
        let ghost pv = str_view(protocol);
        let ghost sv = str_view(state_filter);
        let ghost es = self.flows.entries@;
        let mut list: Vec<ConnectionFlow> = Vec::new();
        let mut i: usize = 0;
        assert(es.take(0) =~= Seq::empty());
        assert(flow_views(list@) =~= Seq::empty());
        while i < self.flows.entries.len()
            invariant
                i <= self.flows.entries@.len(),
                es == self.flows.entries@,
                iv == views(ips@),
                pv == str_view(protocol),
                sv == str_view(state_filter),
                flow_views(list@) == flows_wanted(es.take(i as int), iv, pv, sv),
            decreases self.flows.entries@.len() - i,
        {
            assert(es.take(i + 1).drop_last() =~= es.take(i as int));
            let f = &self.flows.entries[i].1;
            let protocol_ok = match protocol {
                Some(p) => eq_ignore_ascii_case(f.protocol.as_str(), p),
                None => true,
            };
            let state_ok = match state_filter {
                Some(s) => match &f.state {
                    Some(t) => eq_ignore_ascii_case(t.as_str(), s),
                    None => false,
                },
                None => true,
            };
            if protocol_ok && state_ok && flow_matches_ip_filters(f, &ips) {
                let ghost before = flow_views(list@);
                let c = f.clone();
                let ghost cv = c@;
                list.push(c);
                assert(flow_views(list@) =~= before.push(cv));
            }
            i += 1;
        }
        assert(es.take(i as int) =~= es);
        let ghost all = list@;
        let flows = arrange(list);
        proof {
            law_arranged_is_ordered(all);
            lemma_same_mapped(flows@, all, |f: ConnectionFlow| f@);
        }
        (self.enabled, flows)
    }
}

/// Never more connections are followed than the limit allows.
pub proof fn law_flow_limit(s: FlowState, p: ParsedFlowModel)
    requires
        s.flows.dom().finite(),
        s.flows.len() <= MAX_TRACKED_FLOWS,
    ensures
        inserted(s, p).flows.dom().finite(),
        inserted(s, p).flows.len() <= MAX_TRACKED_FLOWS,
        removed(s, p).flows.len() <= MAX_TRACKED_FLOWS,
{
}

/// A connection that was put in under a number is gone after a message that the
/// connection with that number ended.
pub proof fn law_ended_connection_is_gone(s: FlowState, p: ParsedFlowModel, q: ParsedFlowModel, id: u32)
    requires
        p.flow.id == Some(id),
        q.flow.id == Some(id),
    ensures
        !removed(inserted(s, p), q).flows.dom().contains(p.key),
        !removed(inserted(s, p), q).ids.dom().contains(id),
{
}

/// A connection from an address that several devices have counts for none of them.
pub proof fn law_ambiguous_client_is_unattributed(
    s: Seq<DeviceStatModel>,
    f: ConnectionModel,
    identities: Seq<IdentityModel>,
    i: int,
    j: int,
    now: u64,
)
    requires
        0 <= i < j < identities.len(),
        parsed_ip(f.orig.src) matches Some(ip) && has_address(identities[i], ip) && has_address(
            identities[j],
            ip,
        ),
    ensures
        stats_with(s, f, identities, now) == s,
{
    let ip = parsed_ip(f.orig.src)->0;
    lemma_places(identities, ip, i);
    lemma_places(identities, ip, j);
    let p = places_of(identities, ip);
    let a = choose|a: int| 0 <= a < p.len() && p[a] == i;
    let b = choose|b: int| 0 <= b < p.len() && p[b] == j;
    assert(a != b);
}

proof fn lemma_places(s: Seq<IdentityModel>, ip: Seq<u8>, i: int)
    requires
        0 <= i < s.len(),
        has_address(s[i], ip),
    ensures
        places_of(s, ip).contains(i),
    decreases s.len(),
{
    let p = places_of(s, ip);
    let q = places_of(s.drop_last(), ip);
    if i < s.len() - 1 {
        lemma_places(s.drop_last(), ip, i);
        let a = choose|a: int| 0 <= a < q.len() && q[a] == i;
        assert(p[a] == i);
    } else {
        assert(p[q.len() as int] == i);
    }
}

proof fn lemma_only_place(s: Seq<IdentityModel>, ip: Seq<u8>, i: int)
    requires
        forall|j: int| 0 <= j < s.len() ==> (has_address(#[trigger] s[j], ip) <==> j == i),
    ensures
        places_of(s, ip) == if 0 <= i < s.len() {
            seq![i]
        } else {
            Seq::empty()
        },
    decreases s.len(),
{
    if s.len() > 0 {
        let front = s.drop_last();
        assert forall|j: int| 0 <= j < front.len() implies (has_address(#[trigger] front[j], ip)
            <==> j == i) by {
            assert(front[j] == s[j]);
        }
        lemma_only_place(front, ip, i);
        assert(s.last() == s[s.len() - 1]);
        assert(Seq::<int>::empty().push(i) =~= seq![i]);
    }
}

/// A connection from an address that one device alone has counts for that device.
pub proof fn law_known_client_is_attributed(
    s: Seq<DeviceStatModel>,
    f: ConnectionModel,
    ends: EndpointModel,
    identities: Seq<IdentityModel>,
    i: int,
    now: u64,
)
    requires
        f.orig == end_texts(ends),
        ends.src.len() == 4 || ends.src.len() == 16,
        0 <= i < identities.len(),
        forall|j: int|
            0 <= j < identities.len() ==> (has_address(#[trigger] identities[j], ends.src) <==> j
                == i),
    ensures
        stats_with(s, f, identities, now) == stats_noted(
            s,
            identities[i],
            f.protocol,
            f.state,
            now,
        ),
{
    law_address_roundtrip(ends.src);
    lemma_only_place(identities, ends.src, i);
}

} // verus!
