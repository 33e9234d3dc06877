//! The DNS monitor: which queries it keeps, which response belongs to which
//! query, and what it reports of them.
use crate::dnsmsg::{packet_message, parse_dns_packet, MessageModel, ParsedDnsMessage};
use crate::dnsrec::{
    copy_texts, record_views, DnsQueryRecord, RecordModel,
};
use crate::ip::{ip_text, parse_ip_text, parsed_ip, IpAddr};
use crate::keys::{DnsPacketHeader, DNS_PACKET_MAX_BYTES};
use crate::series::newest;
use crate::table::{Key, Table};
use crate::text::{
    copy_text, lowered, to_ascii_lowercase, to_ascii_uppercase, uppered, views,
};
use std::collections::{BTreeMap, VecDeque};
use vstd::prelude::*;
use vstd::slice::slice_subrange;

verus! {

pub const QUERY_DEDUP_WINDOW_NS: u64 = 500_000_000;
pub const RESPONSE_DEDUP_WINDOW_NS: u64 = 500_000_000;
pub const MAX_QUERY_MATCH_AGE_NS: u64 = 30_000_000_000;
pub const UNANSWERED_AFTER_MS: u64 = 5_000;

/// The difference, or zero where it would be negative.
pub open spec fn sat_sub(a: u64, b: u64) -> u64 {
    if a >= b {
        (a - b) as u64
    } else {
        0
    }
}

/// What a query and the response to it have in common.
#[derive(Debug)]
pub struct DnsMatchKey {
    pub client_ip: IpAddr,
    pub client_port: u16,
    pub transaction_id: u16,
    pub domain: String,
    pub query_type: String,
    pub protocol: String,
}

pub struct MatchModel {
    pub client_ip: Seq<u8>,
    pub client_port: u16,
    pub transaction_id: u16,
    pub domain: Seq<char>,
    pub query_type: Seq<char>,
    pub protocol: Seq<char>,
}

impl View for DnsMatchKey {
    type V = MatchModel;

    open spec fn view(&self) -> MatchModel {
        MatchModel {
            client_ip: self.client_ip@,
            client_port: self.client_port,
            transaction_id: self.transaction_id,
            domain: self.domain@,
            query_type: self.query_type@,
            protocol: self.protocol@,
        }
    }
}

impl Key for DnsMatchKey {
    fn same(&self, other: &Self) -> (b: bool) {
        self.client_port == other.client_port && self.transaction_id == other.transaction_id
            && self.client_ip.same(&other.client_ip) && self.domain == other.domain
            && self.query_type == other.query_type && self.protocol == other.protocol
    }

    fn dup(&self) -> (r: Self) {
        DnsMatchKey {
            client_ip: self.client_ip,
            client_port: self.client_port,
            transaction_id: self.transaction_id,
            domain: self.domain.clone(),
            query_type: self.query_type.clone(),
            protocol: self.protocol.clone(),
        }
    }
}

/// The key of a message: the client is the source of a query and the destination
/// of a response.
pub open spec fn match_of(m: MessageModel) -> MatchModel {
    MatchModel {
        client_ip: if m.is_query {
            m.source_ip
        } else {
            m.destination_ip
        },
        client_port: if m.is_query {
            m.source_port
        } else {
            m.destination_port
        },
        transaction_id: m.transaction_id,
        domain: lowered(m.domain),
        query_type: uppered(m.query_type),
        protocol: m.protocol,
    }
}

impl ParsedDnsMessage {
    /// The key of the message.
    pub fn match_key(&self) -> (r: DnsMatchKey)
        ensures
            r@ == match_of(self@),
    {
        let (client_ip, client_port) = if self.is_query {
            (self.source_ip, self.source_port)
        } else {
            (self.destination_ip, self.destination_port)
        };
        DnsMatchKey {
            client_ip,
            client_port,
            transaction_id: self.transaction_id,
            domain: to_ascii_lowercase(self.domain.as_str()),
            query_type: to_ascii_uppercase(self.query_type.as_str()),
            protocol: self.protocol.clone(),
        }
    }
}

/// The device that a message is put down to.
#[derive(Debug)]
pub struct DeviceIdentity {
    pub mac: String,
    pub name: String,
    pub iface: String,
}

impl Clone for DeviceIdentity {
    fn clone(&self) -> (r: Self)
        ensures
            r == *self,
    {
        DeviceIdentity {
            mac: self.mac.clone(),
            name: self.name.clone(),
            iface: self.iface.clone(),
        }
    }
}

impl Default for DeviceIdentity {
    fn default() -> (r: Self)
        ensures
            r.mac@.len() == 0,
            r.name@.len() == 0,
            r.iface@.len() == 0,
    {
        DeviceIdentity { mac: String::new(), name: String::new(), iface: String::new() }
    }
}

/// A query with the time of its capture and its key.
#[derive(Debug)]
pub struct TrackedQuery {
    pub observed_ns: u64,
    pub match_key: DnsMatchKey,
    pub record: DnsQueryRecord,
}

pub struct TrackedModel {
    pub observed_ns: u64,
    pub key: MatchModel,
    pub record: RecordModel,
}

impl View for TrackedQuery {
    type V = TrackedModel;

    open spec fn view(&self) -> TrackedModel {
        TrackedModel {
            observed_ns: self.observed_ns,
            key: self.match_key@,
            record: self.record@,
        }
    }
}

/// The state of the monitor: the kept queries by number, their numbers in the
/// order of arrival, the unanswered ones by key, and when a key was last seen in
/// a query and in a response.
#[verifier::ext_equal]
pub struct DnsState {
    pub enabled: bool,
    pub persistence_enabled: bool,
    pub interfaces: Seq<Seq<char>>,
    pub max_records: nat,
    pub records: Map<u64, TrackedModel>,
    pub order: Seq<u64>,
    pub pending: Map<MatchModel, Seq<u64>>,
    pub recent_queries: Map<MatchModel, u64>,
    pub recent_responses: Map<MatchModel, u64>,
    pub next_id: u64,
    pub parse_errors: u64,
}

/// The number behind a number; zero is not used.
pub open spec fn next_number(id: u64) -> u64 {
    if id == u64::MAX {
        1
    } else {
        (id + 1) as u64
    }
}

/// A queue without a number.
pub open spec fn without(q: Seq<u64>, id: u64) -> Seq<u64>
    decreases q.len(),
{
    if q.len() == 0 {
        q
    } else if q.last() == id {
        without(q.drop_last(), id)
    } else {
        without(q.drop_last(), id).push(q.last())
    }
}

/// The queues with one of them set; an empty queue is not kept.
pub open spec fn put_queue(
    m: Map<MatchModel, Seq<u64>>,
    k: MatchModel,
    q: Seq<u64>,
) -> Map<MatchModel, Seq<u64>> {
    if q.len() == 0 {
        m.remove(k)
    } else {
        m.insert(k, q)
    }
}

/// The state without its oldest query.
pub open spec fn evicted(s: DnsState) -> DnsState {
    let id = s.order[0];
    let order = s.order.drop_first();
    if !s.records.dom().contains(id) {
        DnsState { order, ..s }
    } else {
        let t = s.records[id];
        DnsState {
            order,
            records: s.records.remove(id),
            pending: if t.record.response_time_ms is None && s.pending.dom().contains(t.key) {
                let q = s.pending[t.key];
                put_queue(
                    s.pending,
                    t.key,
                    if q.len() > 0 && q[0] == id {
                        q.drop_first()
                    } else {
                        without(q, id)
                    },
                )
            } else {
                s.pending
            },
            ..s
        }
    }
}

/// The state with its oldest queries left out until the limit is kept.
pub open spec fn shrunk(s: DnsState) -> DnsState
    decreases s.order.len(),
{
    if s.records.len() > s.max_records && s.order.len() > 0 {
        shrunk(evicted(s))
    } else {
        s
    }
}

/// The record that a query gives.
pub open spec fn query_record(m: MessageModel, timestamp_ms: u64, device: DeviceIdentity) -> RecordModel {
    RecordModel {
        timestamp: timestamp_ms,
        domain: m.domain,
        query_type: m.query_type,
        response_code: None,
        response_time_ms: None,
        source_ip: ip_text(m.source_ip),
        destination_ip: ip_text(m.destination_ip),
        source_port: m.source_port,
        destination_port: m.destination_port,
        transaction_id: m.transaction_id,
        is_query: true,
        protocol: m.protocol,
        response_ips: Seq::empty(),
        response_records: Seq::empty(),
        device_mac: device.mac@,
        device_name: device.name@,
        iface: device.iface@,
    }
}

/// The state after a new query.
pub open spec fn with_query(s: DnsState, key: MatchModel, record: RecordModel, ns: u64) -> DnsState {
    let queue = if s.pending.dom().contains(key) {
        s.pending[key]
    } else {
        Seq::empty()
    };
    shrunk(
        DnsState {
            recent_queries: s.recent_queries.insert(key, ns),
            next_id: next_number(s.next_id),
            records: s.records.insert(
                s.next_id,
                TrackedModel { observed_ns: ns, key, record },
            ),
            order: s.order.push(s.next_id),
            pending: s.pending.insert(key, queue.push(s.next_id)),
            ..s
        },
    )
}

/// Whether a query is gone or too old to be answered.
pub open spec fn expired(records: Map<u64, TrackedModel>, id: u64, ns: u64) -> bool {
    !records.dom().contains(id) || sat_sub(ns, records[id].observed_ns) > MAX_QUERY_MATCH_AGE_NS
}

/// A queue from its first query on that can be answered.
pub open spec fn live_queue(records: Map<u64, TrackedModel>, q: Seq<u64>, ns: u64) -> Seq<u64>
    decreases q.len(),
{
    if q.len() > 0 && expired(records, q[0], ns) {
        live_queue(records, q.drop_first(), ns)
    } else {
        q
    }
}

/// A query with the response to it.
pub open spec fn answered(t: TrackedModel, m: MessageModel, ns: u64) -> TrackedModel {
    TrackedModel {
        record: RecordModel {
            response_code: m.response_code,
            response_time_ms: Some((sat_sub(ns, t.observed_ns) / 1_000_000) as u64),
            response_ips: m.response_ips,
            response_records: m.response_records,
            ..t.record
        },
        ..t
    }
}

/// The state after a response: the oldest live query with its key is answered.
pub open spec fn with_response(s: DnsState, key: MatchModel, m: MessageModel, ns: u64) -> DnsState {
    if !s.pending.dom().contains(key) {
        s
    } else {
        let q = live_queue(s.records, s.pending[key], ns);
        if q.len() == 0 {
            DnsState { pending: s.pending.remove(key), ..s }
        } else {
            DnsState {
                pending: put_queue(s.pending, key, q.drop_first()),
                records: s.records.insert(q[0], answered(s.records[q[0]], m, ns)),
                recent_responses: s.recent_responses.insert(key, ns),
                ..s
            }
        }
    }
}

/// Whether a key was seen less than a window ago.
pub open spec fn seen_within(m: Map<MatchModel, u64>, k: MatchModel, ns: u64, window: u64) -> bool {
    m.dom().contains(k) && sat_sub(ns, m[k]) < window
}

/// What is left of a cache that grew over its limit: no entry from before the
/// window, and no more than the limit. Which of the entries inside the window go
/// is open.
pub open spec fn pruned(
    before: Map<MatchModel, u64>,
    after: Map<MatchModel, u64>,
    ns: u64,
    window: u64,
    limit: nat,
) -> bool {
    let cutoff = sat_sub(ns, window);
    if before.len() <= limit {
        after == before
    } else {
        &&& after.submap_of(before)
        &&& forall|k: MatchModel| #[trigger] after.dom().contains(k) ==> after[k] >= cutoff
        &&& after.len() <= limit
        &&& (after.len() == limit || forall|k: MatchModel| #[trigger]
            before.dom().contains(k) && before[k] >= cutoff ==> after.dom().contains(k))
    }
}

/// The most entries that a cache of seen keys holds.
pub open spec fn cache_limit(max_records: nat) -> nat {
    if 2 * max_records > usize::MAX {
        usize::MAX as nat
    } else if max_records == 0 {
        1
    } else {
        2 * max_records
    }
}

/// How a message changes the state. A message whose key was just seen changes
/// nothing; the caches are pruned after any other.
pub open spec fn ingest_step(
    before: DnsState,
    after: DnsState,
    m: MessageModel,
    ns: u64,
    timestamp_ms: u64,
    device: DeviceIdentity,
) -> bool {
    let key = match_of(m);
    if m.is_query && seen_within(before.recent_queries, key, ns, QUERY_DEDUP_WINDOW_NS) {
        after == before
    } else if !m.is_query && seen_within(
        before.recent_responses,
        key,
        ns,
        RESPONSE_DEDUP_WINDOW_NS,
    ) {
        after == before
    } else {
        let s = if m.is_query {
            with_query(before, key, query_record(m, timestamp_ms, device), ns)
        } else {
            with_response(before, key, m, ns)
        };
        let limit = cache_limit(s.max_records);
        &&& after == (DnsState {
            recent_queries: after.recent_queries,
            recent_responses: after.recent_responses,
            ..s
        })
        &&& pruned(s.recent_queries, after.recent_queries, ns, QUERY_DEDUP_WINDOW_NS, limit)
        &&& pruned(s.recent_responses, after.recent_responses, ns, RESPONSE_DEDUP_WINDOW_NS, limit)
    }
}

/// The kept records in the order of arrival.
pub open spec fn kept(order: Seq<u64>, records: Map<u64, TrackedModel>) -> Seq<RecordModel>
    decreases order.len(),
{
    if order.len() == 0 {
        Seq::empty()
    } else if records.dom().contains(order.last()) {
        kept(order.drop_last(), records).push(records[order.last()].record)
    } else {
        kept(order.drop_last(), records)
    }
}

impl DnsState {
    /// The kept records in the order of arrival.
    pub open spec fn listed(self) -> Seq<RecordModel> {
        kept(self.order, self.records)
    }
}

/// Keeps DNS queries and matches responses to them.
pub struct DnsMonitor {
    enabled: bool,
    persistence_enabled: bool,
    monitored_interfaces: Vec<String>,
    max_records: usize,
    records: BTreeMap<u64, TrackedQuery>,
    order: VecDeque<u64>,
    pending: Table<DnsMatchKey, VecDeque<u64>>,
    recent_queries: Table<DnsMatchKey, u64>,
    recent_responses: Table<DnsMatchKey, u64>,
    next_id: u64,
    capture_parse_errors: u64,
}

spec fn tracked_views(m: Map<u64, TrackedQuery>) -> Map<u64, TrackedModel> {
    Map::new(|id: u64| m.dom().contains(id), |id: u64| m[id]@)
}

spec fn queues(m: Map<MatchModel, VecDeque<u64>>) -> Map<MatchModel, Seq<u64>> {
    Map::new(|k: MatchModel| m.dom().contains(k), |k: MatchModel| m[k]@)
}

impl View for DnsMonitor {
    type V = DnsState;

    closed spec fn view(&self) -> DnsState {
        DnsState {
            enabled: self.enabled,
            persistence_enabled: self.persistence_enabled,
            interfaces: views(self.monitored_interfaces@),
            max_records: self.max_records as nat,
            records: tracked_views(self.records@),
            order: self.order@,
            pending: queues(self.pending@),
            recent_queries: self.recent_queries@,
            recent_responses: self.recent_responses@,
            next_id: self.next_id,
            parse_errors: self.capture_parse_errors,
        }
    }
}

/// What is set up of the monitor, and how much it holds.
#[derive(Debug)]
pub struct DnsConfig {
    pub enabled: bool,
    pub monitored_interfaces: Vec<String>,
    pub max_records: usize,
    pub records_in_memory: usize,
    pub persistence_enabled: bool,
}

impl DnsMonitor {
    /// Every kept query has its number in the order of arrival.
    pub closed spec fn wf(self) -> bool {
        &&& self.max_records >= 1
        &&& self.pending.wf()
        &&& self.recent_queries.wf()
        &&& self.recent_responses.wf()
        &&& forall|id: u64| #[trigger]
            self.records@.dom().contains(id) ==> self.order@.contains(id)
    }

    /// A monitor without records. It keeps at least one.
    pub fn new(
        enabled: bool,
        persistence_enabled: bool,
        max_records: usize,
        monitored_interfaces: Vec<String>,
    ) -> (r: Self)
        ensures
            r.wf(),
            r@ == (DnsState {
                enabled,
                persistence_enabled,
                interfaces: views(monitored_interfaces@),
                max_records: if max_records == 0 {
                    1
                } else {
                    max_records as nat
                },
                records: Map::empty(),
                order: Seq::empty(),
                pending: Map::empty(),
                recent_queries: Map::empty(),
                recent_responses: Map::empty(),
                next_id: 1,
                parse_errors: 0,
            }),
    {
        let r = DnsMonitor {
            enabled,
            persistence_enabled,
            monitored_interfaces,
            max_records: if max_records < 1 {
                1
            } else {
                max_records
            },
            records: BTreeMap::new(),
            order: VecDeque::new(),
            pending: Table::new(),
            recent_queries: Table::new(),
            recent_responses: Table::new(),
            next_id: 1,
            capture_parse_errors: 0,
        };
        assert(r@.records =~= Map::empty());
        assert(r@.pending =~= Map::empty());
        assert(r@.order =~= Seq::empty());
        r
    }

    /// What is set up, and how many records are held.
    pub fn config(&self) -> (r: DnsConfig)
        requires
            self.wf(),
        ensures
            r.enabled == self@.enabled,
            views(r.monitored_interfaces@) == self@.interfaces,
            r.max_records == self@.max_records,
            r.records_in_memory == self@.records.len(),
            r.persistence_enabled == self@.persistence_enabled,
    {
        assert(self@.records.dom() =~= self.records@.dom());
        DnsConfig {
            enabled: self.enabled,
            monitored_interfaces: copy_texts(&self.monitored_interfaces),
            max_records: self.max_records,
            records_in_memory: self.records.len(),
            persistence_enabled: self.persistence_enabled,
        }
    }

    /// Counts packets that could not be read.
    pub fn note_parse_errors(&mut self, count: u64)
        requires
            old(self).wf(),
        ensures
            final(self).wf(),
            final(self)@ == (DnsState {
                parse_errors: if old(self)@.parse_errors + count <= u64::MAX {
                    (old(self)@.parse_errors + count) as u64
                } else {
                    u64::MAX
                },
                ..old(self)@
            }),
    {
        self.capture_parse_errors = self.capture_parse_errors.saturating_add(count);
    }
}

proof fn lemma_record_map(m: Map<u64, TrackedQuery>)
    ensures
        tracked_views(m).dom() == m.dom(),
        tracked_views(m).len() == m.len(),
{
    assert(tracked_views(m).dom() =~= m.dom());
}

fn drop_number(q: &VecDeque<u64>, id: u64) -> (r: VecDeque<u64>)
    ensures
        r@ == without(q@, id),
{
    let mut r: VecDeque<u64> = VecDeque::new();
    let mut i: usize = 0;
    assert(q@.take(0) =~= Seq::<u64>::empty());
    assert(r@ =~= without(q@.take(0), id));
    while i < q.len()
        invariant
            i <= q@.len(),
            r@ == without(q@.take(i as int), id),
        decreases q@.len() - i,
    {
        assert(q@.take(i + 1).drop_last() =~= q@.take(i as int));
        if q[i] != id {
            r.push_back(q[i]);
        }
        i += 1;
    }
    assert(q@.take(i as int) =~= q@);
    r
}

/// Prunes a cache of seen keys.
fn prune_dedupe_cache(
    cache: &mut Table<DnsMatchKey, u64>,
    now_ns: u64,
    window_ns: u64,
    max_entries: usize,
)
    requires
        old(cache).wf(),
    ensures
        final(cache).wf(),
        pruned(old(cache)@, final(cache)@, now_ns, window_ns, max_entries as nat),
{
    proof {
        cache.lemma_len();
    }
    if cache.len() <= max_entries {
        return;
    }
    let cutoff: u64 = now_ns.saturating_sub(window_ns);
    let ghost before = *cache;
    let mut i: usize = 0;
    while i < cache.len()
        invariant
            cache.wf(),
            before.wf(),
            i <= cache.entries@.len(),
            cache@.submap_of(before@),
            forall|j: int| 0 <= j < i ==> (#[trigger] cache.entries@[j]).1 >= cutoff,
            forall|k: MatchModel| #[trigger]
                before@.dom().contains(k) && before@[k] >= cutoff ==> cache@.dom().contains(k),
        decreases cache.entries@.len() - i,
    {
        proof {
            cache.lemma_entry(i as int);
        }
        if cache.entries[i].1 < cutoff {
            let ghost mid = *cache;
            let _ = cache.remove_at(i);
            assert forall|j: int| 0 <= j < i implies (#[trigger] cache.entries@[j]).1 >= cutoff by {
                assert(cache.entries@[j] == mid.entries@[j]);
            }
        } else {
            i += 1;
        }
    }
    assert forall|k: MatchModel| #[trigger] cache@.dom().contains(k) implies cache@[k] >= cutoff by {
        let p = cache.place(k);
        cache.lemma_entry(p);
    }
    while cache.len() > max_entries
        invariant
            cache.wf(),
            cache@.submap_of(before@),
            cache.entries@.len() >= max_entries || forall|k: MatchModel| #[trigger]
                before@.dom().contains(k) && before@[k] >= cutoff ==> cache@.dom().contains(k),
            forall|k: MatchModel| #[trigger] cache@.dom().contains(k) ==> cache@[k] >= cutoff,
        decreases cache.entries@.len(),
    {
        let last: usize = cache.len() - 1;
        let _ = cache.remove_at(last);
    }
    proof {
        cache.lemma_len();
    }
}

impl DnsMonitor {
    fn evict_oldest(&mut self)
        requires
            old(self).wf(),
            old(self)@.order.len() > 0,
        ensures
            final(self).wf(),
            final(self)@ == evicted(old(self)@),
    {
        let ghost s = self@;
        let ghost before = *self;
        let id: u64 = match self.order.pop_front() {
            Some(id) => id,
            None => {
                return;
            },
        };
        proof {
            assert(s.order[0] == id);
            assert(self.order@ =~= s.order.drop_first());
            assert forall|x: u64| before.order@.contains(x) && x != id implies self.order@.contains(x) by {
                let i = choose|i: int| 0 <= i < before.order@.len() && before.order@[i] == x;
                assert(self.order@[i - 1] == x);
            }
        }
        let query = match self.records.remove(&id) {
            Some(q) => q,
            None => {
                assert(!s.records.dom().contains(id));
                assert(self.records@ =~= before.records@);
                assert(self@.records =~= s.records);
                assert(self@ =~= evicted(s));
                return;
            },
        };
        assert(self.records@ =~= before.records@.remove(id));
        assert(self@.records =~= s.records.remove(id));
        assert(query@ == s.records[id]);
        if query.record.response_time_ms.is_none() {
            match self.pending.find(&query.match_key) {
                Some(i) => {
                    let (key, mut queue) = self.pending.remove_at(i);
                    let ghost q0 = queue@;
                    let ghost kv = key@;
                    assert(q0 == s.pending[query@.key]);
                    assert(self@.pending =~= s.pending.remove(kv));
                    if queue.len() > 0 && queue[0] == id {
                        let _ = queue.pop_front();
                        assert(queue@ =~= q0.drop_first());
                    } else {
                        queue = drop_number(&queue, id);
                    }
                    if queue.len() > 0 {
                        let ghost q1 = queue@;
                        self.pending.insert(key, queue);
                        assert(self@.pending =~= s.pending.insert(kv, q1));
                    }
                },
                None => {},
            }
        }
        assert(self@ =~= evicted(s));
    }

    /// Takes in one message.
    #[verifier::rlimit(30)]
    pub fn ingest(
        &mut self,
        message: ParsedDnsMessage,
        header: DnsPacketHeader,
        timestamp_ms: u64,
        device: DeviceIdentity,
    )
        requires
            old(self).wf(),
        ensures
            final(self).wf(),
            ingest_step(
                old(self)@,
                final(self)@,
                message@,
                header.timestamp_ns,
                timestamp_ms,
                device,
            ),
    {
        let ns: u64 = header.timestamp_ns;
        let key = message.match_key();
        if message.is_query {
            if let Some(last) = self.recent_queries.get(&key) {
                if ns.saturating_sub(*last) < QUERY_DEDUP_WINDOW_NS {
                    return;
                }
            }
            self.take_query(message, key, ns, timestamp_ms, device);
        } else {
            if let Some(last) = self.recent_responses.get(&key) {
                if ns.saturating_sub(*last) < RESPONSE_DEDUP_WINDOW_NS {
                    return;
                }
            }
            self.take_response(message, key, ns);
        }
        let limit: usize = if self.max_records > usize::MAX / 2 {
            usize::MAX
        } else {
            self.max_records * 2
        };
        let ghost mid = self@;
        prune_dedupe_cache(&mut self.recent_queries, ns, QUERY_DEDUP_WINDOW_NS, limit);
        prune_dedupe_cache(&mut self.recent_responses, ns, RESPONSE_DEDUP_WINDOW_NS, limit);
        assert(self@ =~= DnsState {
            recent_queries: self@.recent_queries,
            recent_responses: self@.recent_responses,
            ..mid
        });
    }

    fn take_query(
        &mut self,
        message: ParsedDnsMessage,
        key: DnsMatchKey,
        ns: u64,
        timestamp_ms: u64,
        device: DeviceIdentity,
    )
        requires
            old(self).wf(),
        ensures
            final(self).wf(),
            final(self)@ == with_query(
                old(self)@,
                key@,
                query_record(message@, timestamp_ms, device),
                ns,
            ),
    {
        let ghost s = self@;
        let ghost before = *self;
        let ghost kv = key@;
        let id: u64 = self.next_id;
        self.recent_queries.insert(key.dup(), ns);
        self.next_id = if id == u64::MAX {
            1
        } else {
            id + 1
        };
        let record = DnsQueryRecord {
            timestamp: timestamp_ms,
            domain: message.domain,
            query_type: message.query_type,
            response_code: None,
            response_time_ms: None,
            source_ip: message.source_ip.to_text(),
            destination_ip: message.destination_ip.to_text(),
            source_port: message.source_port,
            destination_port: message.destination_port,
            transaction_id: message.transaction_id,
            is_query: true,
            protocol: message.protocol,
            response_ips: Vec::new(),
            response_records: Vec::new(),
            device_mac: device.mac,
            device_name: device.name,
            iface: device.iface,
        };
        assert(record@.response_ips =~= Seq::empty());
        assert(record@.response_records =~= Seq::empty());
        let ghost rv = record@;
        assert(rv == query_record(message@, timestamp_ms, device));
        let query = TrackedQuery { observed_ns: ns, match_key: key.dup(), record };
        let ghost qv = query@;
        let _ = self.records.insert(id, query);
        self.order.push_back(id);
        proof {
            assert(self@.records =~= s.records.insert(id, qv));
            assert forall|x: u64| #[trigger] self.records@.dom().contains(x) implies self.order@.contains(x) by {
                if x == id {
                    assert(self.order@[before.order@.len() as int] == x);
                } else {
                    assert(before.records@.dom().contains(x));
                    let i = choose|i: int| 0 <= i < before.order@.len() && before.order@[i] == x;
                    assert(self.order@[i] == x);
                }
            }
        }
        match self.pending.find(&key) {
            Some(i) => {
                let (k, mut queue) = self.pending.remove_at(i);
                let ghost q0 = queue@;
                queue.push_back(id);
                self.pending.insert(k, queue);
                assert(self@.pending =~= s.pending.insert(kv, q0.push(id)));
            },
            None => {
                let mut queue: VecDeque<u64> = VecDeque::new();
                queue.push_back(id);
                assert(queue@ =~= Seq::<u64>::empty().push(id));
                self.pending.insert(key, queue);
                assert(self@.pending =~= s.pending.insert(kv, Seq::<u64>::empty().push(id)));
            },
        }
        let ghost full = self@;
        assert(shrunk(full) == with_query(s, kv, rv, ns));
        proof {
            lemma_record_map(self.records@);
        }
        while self.records.len() > self.max_records
            invariant
                self.wf(),
                shrunk(self@) == shrunk(full),
                tracked_views(self.records@).len() == self.records@.len(),
            decreases self.order@.len(),
        {
            proof {
                assert(self.records@.len() > 0);
                let x = self.records@.dom().choose();
                assert(self.records@.dom().contains(x));
                assert(self.order@.contains(x));
            }
            self.evict_oldest();
            proof {
                lemma_record_map(self.records@);
            }
        }
    }

    fn take_response(&mut self, message: ParsedDnsMessage, key: DnsMatchKey, ns: u64)
        requires
            old(self).wf(),
        ensures
            final(self).wf(),
            final(self)@ == with_response(old(self)@, key@, message@, ns),
    {
        let ghost s = self@;
        let ghost before = *self;
        let (k, mut queue) = match self.pending.find(&key) {
            Some(i) => self.pending.remove_at(i),
            None => {
                assert(self@ =~= s);
                return;
            },
        };
        let ghost q0 = queue@;
        assert(q0 == s.pending[key@]);
        assert(self@.pending =~= s.pending.remove(key@));
        while queue.len() > 0 && self.is_expired(queue[0], ns)
            invariant
                self@.records == s.records,
                live_queue(s.records, q0, ns) == live_queue(s.records, queue@, ns),
            decreases queue@.len(),
        {
            let ghost q1 = queue@;
            let _ = queue.pop_front();
            assert(queue@ =~= q1.drop_first());
        }
        let ghost q = queue@;
        assert(live_queue(s.records, q0, ns) == q);
        let id: u64 = match queue.pop_front() {
            Some(id) => id,
            None => {
                assert(self@ =~= with_response(s, key@, message@, ns));
                return;
            },
        };
        assert(queue@ =~= q.drop_first());
        if queue.len() > 0 {
            let ghost q2 = queue@;
            self.pending.insert(k, queue);
            assert(self@.pending =~= s.pending.insert(key@, q2));
        }
        assert(self@.pending == put_queue(s.pending, key@, q.drop_first()));
        assert(s.records.dom().contains(id));
        if let Some(mut query) = self.records.remove(&id) {
            let ghost t0 = query@;
            assert(t0 == s.records[id]);
            let elapsed: u64 = ns.saturating_sub(query.observed_ns);
            query.record.response_code = message.response_code;
            query.record.response_time_ms = Some(elapsed / 1_000_000);
            query.record.response_ips = message.response_ips;
            query.record.response_records = message.response_records;
            assert(query@ == answered(t0, message@, ns));
            let _ = self.records.insert(id, query);
            assert(self@.records =~= s.records.insert(id, answered(t0, message@, ns)));
            self.recent_responses.insert(key, ns);
        }
        assert(self@ =~= with_response(s, key@, message@, ns));
    }

    fn is_expired(&self, id: u64, ns: u64) -> (r: bool)
        ensures
            r == expired(self@.records, id, ns),
    {
        match self.records.get(&id) {
            Some(query) => ns.saturating_sub(query.observed_ns) > MAX_QUERY_MATCH_AGE_NS,
            None => true,
        }
    }
}

/// The records behind references, over plain values.
pub open spec fn ref_views(v: Seq<&DnsQueryRecord>) -> Seq<RecordModel> {
    Seq::new(v.len(), |i: int| v[i]@)
}

/// A stored record as it is restored: a query without a response gets none any
/// more.
pub open spec fn settled(r: RecordModel) -> RecordModel {
    if r.response_time_ms is None && r.response_code is None {
        RecordModel { response_code: Some("NO_RESPONSE"@), ..r }
    } else {
        r
    }
}

/// Marks a stored query without a response as one that gets none any more.
pub fn settle(record: DnsQueryRecord) -> (r: DnsQueryRecord)
    ensures
        r@ == settled(record@),
{
    let mut record = record;
    if record.response_time_ms.is_none() && record.response_code.is_none() {
        record.response_code = Some(copy_text("NO_RESPONSE"));
    }
    record
}

/// The key of a stored record. An address that cannot be read counts as 0.0.0.0.
pub open spec fn stored_key(r: RecordModel) -> MatchModel {
    MatchModel {
        client_ip: match parsed_ip(r.source_ip) {
            Some(a) => a,
            None => seq![0u8, 0u8, 0u8, 0u8],
        },
        client_port: r.source_port,
        transaction_id: r.transaction_id,
        domain: lowered(r.domain),
        query_type: uppered(r.query_type),
        protocol: r.protocol,
    }
}

/// The state with stored records added in their order.
pub open spec fn restored(s: DnsState, records: Seq<RecordModel>) -> DnsState
    decreases records.len(),
{
    if records.len() == 0 {
        s
    } else {
        let t = restored(s, records.drop_last());
        let r = settled(records.last());
        DnsState {
            next_id: next_number(t.next_id),
            records: t.records.insert(
                t.next_id,
                TrackedModel { observed_ns: 0, key: stored_key(r), record: r },
            ),
            order: t.order.push(t.next_id),
            ..t
        }
    }
}

impl DnsMonitor {
    pub(crate) fn parse_error_count(&self) -> (r: u64)
        ensures
            r == self@.parse_errors,
    {
        self.capture_parse_errors
    }

    /// The kept records in the order of arrival.
    pub(crate) fn in_order(&self) -> (r: Vec<&DnsQueryRecord>)
        requires
            self.wf(),
        ensures
            ref_views(r@) == self@.listed(),
    {
        let mut r: Vec<&DnsQueryRecord> = Vec::new();
        let mut i: usize = 0;
        assert(self.order@.take(0) =~= Seq::<u64>::empty());
        assert(ref_views(r@) =~= Seq::empty());
        while i < self.order.len()
            invariant
                i <= self.order@.len(),
                ref_views(r@) == kept(self.order@.take(i as int), self@.records),
            decreases self.order@.len() - i,
        {
            assert(self.order@.take(i + 1).drop_last() =~= self.order@.take(i as int));
            let ghost before = ref_views(r@);
            if let Some(t) = self.records.get(&self.order[i]) {
                r.push(&t.record);
                assert(ref_views(r@) =~= before.push(t.record@));
            }
            i += 1;
        }
        assert(self.order@.take(i as int) =~= self.order@);
        r
    }

    /// A copy of the kept records, to be stored.
    pub fn records_for_persistence(&self) -> (r: Vec<DnsQueryRecord>)
        requires
            self.wf(),
        ensures
            record_views(r@) == self@.listed(),
    {
        let refs = self.in_order();
        let mut r: Vec<DnsQueryRecord> = Vec::new();
        let mut i: usize = 0;
        while i < refs.len()
            invariant
                i <= refs@.len(),
                record_views(r@) == ref_views(refs@).take(i as int),
            decreases refs@.len() - i,
        {
            let ghost before = record_views(r@);
            let c = refs[i].clone();
            let ghost cv = c@;
            r.push(c);
            assert(record_views(r@) =~= before.push(cv));
            assert(ref_views(refs@).take(i + 1) =~= ref_views(refs@).take(i as int).push(
                refs@[i as int]@,
            ));
            i += 1;
        }
        assert(ref_views(refs@).take(i as int) =~= ref_views(refs@));
        r
    }

    /// Adds stored records: the newest of them, as many as are kept.
    pub fn restore_records(&mut self, records: Vec<DnsQueryRecord>)
        requires
            old(self).wf(),
        ensures
            final(self).wf(),
            final(self)@ == restored(
                old(self)@,
                newest(record_views(records@), old(self)@.max_records),
            ),
    {
        let ghost s = self@;
        let ghost all = record_views(records@);
        let n: usize = records.len();
        let first: usize = if n <= self.max_records {
            0
        } else {
            n - self.max_records
        };
        let ghost tail = newest(all, s.max_records);
        assert(tail =~= all.skip(first as int));
        let mut i: usize = first;
        assert(tail.take(0) =~= Seq::<RecordModel>::empty());
        while i < records.len()
            invariant
                self.wf(),
                first <= i <= records@.len(),
                all == record_views(records@),
                tail == all.skip(first as int),
                self@ == restored(s, tail.take(i - first)),
            decreases records@.len() - i,
        {
            let ghost t = self@;
            let ghost before = *self;
            assert(tail.take(i - first + 1).drop_last() =~= tail.take(i - first));
            assert(tail.take(i - first + 1).last() == records@[i as int]@);
            let record = settle(records[i].clone());
            let ghost rv = record@;
            let id: u64 = self.next_id;
            self.next_id = if id == u64::MAX {
                1
            } else {
                id + 1
            };
            let client_ip = match parse_ip_text(record.source_ip.as_str()) {
                Some(a) => a,
                None => {
                    let zero = IpAddr::V4([0, 0, 0, 0]);
                    assert(zero@ =~= seq![0u8, 0u8, 0u8, 0u8]);
                    zero
                },
            };
            let match_key = DnsMatchKey {
                client_ip,
                client_port: record.source_port,
                transaction_id: record.transaction_id,
                domain: to_ascii_lowercase(record.domain.as_str()),
                query_type: to_ascii_uppercase(record.query_type.as_str()),
                protocol: record.protocol.clone(),
            };
            assert(match_key@ == stored_key(rv));
            let query = TrackedQuery { observed_ns: 0, match_key, record };
            let ghost qv = query@;
            let _ = self.records.insert(id, query);
            self.order.push_back(id);
            proof {
                assert(self@.records =~= t.records.insert(id, qv));
                assert forall|x: u64| #[trigger] self.records@.dom().contains(x) implies self.order@.contains(x) by {
                    if x == id {
                        assert(self.order@[before.order@.len() as int] == x);
                    } else {
                        assert(before.records@.dom().contains(x));
                        let j = choose|j: int| 0 <= j < before.order@.len() && before.order@[j] == x;
                        assert(self.order@[j] == x);
                    }
                }
                assert(self@ =~= restored(s, tail.take(i - first + 1)));
            }
            i += 1;
        }
        assert(tail.take(i - first) =~= tail);
    }
}

/// The message of a captured event. The header says how many bytes were captured;
/// the event must hold them.
pub open spec fn event_read(header: DnsPacketHeader, body: Seq<u8>) -> Option<MessageModel> {
    let len = if header.captured_len < DNS_PACKET_MAX_BYTES {
        header.captured_len as int
    } else {
        DNS_PACKET_MAX_BYTES as int
    };
    if len == 0 || body.len() < len {
        None
    } else {
        packet_message(body.take(len), header.ip_offset as int, header.ip_version)
    }
}

/// Reads the message of a captured event.
pub fn event_message(header: &DnsPacketHeader, body: &[u8]) -> (r: Option<ParsedDnsMessage>)
    ensures
        match r {
            Some(m) => event_read(*header, body@) == Some(m@),
            None => event_read(*header, body@) is None,
        },
{
    let len: usize = if (header.captured_len as u64) < DNS_PACKET_MAX_BYTES as u64 {
        header.captured_len as usize
    } else {
        DNS_PACKET_MAX_BYTES
    };
    if len == 0 || body.len() < len {
        return None;
    }
    let packet = slice_subrange(body, 0, len);
    assert(packet@ =~= body@.take(len as int));
    parse_dns_packet(packet, header.ip_offset as usize, header.ip_version)
}

/// The wall-clock time of an event in milliseconds, from the two clocks at one
/// moment; not before the epoch.
pub open spec fn event_time(timestamp_ns: u64, now_ms: u64, monotonic_ns: u64) -> u64 {
    let ns = timestamp_ns + now_ms * 1_000_000 - monotonic_ns;
    if ns < 0 {
        0
    } else {
        (ns / 1_000_000) as u64
    }
}

/// The wall-clock time of an event in milliseconds.
pub fn event_time_ms(timestamp_ns: u64, now_ms: u64, monotonic_ns: u64) -> (r: u64)
    ensures
        r == event_time(timestamp_ns, now_ms, monotonic_ns),
{
    let ahead: u128 = timestamp_ns as u128 + (now_ms as u128) * 1_000_000;
    if ahead < monotonic_ns as u128 {
        0
    } else {
        ((ahead - monotonic_ns as u128) / 1_000_000) as u64
    }
}

proof fn lemma_shrunk_fits(s: DnsState)
    requires
        s.records.dom().finite(),
        forall|id: u64| #[trigger] s.records.dom().contains(id) ==> s.order.contains(id),
    ensures
        shrunk(s).records.len() <= s.max_records,
        shrunk(s).max_records == s.max_records,
    decreases s.order.len(),
{
    if s.records.len() > s.max_records {
        let x = s.records.dom().choose();
        assert(s.records.dom().len() > 0);
        assert(s.records.dom().contains(x));
        assert(s.order.contains(x));
        let e = evicted(s);
        assert forall|id: u64| #[trigger] e.records.dom().contains(id) implies e.order.contains(id) by {
            let i = choose|i: int| 0 <= i < s.order.len() && s.order[i] == id;
            assert(i != 0);
            assert(e.order[i - 1] == id);
        }
        lemma_shrunk_fits(e);
    }
}

/// After a new query no more records are kept than the limit allows.
pub proof fn law_limit_is_kept(s: DnsState, key: MatchModel, record: RecordModel, ns: u64)
    requires
        s.records.dom().finite(),
        forall|id: u64| #[trigger] s.records.dom().contains(id) ==> s.order.contains(id),
    ensures
        with_query(s, key, record, ns).records.len() <= s.max_records,
{
    let queue = if s.pending.dom().contains(key) {
        s.pending[key]
    } else {
        Seq::empty()
    };
    let full = DnsState {
        recent_queries: s.recent_queries.insert(key, ns),
        next_id: next_number(s.next_id),
        records: s.records.insert(s.next_id, TrackedModel { observed_ns: ns, key, record }),
        order: s.order.push(s.next_id),
        pending: s.pending.insert(key, queue.push(s.next_id)),
        ..s
    };
    assert forall|id: u64| #[trigger] full.records.dom().contains(id) implies full.order.contains(id) by {
        if id == s.next_id {
            assert(full.order[s.order.len() as int] == id);
        } else {
            let i = choose|i: int| 0 <= i < s.order.len() && s.order[i] == id;
            assert(full.order[i] == id);
        }
    }
    lemma_shrunk_fits(full);
}

/// When a message like this one was last taken in, as far as that is remembered.
pub open spec fn noted_at(s: DnsState, m: MessageModel) -> Option<u64> {
    let seen = if m.is_query {
        s.recent_queries
    } else {
        s.recent_responses
    };
    if seen.dom().contains(match_of(m)) {
        Some(seen[match_of(m)])
    } else {
        None
    }
}

/// How long a message like this one is passed over after it was taken in.
pub open spec fn dedup_window(m: MessageModel) -> u64 {
    if m.is_query {
        QUERY_DEDUP_WINDOW_NS
    } else {
        RESPONSE_DEDUP_WINDOW_NS
    }
}

/// A message that was taken in and is seen again inside its window, on whatever
/// interface, leaves the state alone, as long as it is remembered. Every query is
/// remembered, and every response that finds its query, unless more messages are
/// remembered than the limit allows.
pub proof fn law_duplicate_is_ignored(
    s: DnsState,
    after: DnsState,
    again: DnsState,
    m: MessageModel,
    ns: u64,
    later_ns: u64,
    timestamp_ms: u64,
    later_ms: u64,
    device: DeviceIdentity,
    other: DeviceIdentity,
)
    requires
        later_ns >= ns,
        later_ns - ns < dedup_window(m),
        ingest_step(s, after, m, ns, timestamp_ms, device),
        noted_at(s, m) matches Some(t) ==> sat_sub(ns, t) >= dedup_window(m),
        ingest_step(after, again, m, later_ns, later_ms, other),
    ensures
        noted_at(after, m) == Some(ns) ==> again == after,
        m.is_query && s.recent_queries.insert(match_of(m), ns).len() <= cache_limit(s.max_records)
            ==> noted_at(after, m) == Some(ns),
        !m.is_query && s.pending.dom().contains(match_of(m)) && live_queue(
            s.records,
            s.pending[match_of(m)],
            ns,
        ).len() > 0 && s.recent_responses.insert(match_of(m), ns).len() <= cache_limit(
            s.max_records,
        ) ==> noted_at(after, m) == Some(ns),
{
    if m.is_query {
        let key = match_of(m);
        let record = query_record(m, timestamp_ms, device);
        let queue = if s.pending.dom().contains(key) {
            s.pending[key]
        } else {
            Seq::empty()
        };
        lemma_shrunk_keeps_caches(
            DnsState {
                recent_queries: s.recent_queries.insert(key, ns),
                next_id: next_number(s.next_id),
                records: s.records.insert(
                    s.next_id,
                    TrackedModel { observed_ns: ns, key, record },
                ),
                order: s.order.push(s.next_id),
                pending: s.pending.insert(key, queue.push(s.next_id)),
                ..s
            },
        );
        assert(with_query(s, key, record, ns).recent_queries == s.recent_queries.insert(key, ns));
    }
}

proof fn lemma_shrunk_keeps_caches(s: DnsState)
    ensures
        shrunk(s).recent_queries == s.recent_queries,
        shrunk(s).recent_responses == s.recent_responses,
        shrunk(s).max_records == s.max_records,
    decreases s.order.len(),
{
    if s.records.len() > s.max_records && s.order.len() > 0 {
        lemma_shrunk_keeps_caches(evicted(s));
    }
}

/// A response answers the oldest live query with its key and no other record.
pub proof fn law_response_answers_one(s: DnsState, key: MatchModel, m: MessageModel, ns: u64, id: u64)
    requires
        s.records.dom().contains(id),
    ensures
        ({
            let after = with_response(s, key, m, ns);
            let q = live_queue(s.records, s.pending[key], ns);
            &&& after.records.dom().contains(id)
            &&& after.order == s.order
            &&& after.records[id] != s.records[id] ==> s.pending.dom().contains(key) && q.len() > 0
                && id == q[0] && after.records[id] == answered(s.records[id], m, ns)
        }),
{
}

proof fn lemma_kept_agree(order: Seq<u64>, a: Map<u64, TrackedModel>, b: Map<u64, TrackedModel>)
    requires
        forall|i: int|
            0 <= i < order.len() ==> (a.dom().contains(#[trigger] order[i]) <==> b.dom().contains(
                order[i],
            )) && (a.dom().contains(order[i]) ==> a[order[i]] == b[order[i]]),
    ensures
        kept(order, a) == kept(order, b),
    decreases order.len(),
{
    if order.len() > 0 {
        let front = order.drop_last();
        assert forall|i: int| 0 <= i < front.len() implies (a.dom().contains(#[trigger] front[i])
            <==> b.dom().contains(front[i])) && (a.dom().contains(front[i]) ==> a[front[i]]
            == b[front[i]]) by {
            assert(front[i] == order[i]);
        }
        lemma_kept_agree(front, a, b);
        assert(order.last() == order[order.len() - 1]);
    }
}

/// Stored records come back in their order: a new monitor that takes them over lists
/// each of them, and marks only those that will get no response any more.
pub proof fn law_stored_records_come_back(s: DnsState, records: Seq<RecordModel>)
    requires
        s.order.len() == 0,
        s.next_id + records.len() <= u64::MAX,
    ensures
        restored(s, records).listed() == Seq::new(records.len(), |i: int| settled(records[i])),
        restored(s, records).order == Seq::new(records.len(), |i: int| (s.next_id + i) as u64),
        restored(s, records).next_id == s.next_id + records.len(),
    decreases records.len(),
{
    let after = restored(s, records);
    if records.len() == 0 {
        assert(after.order =~= Seq::new(records.len(), |i: int| (s.next_id + i) as u64));
        assert(after.listed() =~= Seq::new(records.len(), |i: int| settled(records[i])));
    } else {
        let front = records.drop_last();
        let t = restored(s, front);
        law_stored_records_come_back(s, front);
        assert(after.order.drop_last() =~= t.order);
        assert forall|i: int| 0 <= i < t.order.len() implies #[trigger] t.order[i] != t.next_id by {}
        lemma_kept_agree(t.order, t.records, after.records);
        assert(after.order =~= Seq::new(records.len(), |i: int| (s.next_id + i) as u64));
        assert(after.listed() =~= Seq::new(records.len(), |i: int| settled(records[i])));
    }
}

} // verus!
