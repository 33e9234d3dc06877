//! What the DNS monitor makes of a query and of the response to it.
use crate::dns::{
    event_time, evicted, expired, ingest_step, kept, law_stored_records_come_back, live_queue,
    match_of, next_number, noted_at, query_record, restored, shrunk, with_query, with_response,
    without, DeviceIdentity, DnsState, MatchModel, TrackedModel,
};
use crate::dnsmsg::MessageModel;
use crate::dnsrec::RecordModel;
use crate::ip::ip_text;
use crate::series::newest;
use crate::text::{lowered, uppered};
use vstd::prelude::*;

verus! {

/// Whether the numbers in a queue are those of unanswered queries with its key.
spec fn queue_fits(records: Map<u64, TrackedModel>, k: MatchModel, q: Seq<u64>) -> bool {
    &&& q.no_duplicates()
    &&& forall|i: int|
        0 <= i < q.len() ==> records.dom().contains(#[trigger] q[i]) && records[q[i]].key == k
            && records[q[i]].record.response_time_ms is None
}

/// Whether the records of a state are in order: each has its number once in the order of
/// arrival, the next number is free, and the unanswered ones wait under their keys.
pub closed spec fn orderly(s: DnsState) -> bool {
    &&& s.max_records >= 1
    &&& s.order.no_duplicates()
    &&& s.records.dom().finite()
    &&& forall|id: u64| #[trigger] s.records.dom().contains(id) <==> s.order.contains(id)
    &&& forall|k: MatchModel| #[trigger]
        s.pending.dom().contains(k) ==> queue_fits(s.records, k, s.pending[k])
}

proof fn lemma_same_len(s: DnsState)
    requires
        orderly(s),
    ensures
        s.records.len() == s.order.len(),
{
    s.order.unique_seq_to_set();
    assert(s.records.dom() =~= s.order.to_set());
}

proof fn lemma_without(q: Seq<u64>, id: u64)
    requires
        q.no_duplicates(),
    ensures
        forall|i: int|
            0 <= i < without(q, id).len() ==> q.contains(#[trigger] without(q, id)[i]) && without(
                q,
                id,
            )[i] != id,
        without(q, id).no_duplicates(),
        !q.contains(id) ==> without(q, id) == q,
    decreases q.len(),
{
    if q.len() > 0 {
        let front = q.drop_last();
        lemma_without(front, id);
        let w = without(front, id);
        let r = without(q, id);
        assert forall|i: int| 0 <= i < r.len() implies q.contains(#[trigger] r[i]) && r[i] != id by {
            if i < w.len() {
                assert(r[i] == w[i]);
                assert(front.contains(w[i]));
                let j = choose|j: int| 0 <= j < front.len() && front[j] == w[i];
                assert(q[j] == w[i]);
            } else {
                assert(q[q.len() - 1] == q.last());
            }
        }
        assert forall|i: int, j: int| 0 <= i < j < r.len() implies r[i] != r[j] by {
            if j == w.len() {
                assert(front.contains(w[i]));
                let k = choose|k: int| 0 <= k < front.len() && front[k] == w[i];
                assert(q[k] == w[i] && q[q.len() - 1] == r[j]);
            } else {
                assert(w[i] != w[j]);
            }
        }
        if !q.contains(id) {
            assert(q[q.len() - 1] != id);
            assert(!front.contains(id)) by {
                if front.contains(id) {
                    let j = choose|j: int| 0 <= j < front.len() && front[j] == id;
                    assert(q[j] == id);
                }
            }
            assert(without(q, id) =~= q);
        }
    }
}

proof fn lemma_part_fits(
    records: Map<u64, TrackedModel>,
    k: MatchModel,
    q: Seq<u64>,
    id: u64,
    part: Seq<u64>,
)
    requires
        queue_fits(records, k, q),
        part.no_duplicates(),
        forall|i: int| 0 <= i < part.len() ==> q.contains(#[trigger] part[i]) && part[i] != id,
    ensures
        queue_fits(records.remove(id), k, part),
{
    assert forall|i: int| 0 <= i < part.len() implies records.remove(id).dom().contains(
        #[trigger] part[i],
    ) && records.remove(id)[part[i]].key == k && records.remove(
        id,
    )[part[i]].record.response_time_ms is None by {
        assert(q.contains(part[i]));
        let j = choose|j: int| 0 <= j < q.len() && q[j] == part[i];
        assert(records.dom().contains(q[j]));
    }
}

proof fn lemma_evicted(s: DnsState)
    requires
        orderly(s),
        s.order.len() > 1,
    ensures
        orderly(evicted(s)),
        evicted(s).order == s.order.drop_first(),
        forall|id: u64| #[trigger]
            evicted(s).records.dom().contains(id) ==> evicted(s).records[id] == s.records[id],
        forall|k: MatchModel|
            s.pending.dom().contains(k) && s.pending[k] == seq![s.order.last()]
                ==> #[trigger] evicted(s).pending.dom().contains(k) && evicted(s).pending[k]
                == s.pending[k],
{
    let e = evicted(s);
    let id = s.order[0];
    assert(s.order.contains(id));
    let t = s.records[id];
    assert forall|x: u64| #[trigger] e.records.dom().contains(x) <==> e.order.contains(x) by {
        if e.records.dom().contains(x) {
            let i = choose|i: int| 0 <= i < s.order.len() && s.order[i] == x;
            assert(e.order[i - 1] == x);
        }
        if e.order.contains(x) {
            let i = choose|i: int| 0 <= i < e.order.len() && e.order[i] == x;
            assert(s.order[i + 1] == x);
            assert(s.order[0] != s.order[i + 1]);
        }
    }
    assert forall|k: MatchModel| #[trigger] e.pending.dom().contains(k) implies queue_fits(
        e.records,
        k,
        e.pending[k],
    ) by {
        assert(s.pending.dom().contains(k));
        let q = s.pending[k];
        if t.record.response_time_ms is None && k == t.key {
            lemma_without(q, id);
            let part = e.pending[k];
            if q.len() > 0 && q[0] == id {
                assert(part =~= q.drop_first());
                assert forall|i: int| 0 <= i < part.len() implies q.contains(#[trigger] part[i])
                    && part[i] != id by {
                    assert(q[i + 1] == part[i]);
                }
            }
            lemma_part_fits(s.records, k, q, id, part);
        } else {
            assert forall|i: int| 0 <= i < q.len() implies q.contains(#[trigger] q[i]) && q[i]
                != id by {
                assert(s.records.dom().contains(q[i]));
            }
            lemma_part_fits(s.records, k, q, id, q);
        }
    }
    assert forall|k: MatchModel|
        s.pending.dom().contains(k) && s.pending[k] == seq![s.order.last()] implies
        #[trigger] e.pending.dom().contains(k) && e.pending[k] == s.pending[k] by {
        let q = s.pending[k];
        assert(s.order[0] != s.order[s.order.len() - 1]);
        assert(q[0] != id);
        assert(!q.contains(id));
        lemma_without(q, id);
    }
}

proof fn lemma_shrunk(s: DnsState)
    requires
        orderly(s),
        s.order.len() >= 1,
    ensures
        orderly(shrunk(s)),
        shrunk(s).order == newest(s.order, s.max_records),
        shrunk(s).max_records == s.max_records,
        shrunk(s).recent_queries == s.recent_queries,
        shrunk(s).recent_responses == s.recent_responses,
        shrunk(s).next_id == s.next_id,
        forall|id: u64| #[trigger]
            shrunk(s).records.dom().contains(id) ==> shrunk(s).records[id] == s.records[id],
        forall|k: MatchModel|
            s.pending.dom().contains(k) && s.pending[k] == seq![s.order.last()]
                ==> #[trigger] shrunk(s).pending.dom().contains(k) && shrunk(s).pending[k]
                == s.pending[k],
    decreases s.order.len(),
{
    lemma_same_len(s);
    if s.records.len() > s.max_records {
        let e = evicted(s);
        lemma_evicted(s);
        assert(e.order.last() == s.order.last());
        lemma_shrunk(e);
        assert(newest(e.order, s.max_records) =~= newest(s.order, s.max_records));
        assert forall|k: MatchModel|
            s.pending.dom().contains(k) && s.pending[k] == seq![s.order.last()] implies
            #[trigger] shrunk(s).pending.dom().contains(k) && shrunk(s).pending[k]
            == s.pending[k] by {
            assert(e.pending.dom().contains(k));
        }
    }
}

proof fn lemma_kept(order: Seq<u64>, records: Map<u64, TrackedModel>)
    requires
        forall|i: int| 0 <= i < order.len() ==> records.dom().contains(#[trigger] order[i]),
    ensures
        kept(order, records) == Seq::new(order.len(), |i: int| records[order[i]].record),
    decreases order.len(),
{
    let want = Seq::new(order.len(), |i: int| records[order[i]].record);
    if order.len() > 0 {
        let front = order.drop_last();
        assert forall|i: int| 0 <= i < front.len() implies records.dom().contains(
            #[trigger] front[i],
        ) by {
            assert(front[i] == order[i]);
        }
        lemma_kept(front, records);
        assert(records.dom().contains(order[order.len() - 1]));
        assert(kept(order, records) =~= want);
    } else {
        assert(kept(order, records) =~= want);
    }
}

proof fn lemma_listed(s: DnsState)
    requires
        orderly(s),
    ensures
        s.listed() == Seq::new(s.order.len(), |i: int| s.records[s.order[i]].record),
{
    assert forall|i: int| 0 <= i < s.order.len() implies s.records.dom().contains(
        #[trigger] s.order[i],
    ) by {
        assert(s.order.contains(s.order[i]));
    }
    lemma_kept(s.order, s.records);
}

spec fn with_one_more(s: DnsState, key: MatchModel, record: RecordModel, ns: u64) -> DnsState {
    let queue = if s.pending.dom().contains(key) {
        s.pending[key]
    } else {
        Seq::empty()
    };
    DnsState {
        recent_queries: s.recent_queries.insert(key, ns),
        next_id: next_number(s.next_id),
        records: s.records.insert(s.next_id, TrackedModel { observed_ns: ns, key, record }),
        order: s.order.push(s.next_id),
        pending: s.pending.insert(key, queue.push(s.next_id)),
        ..s
    }
}

proof fn lemma_one_more(s: DnsState, key: MatchModel, record: RecordModel, ns: u64)
    requires
        orderly(s),
        !s.order.contains(s.next_id),
        record.response_time_ms is None,
    ensures
        orderly(with_one_more(s, key, record, ns)),
        with_query(s, key, record, ns) == shrunk(with_one_more(s, key, record, ns)),
{
    let f = with_one_more(s, key, record, ns);
    let id = s.next_id;
    assert forall|x: u64| #[trigger] f.records.dom().contains(x) <==> f.order.contains(x) by {
        if f.records.dom().contains(x) {
            if x == id {
                assert(f.order[s.order.len() as int] == x);
            } else {
                let i = choose|i: int| 0 <= i < s.order.len() && s.order[i] == x;
                assert(f.order[i] == x);
            }
        }
        if f.order.contains(x) {
            let i = choose|i: int| 0 <= i < f.order.len() && f.order[i] == x;
            if i < s.order.len() {
                assert(s.order[i] == x);
            }
        }
    }
    assert forall|i: int, j: int|
        0 <= i < f.order.len() && 0 <= j < f.order.len() && i != j implies f.order[i]
        != f.order[j] by {
        if i < s.order.len() {
            assert(s.order.contains(s.order[i]));
        }
        if j < s.order.len() {
            assert(s.order.contains(s.order[j]));
        }
    }
    assert(!s.records.dom().contains(id));
    assert forall|k: MatchModel| #[trigger] f.pending.dom().contains(k) implies queue_fits(
        f.records,
        k,
        f.pending[k],
    ) by {
        let q = f.pending[k];
        let old_q = if s.pending.dom().contains(k) {
            s.pending[k]
        } else {
            Seq::empty()
        };
        assert forall|i: int| 0 <= i < old_q.len() implies s.records.dom().contains(
            #[trigger] old_q[i],
        ) && old_q[i] != id by {}
        assert forall|i: int| 0 <= i < q.len() implies f.records.dom().contains(#[trigger] q[i])
            && f.records[q[i]].key == k && f.records[q[i]].record.response_time_ms is None by {
            if i < old_q.len() {
                assert(q[i] == old_q[i]);
            }
        }
        assert forall|i: int, j: int| 0 <= i < j < q.len() implies q[i] != q[j] by {
            assert(q[i] == old_q[i]);
            if j < old_q.len() {
                assert(q[j] == old_q[j]);
            }
        }
    }
}

proof fn lemma_live(records: Map<u64, TrackedModel>, k: MatchModel, q: Seq<u64>, ns: u64)
    requires
        queue_fits(records, k, q),
    ensures
        queue_fits(records, k, live_queue(records, q, ns)),
    decreases q.len(),
{
    if q.len() > 0 && expired(records, q[0], ns) {
        let rest = q.drop_first();
        assert forall|i: int| 0 <= i < rest.len() implies records.dom().contains(
            #[trigger] rest[i],
        ) && records[rest[i]].key == k && records[rest[i]].record.response_time_ms is None by {
            assert(rest[i] == q[i + 1]);
        }
        lemma_live(records, k, rest, ns);
    }
}

proof fn lemma_answering(s: DnsState, key: MatchModel, m: MessageModel, ns: u64)
    requires
        orderly(s),
    ensures
        orderly(with_response(s, key, m, ns)),
        with_response(s, key, m, ns).order == s.order,
        with_response(s, key, m, ns).next_id == s.next_id,
        forall|id: u64|
            s.records.dom().contains(id) && s.records[id].key != key ==> (#[trigger] with_response(
                s,
                key,
                m,
                ns,
            ).records[id]) == s.records[id],
{
    let a = with_response(s, key, m, ns);
    if s.pending.dom().contains(key) {
        let q = live_queue(s.records, s.pending[key], ns);
        lemma_live(s.records, key, s.pending[key], ns);
        if q.len() > 0 {
            let x = q[0];
            assert(s.records.dom().contains(x));
            assert(a.records.dom() =~= s.records.dom());
            let rest = q.drop_first();
            assert forall|k: MatchModel| #[trigger] a.pending.dom().contains(k) implies queue_fits(
                a.records,
                k,
                a.pending[k],
            ) by {
                let p = a.pending[k];
                if k == key {
                    assert(p == rest);
                    assert forall|i: int| 0 <= i < p.len() implies a.records.dom().contains(
                        #[trigger] p[i],
                    ) && a.records[p[i]].key == k
                        && a.records[p[i]].record.response_time_ms is None by {
                        assert(p[i] == q[i + 1]);
                        assert(q[0] != q[i + 1]);
                    }
                } else {
                    assert(s.pending.dom().contains(k));
                    assert(p == s.pending[k]);
                    assert forall|i: int| 0 <= i < p.len() implies a.records.dom().contains(
                        #[trigger] p[i],
                    ) && a.records[p[i]].key == k
                        && a.records[p[i]].record.response_time_ms is None by {
                        assert(s.records[p[i]].key == k);
                    }
                }
            }
        }
    }
}

/// A new monitor is orderly, and it stays so whatever messages it takes in, for as long as
/// there is a number for the next query.
pub proof fn law_monitor_stays_orderly(
    s: DnsState,
    after: DnsState,
    m: MessageModel,
    ns: u64,
    time_ms: u64,
    device: DeviceIdentity,
)
    requires
        s.max_records >= 1,
        ingest_step(s, after, m, ns, time_ms, device),
        !s.order.contains(s.next_id),
    ensures
        s.records == Map::<u64, TrackedModel>::empty() && s.order.len() == 0 && s.pending
            == Map::<MatchModel, Seq<u64>>::empty() ==> orderly(s),
        orderly(s) ==> orderly(after),
{
    if orderly(s) {
        let key = match_of(m);
        let record = query_record(m, time_ms, device);
        if m.is_query {
            lemma_one_more(s, key, record, ns);
            lemma_shrunk(with_one_more(s, key, record, ns));
        } else {
            lemma_answering(s, key, m, ns);
        }
    }
}

/// Whether a message was not seen in the last half second.
pub open spec fn is_news(s: DnsState, m: MessageModel, ns: u64) -> bool {
    noted_at(s, m) matches Some(t) ==> ns - t >= 500_000_000
}

/// A query is listed behind those before it, with what it says of itself and of its
/// device, and without a response. The oldest record goes where there are too many.
pub proof fn law_query_is_listed(
    s: DnsState,
    after: DnsState,
    q: MessageModel,
    ns: u64,
    time_ms: u64,
    device: DeviceIdentity,
)
    requires
        orderly(s),
        !s.order.contains(s.next_id),
        q.is_query,
        is_news(s, q, ns),
        ingest_step(s, after, q, ns, time_ms, device),
    ensures
        after.listed().len() > 0,
        after.listed().drop_last() == newest(s.listed(), (s.max_records - 1) as nat),
        after.listed().len() <= s.max_records,
        ({
            let r = after.listed().last();
            &&& r.timestamp == time_ms
            &&& r.domain == q.domain
            &&& r.query_type == q.query_type
            &&& r.source_ip == ip_text(q.source_ip)
            &&& r.source_port == q.source_port
            &&& r.destination_ip == ip_text(q.destination_ip)
            &&& r.destination_port == q.destination_port
            &&& r.transaction_id == q.transaction_id
            &&& r.protocol == q.protocol
            &&& r.is_query
            &&& r.device_mac == device.mac@
            &&& r.device_name == device.name@
            &&& r.iface == device.iface@
            &&& r.response_code is None
            &&& r.response_time_ms is None
            &&& r.response_ips.len() == 0
            &&& r.response_records.len() == 0
        }),
{
    let key = match_of(q);
    let record = query_record(q, time_ms, device);
    let f = with_one_more(s, key, record, ns);
    lemma_one_more(s, key, record, ns);
    lemma_shrunk(f);
    lemma_listed(s);
    lemma_listed(after);
    let l = after.listed();
    assert(after.order == newest(f.order, s.max_records));
    assert(after.order.last() == s.next_id);
    assert(after.order.contains(after.order[after.order.len() - 1]));
    assert(after.records.dom().contains(s.next_id));
    let want = newest(s.listed(), (s.max_records - 1) as nat);
    assert(l.drop_last().len() == want.len());
    assert forall|i: int| 0 <= i < want.len() implies l.drop_last()[i] == want[i] by {
        let x = after.order[i];
        assert(after.order.contains(x));
        assert(after.records.dom().contains(x));
        let j = i + s.order.len() - want.len();
        assert(s.order[j] == x);
        assert(s.order.contains(x));
        assert(x != s.next_id);
    }
    assert(l.drop_last() =~= want);
}

/// Whether a response is one to a query: it goes to the client that asked, and is about
/// the same question.
pub open spec fn answers(r: MessageModel, q: MessageModel) -> bool {
    &&& r.destination_ip == q.source_ip
    &&& r.destination_port == q.source_port
    &&& r.transaction_id == q.transaction_id
    &&& r.protocol == q.protocol
    &&& lowered(r.domain) == lowered(q.domain)
    &&& uppered(r.query_type) == uppered(q.query_type)
}

/// The response to a query that was just listed gives its record the code, the answers and
/// the time that it took in milliseconds; one that comes after more than thirty seconds
/// gives it nothing. Nothing else in the list changes.
pub proof fn law_response_completes_its_query(
    s: DnsState,
    mid: DnsState,
    after: DnsState,
    q: MessageModel,
    r: MessageModel,
    q_ns: u64,
    r_ns: u64,
    q_ms: u64,
    r_ms: u64,
    device: DeviceIdentity,
    other: DeviceIdentity,
)
    requires
        orderly(s),
        !s.order.contains(s.next_id),
        q.is_query,
        !r.is_query,
        answers(r, q),
        is_news(s, q, q_ns),
        is_news(mid, r, r_ns),
        !s.pending.dom().contains(match_of(q)),
        q_ns <= r_ns,
        ingest_step(s, mid, q, q_ns, q_ms, device),
        ingest_step(mid, after, r, r_ns, r_ms, other),
    ensures
        after.listed().len() == mid.listed().len(),
        after.listed().drop_last() == mid.listed().drop_last(),
        r_ns - q_ns > 30_000_000_000 ==> after.listed() == mid.listed(),
        r_ns - q_ns <= 30_000_000_000 ==> {
            let was = mid.listed().last();
            let is = after.listed().last();
            &&& is.response_code == r.response_code
            &&& is.response_ips == r.response_ips
            &&& is.response_records == r.response_records
            &&& is.response_time_ms == Some(((r_ns - q_ns) / 1_000_000) as u64)
            &&& is == RecordModel {
                response_code: is.response_code,
                response_ips: is.response_ips,
                response_records: is.response_records,
                response_time_ms: is.response_time_ms,
                ..was
            }
        },
{
    let key = match_of(q);
    let record = query_record(q, q_ms, device);
    let f = with_one_more(s, key, record, q_ns);
    let id = s.next_id;
    lemma_one_more(s, key, record, q_ns);
    assert(f.pending[key] =~= seq![f.order.last()]);
    assert(f.pending.dom().contains(key));
    lemma_shrunk(f);
    assert(match_of(r) == key);
    assert(mid.order.last() == id);
    assert(mid.order.contains(mid.order[mid.order.len() - 1]));
    assert(mid.records.dom().contains(id));
    assert(mid.records[id].observed_ns == q_ns);
    assert(mid.pending.dom().contains(key));
    assert(mid.pending[key] == seq![id]);
    lemma_answering(mid, key, r, r_ns);
    lemma_listed(mid);
    lemma_listed(after);
    let one = seq![id];
    reveal_with_fuel(live_queue, 2);
    assert(one[0] == id);
    assert(one.drop_first().len() == 0);
    if r_ns - q_ns > 30_000_000_000 {
        assert(live_queue(mid.records, one, r_ns).len() == 0);
        assert(after.listed() =~= mid.listed());
    } else {
        assert(live_queue(mid.records, one, r_ns) == one);
        assert forall|i: int| 0 <= i < mid.order.len() - 1 implies after.records[mid.order[i]]
            == mid.records[mid.order[i]] by {
            assert(mid.order[i] != mid.order[mid.order.len() - 1]);
        }
    }
    assert(after.listed().drop_last() =~= mid.listed().drop_last());
}

/// A response that is not one to a query leaves the record of that query alone.
pub proof fn law_other_responses_change_nothing(
    s: DnsState,
    after: DnsState,
    q: MessageModel,
    r: MessageModel,
    id: u64,
    ns: u64,
    time_ms: u64,
    device: DeviceIdentity,
)
    requires
        orderly(s),
        q.is_query,
        !r.is_query,
        !answers(r, q),
        s.records.dom().contains(id),
        s.records[id].key == match_of(q),
        ingest_step(s, after, r, ns, time_ms, device),
    ensures
        after.records.dom().contains(id),
        after.records[id] == s.records[id],
        after.order == s.order,
{
    lemma_answering(s, match_of(r), r, ns);
}

/// A message that was seen less than half a second ago changes nothing.
pub proof fn law_repeat_changes_nothing(
    s: DnsState,
    after: DnsState,
    m: MessageModel,
    seen_ns: u64,
    ns: u64,
    time_ms: u64,
    device: DeviceIdentity,
)
    requires
        noted_at(s, m) == Some(seen_ns),
        seen_ns <= ns,
        ns - seen_ns < 500_000_000,
        ingest_step(s, after, m, ns, time_ms, device),
    ensures
        after == s,
{
}

/// Records that were stored are listed again as they were, in their order; one that had no
/// response is marked as one that will get none.
pub proof fn law_stored_record_is_the_same(s: DnsState, records: Seq<RecordModel>, i: int)
    requires
        s.order.len() == 0,
        s.next_id + records.len() <= u64::MAX,
        0 <= i < records.len(),
    ensures
        restored(s, records).listed().len() == records.len(),
        records[i].response_code is Some || records[i].response_time_ms is Some ==> restored(
            s,
            records,
        ).listed()[i] == records[i],
        records[i].response_code is None && records[i].response_time_ms is None ==> restored(
            s,
            records,
        ).listed()[i] == (RecordModel { response_code: Some("NO_RESPONSE"@), ..records[i] }),
{
    law_stored_records_come_back(s, records);
}

/// An event from so many nanoseconds before now happened so many milliseconds before now,
/// but none before the epoch.
pub proof fn law_event_is_as_old_as_its_clock_says(
    timestamp_ns: u64,
    now_ms: u64,
    monotonic_ns: u64,
)
    requires
        timestamp_ns <= monotonic_ns,
    ensures
        ({
            let age = monotonic_ns - timestamp_ns;
            let t = event_time(timestamp_ns, now_ms, monotonic_ns);
            &&& age == 0 ==> t == now_ms
            &&& age <= now_ms * 1_000_000 ==> age <= (now_ms - t) * 1_000_000 < age + 1_000_000
            &&& age > now_ms * 1_000_000 ==> t == 0
        }),
{
}

} // verus!
