//! What the DNS monitor reports: pages of records and statistics.
use crate::dns::{ref_views, DnsMonitor, UNANSWERED_AFTER_MS};
use crate::dnsrec::{
    record_matches, record_views, record_wanted, DnsQueriesQuery, DnsQueryRecord, RecordModel,
};
use crate::sort::{ordered, sort};
use crate::table::Table;
use crate::tally::{
    count_name, counts, lemma_counted, occurrences, sorted_top_items, top_of, DnsTopItem,
};
use crate::text::{copy_text, text_eq};
use vstd::prelude::*;

verus! {

#[derive(Debug)]
pub struct DnsResponseTimePercentiles {
    pub p50: u64,
    pub p90: u64,
    pub p95: u64,
    pub p99: u64,
}

/// Statistics over the kept records. Rates and averages follow from the counts
/// and the sorted response times.
#[derive(Debug)]
pub struct DnsStats {
    pub total_queries: usize,
    pub total_responses: usize,
    pub queries_with_response: usize,
    pub queries_without_response: usize,
    pub success_count: usize,
    pub failure_count: usize,
    pub response_times: Vec<u64>,
    pub min_response_time_ms: u64,
    pub max_response_time_ms: u64,
    pub latest_response_time_ms: Option<u64>,
    pub response_time_percentiles: DnsResponseTimePercentiles,
    pub response_codes: Vec<DnsTopItem>,
    pub top_domains: Vec<DnsTopItem>,
    pub top_query_types: Vec<DnsTopItem>,
    pub top_devices: Vec<DnsTopItem>,
    pub top_dns_servers: Vec<DnsTopItem>,
    pub unique_devices: usize,
    pub time_range_start: u64,
    pub time_range_end: u64,
    pub time_range_duration_minutes: u64,
    pub capture_parse_errors: u64,
}

/// One page of records, and the statistics over all.
#[derive(Debug)]
pub struct DnsQueriesResponse {
    pub queries: Vec<DnsQueryRecord>,
    pub total: usize,
    pub page: usize,
    pub page_size: usize,
    pub total_pages: usize,
    pub stats: DnsStats,
}

/// Whom a record is put down to: the hardware address, else the name, else the
/// address.
pub open spec fn identity(r: RecordModel) -> Seq<char> {
    if r.device_mac.len() > 0 {
        r.device_mac
    } else if r.device_name.len() > 0 {
        r.device_name
    } else {
        r.source_ip
    }
}

/// How a record's device is shown: by its name where it has one.
pub open spec fn label(r: RecordModel) -> Seq<char> {
    if r.device_name.len() > 0 {
        r.device_name
    } else {
        identity(r)
    }
}

pub open spec fn domains(s: Seq<RecordModel>) -> Seq<Seq<char>> {
    Seq::new(s.len(), |i: int| s[i].domain)
}

pub open spec fn query_types(s: Seq<RecordModel>) -> Seq<Seq<char>> {
    Seq::new(s.len(), |i: int| s[i].query_type)
}

pub open spec fn servers(s: Seq<RecordModel>) -> Seq<Seq<char>> {
    Seq::new(s.len(), |i: int| s[i].destination_ip)
}

pub open spec fn identities(s: Seq<RecordModel>) -> Seq<Seq<char>> {
    Seq::new(s.len(), |i: int| identity(s[i]))
}

pub open spec fn labels(s: Seq<RecordModel>) -> Seq<Seq<char>> {
    Seq::new(s.len(), |i: int| label(s[i]))
}

/// Whether a record has a response.
pub open spec fn has_response(r: RecordModel) -> bool {
    r.response_code matches Some(c) && c != "NO_RESPONSE"@
}

/// The codes of the responses.
pub open spec fn codes(s: Seq<RecordModel>) -> Seq<Seq<char>>
    decreases s.len(),
{
    if s.len() == 0 {
        Seq::empty()
    } else if has_response(s.last()) {
        codes(s.drop_last()).push(s.last().response_code->0)
    } else {
        codes(s.drop_last())
    }
}

/// How many queries have no response and have waited long enough for one.
pub open spec fn unanswered(s: Seq<RecordModel>, now_ms: u64) -> nat
    decreases s.len(),
{
    if s.len() == 0 {
        0
    } else {
        unanswered(s.drop_last(), now_ms) + (if !has_response(s.last()) && (s.last().timestamp
            + UNANSWERED_AFTER_MS <= now_ms || now_ms == u64::MAX) {
            1nat
        } else {
            0nat
        })
    }
}

/// The response times in the order of arrival.
pub open spec fn times(s: Seq<RecordModel>) -> Seq<u64>
    decreases s.len(),
{
    if s.len() == 0 {
        Seq::empty()
    } else {
        match s.last().response_time_ms {
            Some(t) => times(s.drop_last()).push(t),
            None => times(s.drop_last()),
        }
    }
}

/// The earliest time of the records.
pub open spec fn earliest(s: Seq<RecordModel>) -> u64
    decreases s.len(),
{
    if s.len() == 0 {
        u64::MAX
    } else if s.last().timestamp < earliest(s.drop_last()) {
        s.last().timestamp
    } else {
        earliest(s.drop_last())
    }
}

/// The latest time of the records.
pub open spec fn latest(s: Seq<RecordModel>) -> u64
    decreases s.len(),
{
    if s.len() == 0 {
        0
    } else if s.last().timestamp > latest(s.drop_last()) {
        s.last().timestamp
    } else {
        latest(s.drop_last())
    }
}

/// The value below which so many percent of sorted values lie.
pub open spec fn percentile_of(sorted: Seq<u64>, percent: int) -> u64 {
    let at = (sorted.len() - 1) * percent;
    if sorted.len() == 0 {
        0
    } else if at > usize::MAX {
        sorted[usize::MAX as int / 100]
    } else {
        sorted[at / 100]
    }
}

/// The value below which so many percent of sorted values lie.
pub fn percentile(sorted_values: &Vec<u64>, percent: usize) -> (r: u64)
    requires
        percent <= 100,
    ensures
        r == percentile_of(sorted_values@, percent as int),
{
    if sorted_values.len() == 0 {
        return 0;
    }
    let last: usize = sorted_values.len() - 1;
    assert(last * percent <= last * 100) by (nonlinear_arith)
        requires
            percent <= 100,
            last >= 0,
    ;
    let product: u128 = (last as u128) * (percent as u128);
    let at: u128 = if product > usize::MAX as u128 {
        usize::MAX as u128
    } else {
        product
    };
    sorted_values[(at / 100) as usize]
}

/// The statistics are those of the records.
pub open spec fn stats_of(s: Seq<RecordModel>, now_ms: u64, parse_errors: u64, r: DnsStats) -> bool {
    &&& r.total_queries == s.len()
    &&& r.total_responses == codes(s).len()
    &&& r.queries_with_response == codes(s).len()
    &&& r.queries_without_response == unanswered(s, now_ms)
    &&& r.success_count == occurrences(codes(s), "NOERROR"@)
    &&& r.failure_count == codes(s).len() - occurrences(codes(s), "NOERROR"@)
    &&& ordered(r.response_times@)
    &&& r.response_times@.to_multiset() == times(s).to_multiset()
    &&& r.min_response_time_ms == (if r.response_times@.len() == 0 {
        0
    } else {
        r.response_times@[0]
    })
    &&& r.max_response_time_ms == (if r.response_times@.len() == 0 {
        0
    } else {
        r.response_times@.last()
    })
    &&& r.latest_response_time_ms == (if times(s).len() == 0 {
        None
    } else {
        Some(times(s).last())
    })
    &&& r.response_time_percentiles.p50 == percentile_of(r.response_times@, 50)
    &&& r.response_time_percentiles.p90 == percentile_of(r.response_times@, 90)
    &&& r.response_time_percentiles.p95 == percentile_of(r.response_times@, 95)
    &&& r.response_time_percentiles.p99 == percentile_of(r.response_times@, 99)
    &&& top_of(r.response_codes@, codes(s), usize::MAX as nat)
    &&& top_of(r.top_domains@, domains(s), 10)
    &&& top_of(r.top_query_types@, query_types(s), 10)
    &&& top_of(r.top_devices@, labels(s), 10)
    &&& top_of(r.top_dns_servers@, servers(s), 10)
    &&& r.unique_devices == identities(s).to_set().len()
    &&& r.time_range_start == (if s.len() == 0 {
        0
    } else {
        earliest(s)
    })
    &&& r.time_range_end == latest(s)
    &&& r.time_range_duration_minutes == (if r.time_range_end >= r.time_range_start {
        ((r.time_range_end - r.time_range_start) / 60_000) as u64
    } else {
        0
    })
    &&& r.capture_parse_errors == parse_errors
}

fn device_identity(r: &DnsQueryRecord) -> (t: String)
    ensures
        t@ == identity(r@),
{
    if !r.device_mac.as_str().is_empty() {
        r.device_mac.clone()
    } else if !r.device_name.as_str().is_empty() {
        r.device_name.clone()
    } else {
        r.source_ip.clone()
    }
}

fn device_label(r: &DnsQueryRecord) -> (t: String)
    ensures
        t@ == label(r@),
{
    if !r.device_name.as_str().is_empty() {
        r.device_name.clone()
    } else {
        device_identity(r)
    }
}

proof fn lemma_codes_len(s: Seq<RecordModel>)
    ensures
        codes(s).len() <= s.len(),
        times(s).len() <= s.len(),
        unanswered(s, 0) <= s.len(),
    decreases s.len(),
{
    if s.len() > 0 {
        lemma_codes_len(s.drop_last());
    }
}

/// The tallies over the records up to a place.
struct Tallies {
    domains: Table<String, usize>,
    query_types: Table<String, usize>,
    servers: Table<String, usize>,
    labels: Table<String, usize>,
    identities: Table<String, usize>,
    codes: Table<String, usize>,
}

impl Tallies {
    spec fn over(self, s: Seq<RecordModel>) -> bool {
        &&& counts(self.domains, domains(s))
        &&& counts(self.query_types, query_types(s))
        &&& counts(self.servers, servers(s))
        &&& counts(self.labels, labels(s))
        &&& counts(self.identities, identities(s))
        &&& counts(self.codes, codes(s))
    }

    fn new() -> (r: Self)
        ensures
            r.over(Seq::empty()),
    {
        Tallies {
            domains: Table::new(),
            query_types: Table::new(),
            servers: Table::new(),
            labels: Table::new(),
            identities: Table::new(),
            codes: Table::new(),
        }
    }

    fn take(&mut self, r: &DnsQueryRecord, Ghost(s): Ghost<Seq<RecordModel>>)
        requires
            old(self).over(s),
            s.len() < usize::MAX,
        ensures
            final(self).over(s.push(r@)),
    {
        let ghost t = s.push(r@);
        proof {
            lemma_codes_len(s);
            assert(t.drop_last() =~= s);
            assert(domains(t) =~= domains(s).push(r@.domain));
            assert(query_types(t) =~= query_types(s).push(r@.query_type));
            assert(servers(t) =~= servers(s).push(r@.destination_ip));
            assert(labels(t) =~= labels(s).push(label(r@)));
            assert(identities(t) =~= identities(s).push(identity(r@)));
        }
        count_name(&mut self.domains, &r.domain, Ghost(domains(s)));
        count_name(&mut self.query_types, &r.query_type, Ghost(query_types(s)));
        count_name(&mut self.servers, &r.destination_ip, Ghost(servers(s)));
        let l = device_label(r);
        count_name(&mut self.labels, &l, Ghost(labels(s)));
        let d = device_identity(r);
        count_name(&mut self.identities, &d, Ghost(identities(s)));
        if let Some(c) = &r.response_code {
            if !text_eq(c.as_str(), "NO_RESPONSE") {
                count_name(&mut self.codes, c, Ghost(codes(s)));
            }
        }
    }
}

/// The records that a request asks for, the newest first.
pub open spec fn selected(s: Seq<RecordModel>, q: DnsQueriesQuery) -> Seq<RecordModel>
    decreases s.len(),
{
    if s.len() == 0 {
        Seq::empty()
    } else if record_wanted(s.last(), q) {
        seq![s.last()] + selected(s.drop_last(), q)
    } else {
        selected(s.drop_last(), q)
    }
}

/// One page of a list; pages count from one.
pub open spec fn page_of<T>(s: Seq<T>, page: int, size: int) -> Seq<T> {
    let start = (page - 1) * size;
    if start >= s.len() {
        Seq::empty()
    } else if start + size < s.len() {
        s.subrange(start, start + size)
    } else {
        s.skip(start)
    }
}

/// Every record of a list stands on the page that its number lies in, and no page holds more
/// than its size.
pub proof fn law_every_record_is_on_its_page<T>(s: Seq<T>, size: int, i: int)
    requires
        1 <= size,
        0 <= i < s.len(),
    ensures
        page_of(s, i / size + 1, size).len() > i % size,
        page_of(s, i / size + 1, size)[i % size] == s[i],
        forall|page: int| 1 <= page ==> (#[trigger] page_of(s, page, size)).len() <= size,
{
    vstd::arithmetic::div_mod::lemma_fundamental_div_mod(i, size);
    let start = (i / size + 1 - 1) * size;
    assert(start == size * (i / size)) by (nonlinear_arith)
        requires
            start == (i / size + 1 - 1) * size,
    ;
    assert(0 <= i % size < size) by {
        vstd::arithmetic::div_mod::lemma_mod_bound(i, size);
    }
    assert forall|page: int| 1 <= page implies (#[trigger] page_of(s, page, size)).len() <= size by {
        assert(0 <= (page - 1) * size) by (nonlinear_arith)
            requires
                1 <= page,
                1 <= size,
        ;
    }
}

/// The page that a request asks for; the first by default.
pub open spec fn asked_page(q: DnsQueriesQuery) -> int {
    match q.page {
        Some(p) => if p < 1 {
            1
        } else {
            p as int
        },
        None => 1,
    }
}

/// The size of page that a request asks for: twenty by default, at most a hundred.
pub open spec fn asked_size(q: DnsQueriesQuery) -> int {
    match q.page_size {
        Some(n) => if n < 1 {
            1
        } else if n > 100 {
            100
        } else {
            n as int
        },
        None => 20,
    }
}

impl DnsMonitor {
    /// The statistics over the kept records.
    #[verifier::rlimit(40)]
    pub fn stats(&self, now_ms: u64) -> (r: DnsStats)
        requires
            self.wf(),
        ensures
            stats_of(self@.listed(), now_ms, self@.parse_errors, r),
    {
        let refs = self.in_order();
        let ghost s = self@.listed();
        let total: usize = refs.len();
        let mut tallies = Tallies::new();
        let mut response_times: Vec<u64> = Vec::new();
        let mut latest_time: Option<u64> = None;
        let mut start: u64 = u64::MAX;
        let mut end: u64 = 0;
        let mut silent: usize = 0;
        let mut responses: usize = 0;
        let mut i: usize = 0;
        assert(s.take(0) =~= Seq::empty());
        while i < refs.len()
            invariant
                i <= refs@.len(),
                refs@.len() <= usize::MAX,
                s == ref_views(refs@),
                tallies.over(s.take(i as int)),
                response_times@ == times(s.take(i as int)),
                latest_time == (if response_times@.len() == 0 {
                    None
                } else {
                    Some(response_times@.last())
                }),
                start == earliest(s.take(i as int)),
                end == latest(s.take(i as int)),
                silent == unanswered(s.take(i as int), now_ms),
                silent <= i,
                responses == codes(s.take(i as int)).len(),
                responses <= i,
            decreases refs@.len() - i,
        {
            let r = refs[i];
            let ghost before = s.take(i as int);
            assert(s.take(i + 1) =~= before.push(r@));
            assert(before.push(r@).drop_last() =~= before);
            tallies.take(r, Ghost(before));
            if r.timestamp < start {
                start = r.timestamp;
            }
            if r.timestamp > end {
                end = r.timestamp;
            }
            let answered = match &r.response_code {
                Some(c) => !text_eq(c.as_str(), "NO_RESPONSE"),
                None => false,
            };
            if answered {
                responses += 1;
            } else if r.timestamp.saturating_add(UNANSWERED_AFTER_MS) <= now_ms {
                silent += 1;
            }
            if let Some(t) = r.response_time_ms {
                response_times.push(t);
                latest_time = Some(t);
            }
            i += 1;
        }
        assert(s.take(i as int) =~= s);
        let sorted = sort(response_times);
        let noerror = copy_text("NOERROR");
        let success: usize = match tallies.codes.get(&noerror) {
            Some(n) => *n,
            None => 0,
        };
        proof {
            broadcast use vstd::seq_lib::group_to_multiset_ensures;

            lemma_counted(tallies.identities, identities(s));
            assert(codes(s).to_multiset().count("NOERROR"@) <= codes(s).to_multiset().len());
            if !codes(s).contains("NOERROR"@) {
                assert(occurrences(codes(s), "NOERROR"@) == 0);
            }
        }
        let (range_start, range_end) = if total == 0 {
            (0u64, 0u64)
        } else {
            (start, end)
        };
        let percentiles = DnsResponseTimePercentiles {
            p50: percentile(&sorted, 50),
            p90: percentile(&sorted, 90),
            p95: percentile(&sorted, 95),
            p99: percentile(&sorted, 99),
        };
        let n: usize = sorted.len();
        let min: u64 = if n == 0 {
            0
        } else {
            sorted[0]
        };
        let max: u64 = if n == 0 {
            0
        } else {
            sorted[n - 1]
        };
        DnsStats {
            total_queries: total,
            total_responses: responses,
            queries_with_response: responses,
            queries_without_response: silent,
            success_count: success,
            failure_count: responses.saturating_sub(success),
            response_times: sorted,
            min_response_time_ms: min,
            max_response_time_ms: max,
            latest_response_time_ms: latest_time,
            response_time_percentiles: percentiles,
            response_codes: sorted_top_items(&tallies.codes, usize::MAX, Ghost(codes(s))),
            top_domains: sorted_top_items(&tallies.domains, 10, Ghost(domains(s))),
            top_query_types: sorted_top_items(&tallies.query_types, 10, Ghost(query_types(s))),
            top_devices: sorted_top_items(&tallies.labels, 10, Ghost(labels(s))),
            top_dns_servers: sorted_top_items(&tallies.servers, 10, Ghost(servers(s))),
            unique_devices: tallies.identities.len(),
            time_range_start: range_start,
            time_range_end: range_end,
            time_range_duration_minutes: range_end.saturating_sub(range_start) / 60_000,
            capture_parse_errors: self.parse_error_count(),
        }
    }

    /// One page of the records that a request asks for, the newest first.
    pub fn queries(&self, query: &DnsQueriesQuery, now_ms: u64) -> (r: DnsQueriesResponse)
        requires
            self.wf(),
        ensures
            record_views(r.queries@) == page_of(
                selected(self@.listed(), *query),
                asked_page(*query),
                asked_size(*query),
            ),
            r.total == selected(self@.listed(), *query).len(),
            r.page == asked_page(*query),
            r.page_size == asked_size(*query),
            r.total_pages == (r.total + r.page_size - 1) / (r.page_size as int),
            stats_of(self@.listed(), now_ms, self@.parse_errors, r.stats),
    {
        let page: usize = match query.page {
            Some(p) => if p < 1 {
                1
            } else {
                p
            },
            None => 1,
        };
        let size: usize = match query.page_size {
            Some(n) => if n < 1 {
                1
            } else if n > 100 {
                100
            } else {
                n
            },
            None => 20,
        };
        let refs = self.in_order();
        let ghost s = self@.listed();
        let ghost all = selected(s, *query);
        let mut filtered: Vec<&DnsQueryRecord> = Vec::new();
        let mut i: usize = refs.len();
        assert(s.take(i as int) =~= s);
        assert(ref_views(filtered@) + all =~= all);
        while i > 0
            invariant
                i <= refs@.len(),
                s == ref_views(refs@),
                all == ref_views(filtered@) + selected(s.take(i as int), *query),
            decreases i,
        {
            let r = refs[i - 1];
            let ghost before = ref_views(filtered@);
            assert(s.take(i as int).drop_last() =~= s.take(i - 1));
            if record_matches(r, query) {
                filtered.push(r);
                assert(ref_views(filtered@) =~= before.push(r@));
                assert(before + (seq![r@] + selected(s.take(i - 1), *query)) =~= before.push(r@)
                    + selected(s.take(i - 1), *query));
            }
            i -= 1;
        }
        assert(s.take(0) =~= Seq::empty());
        assert(ref_views(filtered@) + Seq::<RecordModel>::empty() =~= ref_views(filtered@));
        let total: usize = filtered.len();
        let ghost p = page as int;
        let ghost z = size as int;
        assert((page - 1) * size <= usize::MAX * 100) by (nonlinear_arith)
            requires
                1 <= page <= usize::MAX,
                size <= 100,
        ;
        assert(0 <= (page - 1) * size) by (nonlinear_arith)
            requires
                1 <= page,
                1 <= size,
        ;
        let wide: u128 = ((page - 1) as u128) * (size as u128);
        let mut queries: Vec<DnsQueryRecord> = Vec::new();
        if wide < total as u128 {
            let start: usize = wide as usize;
            let stop: usize = if total - start > size {
                start + size
            } else {
                total
            };
            let mut k: usize = start;
            while k < stop
                invariant
                    start <= k <= stop <= filtered@.len(),
                    record_views(queries@) == ref_views(filtered@).subrange(start as int, k as int),
                decreases stop - k,
            {
                let ghost before = record_views(queries@);
                let c = filtered[k].clone();
                let ghost cv = c@;
                queries.push(c);
                assert(record_views(queries@) =~= before.push(cv));
                assert(ref_views(filtered@).subrange(start as int, k + 1) =~= ref_views(
                    filtered@,
                ).subrange(start as int, k as int).push(cv));
                k += 1;
            }
            assert(record_views(queries@) =~= page_of(all, p, z));
        } else {
            assert(record_views(queries@) =~= page_of(all, p, z));
        }
        proof {
            vstd::arithmetic::div_mod::lemma_fundamental_div_mod(total as int, size as int);
            let q = total as int / size as int;
            let rest = total as int % size as int;
            assert(rest > 0 ==> q < total) by (nonlinear_arith)
                requires
                    total == size * q + rest,
                    size >= 1,
                    q >= 0,
            ;
        }
        let total_pages: usize = total / size + (if total % size > 0 {
            1
        } else {
            0
        });
        assert(total_pages == (total + size - 1) / (size as int)) by {
            assert(total as int == (total as int / size as int) * size + total as int % size as int)
                by (nonlinear_arith)
                requires
                    size >= 1,
            ;
            lemma_ceil(total as int, size as int);
        }
        DnsQueriesResponse {
            queries,
            total,
            page,
            page_size: size,
            total_pages,
            stats: self.stats(now_ms),
        }
    }
}

proof fn lemma_ceil(a: int, b: int)
    requires
        a >= 0,
        b >= 1,
    ensures
        (a + b - 1) / b == a / b + (if a % b > 0 {
            1int
        } else {
            0int
        }),
{
    let q = a / b;
    let r = a % b;
    vstd::arithmetic::div_mod::lemma_fundamental_div_mod(a, b);
    if r > 0 {
        assert(a + b - 1 == (q + 1) * b + (r - 1)) by (nonlinear_arith)
            requires
                a == b * q + r,
        ;
        vstd::arithmetic::div_mod::lemma_fundamental_div_mod_converse(a + b - 1, b, q + 1, r - 1);
    } else {
        assert(a + b - 1 == q * b + (b - 1)) by (nonlinear_arith)
            requires
                a == b * q,
        ;
        vstd::arithmetic::div_mod::lemma_fundamental_div_mod_converse(a + b - 1, b, q, b - 1);
    }
}

} // verus!
