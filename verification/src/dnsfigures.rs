//! What the figures of the DNS report say of the records behind them.
use crate::dnsrec::{any_holds, record_wanted, DnsQueriesQuery, RecordModel};
use crate::dnsreport::{
    asked_page, asked_size, codes, domains, earliest, identities, labels, latest, page_of,
    query_types, selected, servers, stats_of, times, unanswered, DnsStats,
};
use crate::sort::{lemma_same_members, Ranked};
use crate::tally::{occurrences, ranks_before, top_of, DnsTopItem};
use crate::text::{holds_text, lemma_text_less_total, lowered, stands_at, trimmed};
use vstd::prelude::*;

verus! {

/// What a record is counted under.
pub enum Heading {
    Domain,
    Kind,
    Server,
    Device,
    Code,
}

/// The name that a record has under a heading. Only a response has a code.
pub open spec fn heading_name(r: RecordModel, h: Heading) -> Option<Seq<char>> {
    match h {
        Heading::Domain => Some(r.domain),
        Heading::Kind => Some(r.query_type),
        Heading::Server => Some(r.destination_ip),
        Heading::Device => if r.device_name.len() > 0 {
            Some(r.device_name)
        } else if r.device_mac.len() > 0 {
            Some(r.device_mac)
        } else {
            Some(r.source_ip)
        },
        Heading::Code => if r.response_code == Some("NO_RESPONSE"@) {
            None
        } else {
            r.response_code
        },
    }
}

/// How many records have a name under a heading.
pub open spec fn named(s: Seq<RecordModel>, h: Heading, name: Seq<char>) -> nat
    decreases s.len(),
{
    if s.len() == 0 {
        0
    } else {
        named(s.drop_last(), h, name) + (if heading_name(s.last(), h) == Some(name) {
            1nat
        } else {
            0nat
        })
    }
}

/// How many records have some name under a heading.
pub open spec fn with_name(s: Seq<RecordModel>, h: Heading) -> nat
    decreases s.len(),
{
    if s.len() == 0 {
        0
    } else {
        with_name(s.drop_last(), h) + (if heading_name(s.last(), h) is Some {
            1nat
        } else {
            0nat
        })
    }
}

/// How many queries without a response are five seconds old or older.
pub open spec fn given_up(s: Seq<RecordModel>, now_ms: int) -> nat
    decreases s.len(),
{
    if s.len() == 0 {
        0
    } else {
        given_up(s.drop_last(), now_ms) + (if heading_name(s.last(), Heading::Code) is None && now_ms
            - s.last().timestamp >= 5000 {
            1nat
        } else {
            0nat
        })
    }
}

/// The list of the statistics under a heading.
pub open spec fn listed_under(r: DnsStats, h: Heading) -> Seq<DnsTopItem> {
    match h {
        Heading::Domain => r.top_domains@,
        Heading::Kind => r.top_query_types@,
        Heading::Server => r.top_dns_servers@,
        Heading::Device => r.top_devices@,
        Heading::Code => r.response_codes@,
    }
}

spec fn names_under(s: Seq<RecordModel>, h: Heading) -> Seq<Seq<char>> {
    match h {
        Heading::Domain => domains(s),
        Heading::Kind => query_types(s),
        Heading::Server => servers(s),
        Heading::Device => labels(s),
        Heading::Code => codes(s),
    }
}

proof fn lemma_named(s: Seq<RecordModel>, h: Heading, name: Seq<char>)
    ensures
        occurrences(names_under(s, h), name) == named(s, h, name),
        names_under(s, h).len() == with_name(s, h),
        names_under(s, h).contains(name) <==> named(s, h, name) > 0,
    decreases s.len(),
{
    broadcast use vstd::seq_lib::group_to_multiset_ensures;

    let all = names_under(s, h);
    if s.len() == 0 {
        assert(all =~= Seq::empty());
        assert(all.to_multiset().count(name) == 0);
    } else {
        let front = s.drop_last();
        lemma_named(front, h, name);
        match heading_name(s.last(), h) {
            Some(x) => {
                assert(all =~= names_under(front, h).push(x));
            },
            None => {
                assert(all =~= names_under(front, h));
            },
        }
        assert(all.contains(name) <==> all.to_multiset().count(name) > 0);
    }
}

proof fn lemma_given_up(s: Seq<RecordModel>, now_ms: u64)
    requires
        now_ms < u64::MAX,
    ensures
        unanswered(s, now_ms) == given_up(s, now_ms as int),
    decreases s.len(),
{
    if s.len() > 0 {
        lemma_given_up(s.drop_last(), now_ms);
    }
}

proof fn lemma_ends(s: Seq<RecordModel>)
    ensures
        forall|i: int|
            0 <= i < s.len() ==> earliest(s) <= (#[trigger] s[i]).timestamp <= latest(s),
        s.len() > 0 ==> exists|i: int| 0 <= i < s.len() && (#[trigger] s[i]).timestamp == earliest(s),
        s.len() > 0 ==> exists|i: int| 0 <= i < s.len() && (#[trigger] s[i]).timestamp == latest(s),
    decreases s.len(),
{
    if s.len() > 0 {
        let front = s.drop_last();
        lemma_ends(front);
        assert forall|i: int| 0 <= i < s.len() implies earliest(s) <= (#[trigger] s[i]).timestamp
            <= latest(s) by {
            if i < front.len() {
                assert(front[i] == s[i]);
            }
        }
        if front.len() > 0 {
            let i = choose|i: int|
                0 <= i < front.len() && (#[trigger] front[i]).timestamp == earliest(front);
            assert(s[i] == front[i]);
            let j = choose|j: int|
                0 <= j < front.len() && (#[trigger] front[j]).timestamp == latest(front);
            assert(s[j] == front[j]);
        }
        assert(s[s.len() - 1] == s.last());
        if front.len() == 0 {
            assert(earliest(front) == u64::MAX && latest(front) == 0);
        }
    }
}

/// Whether a record was answered in a time.
pub open spec fn took(r: RecordModel, time: u64) -> bool {
    r.response_time_ms == Some(time)
}

proof fn lemma_times(s: Seq<RecordModel>)
    ensures
        forall|i: int, t: u64|
            0 <= i < s.len() && #[trigger] took(s[i], t) ==> times(s).contains(t),
        forall|t: u64| #[trigger]
            times(s).contains(t) ==> exists|i: int| 0 <= i < s.len() && took(#[trigger] s[i], t),
        times(s).len() > 0 ==> exists|i: int|
            0 <= i < s.len() && took(#[trigger] s[i], times(s).last()) && forall|j: int|
                i < j < s.len() ==> (#[trigger] s[j]).response_time_ms is None,
    decreases s.len(),
{
    if s.len() > 0 {
        let front = s.drop_last();
        let n = front.len() as int;
        lemma_times(front);
        assert(s[n] == s.last());
        assert forall|i: int, t: u64| 0 <= i < s.len() && #[trigger] took(s[i], t) implies times(
            s,
        ).contains(t) by {
            if i < n {
                assert(took(front[i], t));
                let k = choose|k: int| 0 <= k < times(front).len() && times(front)[k] == t;
                assert(times(s)[k] == t);
            } else {
                assert(times(s)[times(s).len() - 1] == t);
            }
        }
        assert forall|t: u64| #[trigger] times(s).contains(t) implies exists|i: int|
            0 <= i < s.len() && took(#[trigger] s[i], t) by {
            let k = choose|k: int| 0 <= k < times(s).len() && times(s)[k] == t;
            if k < times(front).len() {
                assert(times(front)[k] == t);
                assert(times(front).contains(t));
                let i = choose|i: int| 0 <= i < front.len() && took(#[trigger] front[i], t);
                assert(took(s[i], t));
            } else {
                assert(took(s[n], t));
            }
        }
        if s.last().response_time_ms is Some {
            assert(took(s[n], times(s).last()));
        } else if times(s).len() > 0 {
            let i = choose|i: int|
                0 <= i < front.len() && took(#[trigger] front[i], times(front).last())
                    && forall|j: int|
                    i < j < front.len() ==> (#[trigger] front[j]).response_time_ms is None;
            assert(took(s[i], times(s).last()));
            assert forall|j: int| i < j < s.len() implies (
            #[trigger] s[j]).response_time_ms is None by {
                if j < n {
                    assert(front[j] == s[j]);
                }
            }
        }
    }
}

/// Every query is counted. Those with a response are those with a code, of which the
/// successful ones have the code `NOERROR` and all others failed; of the rest those
/// count as without a response that are five seconds old.
pub proof fn law_queries_are_counted(s: Seq<RecordModel>, now_ms: u64, errors: u64, r: DnsStats)
    requires
        stats_of(s, now_ms, errors, r),
        now_ms < u64::MAX,
    ensures
        r.total_queries == s.len(),
        r.queries_with_response == with_name(s, Heading::Code),
        r.total_responses == r.queries_with_response,
        r.success_count == named(s, Heading::Code, "NOERROR"@),
        r.success_count + r.failure_count == r.queries_with_response,
        r.queries_without_response == given_up(s, now_ms as int),
        r.capture_parse_errors == errors,
{
    lemma_named(s, Heading::Code, "NOERROR"@);
    lemma_given_up(s, now_ms);
}

/// The least, the greatest and the latest response time are those of records, and no
/// record lies outside of them. The times stand in their order, and so many percent of the
/// way along them stand the percentiles.
pub proof fn law_times_are_those_of_records(
    s: Seq<RecordModel>,
    now_ms: u64,
    errors: u64,
    r: DnsStats,
)
    requires
        stats_of(s, now_ms, errors, r),
    ensures
        forall|i: int, t: u64|
            0 <= i < s.len() && #[trigger] took(s[i], t) ==> r.min_response_time_ms <= t
                <= r.max_response_time_ms && r.response_times@.contains(t),
        forall|k: int|
            0 <= k < r.response_times@.len() ==> exists|i: int|
                0 <= i < s.len() && took(#[trigger] s[i], #[trigger] r.response_times@[k]),
        r.response_times@.len() > 0 ==> r.response_times@.contains(r.min_response_time_ms)
            && r.response_times@.contains(r.max_response_time_ms),
        forall|j: int, k: int|
            0 <= j < k < r.response_times@.len() ==> #[trigger] r.response_times@[j]
                <= #[trigger] r.response_times@[k],
        match r.latest_response_time_ms {
            Some(t) => exists|i: int|
                0 <= i < s.len() && took(#[trigger] s[i], t) && forall|j: int|
                    i < j < s.len() ==> (#[trigger] s[j]).response_time_ms is None,
            None => forall|i: int| 0 <= i < s.len() ==> (#[trigger] s[i]).response_time_ms is None,
        },
        0 < r.response_times@.len() * 100 <= usize::MAX ==> {
            let n = r.response_times@.len() - 1;
            &&& r.response_time_percentiles.p50 == r.response_times@[n * 50 / 100]
            &&& r.response_time_percentiles.p90 == r.response_times@[n * 90 / 100]
            &&& r.response_time_percentiles.p95 == r.response_times@[n * 95 / 100]
            &&& r.response_time_percentiles.p99 == r.response_times@[n * 99 / 100]
        },
{
    broadcast use vstd::seq_lib::group_to_multiset_ensures;

    lemma_times(s);
    let ts = times(s);
    let rt = r.response_times@;
    assert(rt.len() == rt.to_multiset().len() && ts.len() == ts.to_multiset().len());
    assert forall|i: int, t: u64| 0 <= i < s.len() && #[trigger] took(s[i], t) implies r.min_response_time_ms
        <= t <= r.max_response_time_ms && rt.contains(t) by {
        let k = choose|k: int| 0 <= k < ts.len() && ts[k] == t;
        lemma_same_members(ts, rt, k);
        let m = choose|m: int| 0 <= m < rt.len() && rt[m] == t;
        if m > 0 {
            assert(!rt[m].precedes(rt[0]));
        }
        if m < rt.len() - 1 {
            assert(!rt[rt.len() - 1].precedes(rt[m]));
        }
    }
    assert forall|k: int| 0 <= k < rt.len() implies exists|i: int|
        0 <= i < s.len() && took(#[trigger] s[i], #[trigger] rt[k]) by {
        lemma_same_members(rt, ts, k);
    }
    if rt.len() > 0 {
        assert(rt[0] == r.min_response_time_ms);
        assert(rt[rt.len() - 1] == r.max_response_time_ms);
    }
    assert forall|j: int, k: int| 0 <= j < k < rt.len() implies #[trigger] rt[j]
        <= #[trigger] rt[k] by {
        assert(!rt[k].precedes(rt[j]));
    }
    if r.latest_response_time_ms is None {
        assert forall|i: int| 0 <= i < s.len() implies (
        #[trigger] s[i]).response_time_ms is None by {
            if let Some(t) = s[i].response_time_ms {
                assert(took(s[i], t));
            }
        }
    }
}

/// Under each heading a list tells how many records have a name, the most frequent first.
/// It leaves out no name that is more frequent than one on it, and none at all while it has
/// room: for ten names, and for every response code.
pub proof fn law_lists_tell_the_most_frequent(
    s: Seq<RecordModel>,
    now_ms: u64,
    errors: u64,
    r: DnsStats,
    h: Heading,
    name: Seq<char>,
)
    requires
        stats_of(s, now_ms, errors, r),
    ensures
        ({
            let l = listed_under(r, h);
            &&& forall|i: int|
                0 <= i < l.len() ==> (#[trigger] l[i]).count == named(s, h, l[i].name@) && l[i].count
                    > 0
            &&& forall|i: int, j: int|
                0 <= i < j < l.len() ==> (#[trigger] l[i]).count >= (#[trigger] l[j]).count
                    && l[i].name@ != l[j].name@
            &&& h != Heading::Code ==> l.len() <= 10
            &&& (forall|i: int| 0 <= i < l.len() ==> (#[trigger] l[i]).name@ != name) ==> {
                &&& forall|i: int| 0 <= i < l.len() ==> (#[trigger] l[i]).count >= named(s, h, name)
                &&& h != Heading::Code && l.len() < 10 ==> named(s, h, name) == 0
                &&& h == Heading::Code && l.len() < usize::MAX ==> named(s, h, name) == 0
            }
        }),
{
    let l = listed_under(r, h);
    let names = names_under(s, h);
    let limit = if h == Heading::Code {
        usize::MAX as nat
    } else {
        10nat
    };
    assert(top_of(l, names, limit));
    assert forall|i: int| 0 <= i < l.len() implies (#[trigger] l[i]).count == named(s, h, l[i].name@)
        && l[i].count > 0 by {
        lemma_named(s, h, l[i].name@);
    }
    assert forall|i: int, j: int| 0 <= i < j < l.len() implies (#[trigger] l[i]).count >= (
    #[trigger] l[j]).count && l[i].name@ != l[j].name@ by {
        if l[i].name@ == l[j].name@ {
            lemma_text_less_total(l[i].name@, l[j].name@);
        }
    }
    lemma_named(s, h, name);
    if (forall|i: int| 0 <= i < l.len() ==> (#[trigger] l[i]).name@ != name) && named(s, h, name) > 0 {
        assert(names.contains(name));
        assert forall|i: int| 0 <= i < l.len() implies (#[trigger] l[i]).count >= named(s, h, name) by {
            assert(ranks_before(
                l[i].name@,
                l[i].count as nat,
                name,
                occurrences(names, name),
            ));
        }
        if l.len() < limit {
            let there = Seq::new(l.len(), |i: int| l[i].name@);
            assert forall|i: int, j: int| 0 <= i < there.len() && 0 <= j < there.len() && i
                != j implies there[i] != there[j] by {
                if i < j {
                    assert(l[i].name@ != l[j].name@);
                } else {
                    assert(l[j].name@ != l[i].name@);
                }
            }
            assert(there.no_duplicates());
            there.unique_seq_to_set();
            assert(there.to_set().subset_of(names.to_set().remove(name))) by {
                assert forall|x: Seq<char>| there.to_set().contains(x) implies names.to_set().remove(
                    name,
                ).contains(x) by {
                    let i = choose|i: int| 0 <= i < there.len() && there[i] == x;
                    assert(names.contains(l[i].name@));
                }
            }
            names.lemma_cardinality_of_set();
            vstd::set_lib::lemma_len_subset(there.to_set(), names.to_set().remove(name));
            assert(names.to_set().contains(name));
            assert(false);
        }
    }
}

/// Devices are told apart by their hardware addresses; where none is known by their
/// names, and where there is no name either by the addresses of the clients.
pub proof fn law_devices_are_told_apart(s: Seq<RecordModel>, now_ms: u64, errors: u64, r: DnsStats)
    requires
        stats_of(s, now_ms, errors, r),
    ensures
        (forall|i: int| 0 <= i < s.len() ==> (#[trigger] s[i]).device_mac.len() > 0)
            ==> r.unique_devices == s.map_values(|x: RecordModel| x.device_mac).to_set().len(),
        (forall|i: int|
            0 <= i < s.len() ==> (#[trigger] s[i]).device_mac.len() == 0 && s[i].device_name.len()
                > 0) ==> r.unique_devices == s.map_values(
            |x: RecordModel| x.device_name,
        ).to_set().len(),
        (forall|i: int|
            0 <= i < s.len() ==> (#[trigger] s[i]).device_mac.len() == 0 && s[i].device_name.len()
                == 0) ==> r.unique_devices == s.map_values(
            |x: RecordModel| x.source_ip,
        ).to_set().len(),
{
    let ids = identities(s);
    if forall|i: int| 0 <= i < s.len() ==> (#[trigger] s[i]).device_mac.len() > 0 {
        assert(ids =~= s.map_values(|x: RecordModel| x.device_mac));
    }
    if forall|i: int|
        0 <= i < s.len() ==> (#[trigger] s[i]).device_mac.len() == 0 && s[i].device_name.len() > 0 {
        assert(ids =~= s.map_values(|x: RecordModel| x.device_name));
    }
    if forall|i: int|
        0 <= i < s.len() ==> (#[trigger] s[i]).device_mac.len() == 0 && s[i].device_name.len() == 0 {
        assert(ids =~= s.map_values(|x: RecordModel| x.source_ip));
    }
}

/// The range of time runs from the earliest record to the latest, and its length is told
/// in whole minutes.
pub proof fn law_range_spans_the_records(s: Seq<RecordModel>, now_ms: u64, errors: u64, r: DnsStats)
    requires
        stats_of(s, now_ms, errors, r),
        s.len() > 0,
    ensures
        forall|i: int|
            0 <= i < s.len() ==> r.time_range_start <= (#[trigger] s[i]).timestamp
                <= r.time_range_end,
        exists|i: int| 0 <= i < s.len() && (#[trigger] s[i]).timestamp == r.time_range_start,
        exists|i: int| 0 <= i < s.len() && (#[trigger] s[i]).timestamp == r.time_range_end,
        r.time_range_duration_minutes * 60_000 <= r.time_range_end - r.time_range_start,
        r.time_range_end - r.time_range_start < (r.time_range_duration_minutes + 1) * 60_000,
{
    lemma_ends(s);
    assert(s[0].timestamp <= r.time_range_end);
}

/// Whether a text holds another, whatever the case of the letters.
pub open spec fn holds(text: Seq<char>, part: Seq<char>) -> bool {
    exists|i: int|
        0 <= i <= text.len() - part.len() && #[trigger] lowered(text).subrange(i, i + part.len())
            == lowered(part)
}

/// Whether one of the texts holds another.
pub open spec fn one_holds(texts: Seq<Seq<char>>, part: Seq<char>) -> bool {
    exists|i: int| 0 <= i < texts.len() && holds(#[trigger] texts[i], part)
}

proof fn lemma_holds(text: Seq<char>, part: Seq<char>)
    ensures
        holds_text(lowered(text), lowered(part)) <==> holds(text, part),
{
    if holds_text(lowered(text), lowered(part)) {
        let i = choose|i: int| stands_at(lowered(text), lowered(part), i);
        assert(lowered(text).subrange(i, i + part.len()) == lowered(part));
    }
    if holds(text, part) {
        let i = choose|i: int|
            0 <= i <= text.len() - part.len() && #[trigger] lowered(text).subrange(
                i,
                i + part.len(),
            ) == lowered(part);
        assert(stands_at(lowered(text), lowered(part), i));
    }
}

/// A request asks for the records that meet all that it names: the domain and the server
/// hold what it names, the device does by its hardware address, its name or its address,
/// and the type, the interface and the protocol are those that it names. What it leaves
/// open is no condition.
pub proof fn law_record_meets_all_that_is_asked(x: RecordModel, q: DnsQueriesQuery)
    requires
        q.result is None,
    ensures
        record_wanted(x, q) <==> {
            &&& q.domain matches Some(a) ==> holds(x.domain, a@)
            &&& q.device matches Some(a) ==> (holds(x.device_mac, a@) || holds(x.device_name, a@)
                || holds(x.source_ip, a@))
            &&& q.dns_server matches Some(a) ==> holds(x.destination_ip, a@)
            &&& q.query_type matches Some(a) ==> lowered(x.query_type) == lowered(a@)
            &&& q.iface matches Some(a) ==> lowered(x.iface) == lowered(a@)
            &&& q.protocol matches Some(a) ==> lowered(x.protocol) == lowered(a@)
        },
{
    if let Some(a) = q.domain {
        lemma_holds(x.domain, a@);
    }
    if let Some(a) = q.device {
        lemma_holds(x.device_mac, a@);
        lemma_holds(x.device_name, a@);
        lemma_holds(x.source_ip, a@);
    }
    if let Some(a) = q.dns_server {
        lemma_holds(x.destination_ip, a@);
    }
}

/// How many records behind a place a request asks for.
pub open spec fn wanted_behind(s: Seq<RecordModel>, q: DnsQueriesQuery, i: int) -> nat
    decreases s.len(),
{
    if s.len() == 0 || i >= s.len() - 1 {
        0
    } else {
        wanted_behind(s.drop_last(), q, i) + (if record_wanted(s.last(), q) {
            1nat
        } else {
            0nat
        })
    }
}

proof fn lemma_selected(s: Seq<RecordModel>, q: DnsQueriesQuery, i: int)
    requires
        0 <= i < s.len(),
        record_wanted(s[i], q),
    ensures
        wanted_behind(s, q, i) < selected(s, q).len(),
        selected(s, q)[wanted_behind(s, q, i) as int] == s[i],
    decreases s.len(),
{
    if i < s.len() - 1 {
        lemma_selected(s.drop_last(), q, i);
        assert(s.drop_last()[i] == s[i]);
    }
}

proof fn lemma_all_wanted(s: Seq<RecordModel>, q: DnsQueriesQuery)
    ensures
        forall|k: int| 0 <= k < selected(s, q).len() ==> record_wanted(#[trigger] selected(s, q)[k], q),
    decreases s.len(),
{
    if s.len() > 0 {
        lemma_all_wanted(s.drop_last(), q);
        let rest = selected(s.drop_last(), q);
        assert forall|k: int| 0 <= k < selected(s, q).len() implies record_wanted(
            #[trigger] selected(s, q)[k],
            q,
        ) by {
            if record_wanted(s.last(), q) {
                if k > 0 {
                    assert(selected(s, q)[k] == rest[k - 1]);
                }
            } else {
                assert(selected(s, q)[k] == rest[k]);
            }
        }
    }
}

/// Each record that a request asks for stands on one page, as far down as there are newer
/// ones that it asks for; a page holds no other records. A page that is not asked for by
/// its number is the first, and one without a size holds twenty records.
pub proof fn law_newest_come_first(s: Seq<RecordModel>, q: DnsQueriesQuery, i: int)
    requires
        0 <= i < s.len(),
        record_wanted(s[i], q),
        q.page matches Some(p) ==> p >= 1,
        q.page_size matches Some(n) ==> 1 <= n <= 100,
    ensures
        ({
            let page = match q.page {
                Some(p) => p as int,
                None => 1,
            };
            let size = match q.page_size {
                Some(n) => n as int,
                None => 20,
            };
            let shown = page_of(selected(s, q), asked_page(q), asked_size(q));
            let at = wanted_behind(s, q, i) - (page - 1) * size;
            &&& 0 <= at < size ==> at < shown.len() && shown[at] == s[i]
            &&& shown.len() <= size
            &&& forall|k: int| 0 <= k < shown.len() ==> record_wanted(#[trigger] shown[k], q)
        }),
{
    lemma_selected(s, q, i);
    lemma_all_wanted(s, q);
    let page = asked_page(q);
    let size = asked_size(q);
    let all = selected(s, q);
    let start = (page - 1) * size;
    assert(start >= 0) by (nonlinear_arith)
        requires
            start == (page - 1) * size,
            page >= 1,
            size >= 1,
    ;
    let shown = page_of(all, page, size);
    assert forall|k: int| 0 <= k < shown.len() implies record_wanted(#[trigger] shown[k], q) by {
        assert(shown[k] == all[start + k]);
    }
}

/// A request for a result asks for the records whose response code or one of whose answers
/// holds it; what is blank around it does not matter.
pub proof fn law_result_is_looked_for(x: RecordModel, q: DnsQueriesQuery, what: Seq<char>)
    requires
        q.domain is None && q.device is None && q.dns_server is None && q.query_type is None
            && q.iface is None && q.protocol is None,
        q.result matches Some(t) && trimmed(t@) == what,
        what.len() > 0,
        lowered(what) != "blocked"@,
    ensures
        record_wanted(x, q) <==> (x.response_code matches Some(c) && holds(c, what)) || one_holds(
            x.response_ips,
            what,
        ) || one_holds(x.response_records, what),
{
    if let Some(c) = x.response_code {
        lemma_holds(c, what);
    }
    assert forall|v: Seq<Seq<char>>| #[trigger] one_holds(v, what) <==> any_holds(
        v,
        lowered(what),
    ) by {
        assert forall|i: int| 0 <= i < v.len() implies (holds(#[trigger] v[i], what)
            <==> holds_text(lowered(v[i]), lowered(what))) by {
            lemma_holds(v[i], what);
        }
    }
    assert(one_holds(x.response_ips, what) == one_holds(x.response_ips, what));
    assert(one_holds(x.response_records, what) == one_holds(x.response_records, what));
}

} // verus!
