//! Records of DNS queries, and which of them a request asks for.
use crate::text::{
    contains_text, cut, eq_ignore_ascii_case, holds_text, lowered, split_once, text_eq,
    to_ascii_lowercase, trim, trimmed, views,
};
use vstd::prelude::*;

verus! {

/// One observed query, with the response to it once that has come.
#[derive(Debug)]
pub struct DnsQueryRecord {
    pub timestamp: u64,
    pub domain: String,
    pub query_type: String,
    pub response_code: Option<String>,
    pub response_time_ms: Option<u64>,
    pub source_ip: String,
    pub destination_ip: String,
    pub source_port: u16,
    pub destination_port: u16,
    pub transaction_id: u16,
    pub is_query: bool,
    pub protocol: String,
    pub response_ips: Vec<String>,
    pub response_records: Vec<String>,
    pub device_mac: String,
    pub device_name: String,
    pub iface: String,
}

/// A record over plain values.
pub struct RecordModel {
    pub timestamp: u64,
    pub domain: Seq<char>,
    pub query_type: Seq<char>,
    pub response_code: Option<Seq<char>>,
    pub response_time_ms: Option<u64>,
    pub source_ip: Seq<char>,
    pub destination_ip: Seq<char>,
    pub source_port: u16,
    pub destination_port: u16,
    pub transaction_id: u16,
    pub is_query: bool,
    pub protocol: Seq<char>,
    pub response_ips: Seq<Seq<char>>,
    pub response_records: Seq<Seq<char>>,
    pub device_mac: Seq<char>,
    pub device_name: Seq<char>,
    pub iface: Seq<char>,
}

/// The view of a text that may be missing.
pub open spec fn text_opt(o: Option<String>) -> Option<Seq<char>> {
    match o {
        Some(s) => Some(s@),
        None => None,
    }
}

impl View for DnsQueryRecord {
    type V = RecordModel;

    open spec fn view(&self) -> RecordModel {
        RecordModel {
            timestamp: self.timestamp,
            domain: self.domain@,
            query_type: self.query_type@,
            response_code: text_opt(self.response_code),
            response_time_ms: self.response_time_ms,
            source_ip: self.source_ip@,
            destination_ip: self.destination_ip@,
            source_port: self.source_port,
            destination_port: self.destination_port,
            transaction_id: self.transaction_id,
            is_query: self.is_query,
            protocol: self.protocol@,
            response_ips: views(self.response_ips@),
            response_records: views(self.response_records@),
            device_mac: self.device_mac@,
            device_name: self.device_name@,
            iface: self.iface@,
        }
    }
}

/// A copy of a list of texts.
pub fn copy_texts(v: &Vec<String>) -> (r: Vec<String>)
    ensures
        views(r@) == views(v@),
        r@ == v@,
{
    let r = v.clone();
    assert(r@ =~= v@);
    r
}

/// A copy of a text that may be missing.
pub fn copy_text_opt(o: &Option<String>) -> (r: Option<String>)
    ensures
        text_opt(r) == text_opt(*o),
        r == *o,
{
    match o {
        Some(s) => Some(s.clone()),
        None => None,
    }
}

impl Clone for DnsQueryRecord {
    fn clone(&self) -> (r: Self)
        ensures
            r@ == self@,
    {
        DnsQueryRecord {
            timestamp: self.timestamp,
            domain: self.domain.clone(),
            query_type: self.query_type.clone(),
            response_code: copy_text_opt(&self.response_code),
            response_time_ms: self.response_time_ms,
            source_ip: self.source_ip.clone(),
            destination_ip: self.destination_ip.clone(),
            source_port: self.source_port,
            destination_port: self.destination_port,
            transaction_id: self.transaction_id,
            is_query: self.is_query,
            protocol: self.protocol.clone(),
            response_ips: copy_texts(&self.response_ips),
            response_records: copy_texts(&self.response_records),
            device_mac: self.device_mac.clone(),
            device_name: self.device_name.clone(),
            iface: self.iface.clone(),
        }
    }
}

/// The records of a list over plain values.
pub open spec fn record_views(v: Seq<DnsQueryRecord>) -> Seq<RecordModel> {
    Seq::new(v.len(), |i: int| v[i]@)
}

/// Whether an answer is the one that a blocking resolver gives.
pub open spec fn blocked(value: Seq<char>) -> bool {
    let a = trimmed(value);
    a == "0.0.0.0"@ || a == "::"@ || match cut(a, ':') {
        Some((kind, data)) => (lowered(kind) == lowered("A"@) && trimmed(data) == "0.0.0.0"@) || (
        lowered(kind) == lowered("AAAA"@) && trimmed(data) == "::"@),
        None => false,
    }
}

/// Whether an answer is the one that a blocking resolver gives.
pub fn is_blocked_answer(value: &str) -> (r: bool)
    ensures
        r == blocked(value@),
{
    let answer = trim(value);
    if text_eq(answer.as_str(), "0.0.0.0") || text_eq(answer.as_str(), "::") {
        return true;
    }
    match split_once(answer.as_str(), ':') {
        Some((kind, data)) => {
            let data = trim(data.as_str());
            (eq_ignore_ascii_case(kind.as_str(), "A") && text_eq(data.as_str(), "0.0.0.0")) || (
            eq_ignore_ascii_case(kind.as_str(), "AAAA") && text_eq(data.as_str(), "::"))
        },
        None => false,
    }
}

/// Whether one of the texts is a blocked answer.
pub open spec fn any_blocked(v: Seq<Seq<char>>) -> bool {
    exists|i: int| 0 <= i < v.len() && blocked(#[trigger] v[i])
}

/// Whether one of the texts holds the needle, its letters in lower case.
pub open spec fn any_holds(v: Seq<Seq<char>>, needle: Seq<char>) -> bool {
    exists|i: int| 0 <= i < v.len() && holds_text(lowered(#[trigger] v[i]), needle)
}

fn has_blocked(v: &Vec<String>) -> (r: bool)
    ensures
        r == any_blocked(views(v@)),
{
    let mut i: usize = 0;
    while i < v.len()
        invariant
            i <= v@.len(),
            forall|j: int| 0 <= j < i ==> !blocked(#[trigger] views(v@)[j]),
        decreases v@.len() - i,
    {
        if is_blocked_answer(v[i].as_str()) {
            assert(blocked(views(v@)[i as int]));
            return true;
        }
        i += 1;
    }
    false
}

fn has_text(v: &Vec<String>, needle: &str) -> (r: bool)
    ensures
        r == any_holds(views(v@), needle@),
{
    let mut i: usize = 0;
    while i < v.len()
        invariant
            i <= v@.len(),
            forall|j: int| 0 <= j < i ==> !holds_text(lowered(#[trigger] views(v@)[j]), needle@),
        decreases v@.len() - i,
    {
        if contains_text(to_ascii_lowercase(v[i].as_str()).as_str(), needle) {
            assert(holds_text(lowered(views(v@)[i as int]), needle@));
            return true;
        }
        i += 1;
    }
    false
}

/// Whether the result of a query is what a request asks for: `blocked`, or a part
/// of the response code or of an answer.
pub open spec fn result_wanted(r: RecordModel, needle: Seq<char>) -> bool {
    if needle == "blocked"@ {
        any_blocked(r.response_ips) || any_blocked(r.response_records)
    } else {
        (r.response_code matches Some(c) && holds_text(lowered(c), needle)) || any_holds(
            r.response_ips,
            needle,
        ) || any_holds(r.response_records, needle)
    }
}

/// Whether the result of a query is what a request asks for.
pub fn result_matches(record: &DnsQueryRecord, needle: &str) -> (r: bool)
    ensures
        r == result_wanted(record@, needle@),
{
    if text_eq(needle, "blocked") {
        return has_blocked(&record.response_ips) || has_blocked(&record.response_records);
    }
    let by_code = match &record.response_code {
        Some(c) => contains_text(to_ascii_lowercase(c.as_str()).as_str(), needle),
        None => false,
    };
    by_code || has_text(&record.response_ips, needle) || has_text(&record.response_records, needle)
}

/// What a request for records asks for.
#[derive(Debug)]
pub struct DnsQueriesQuery {
    pub domain: Option<String>,
    pub device: Option<String>,
    pub dns_server: Option<String>,
    pub query_type: Option<String>,
    pub result: Option<String>,
    pub iface: Option<String>,
    pub protocol: Option<String>,
    pub page: Option<usize>,
    pub page_size: Option<usize>,
}

impl Default for DnsQueriesQuery {
    fn default() -> (r: Self)
        ensures
            r.domain is None,
            r.device is None,
            r.dns_server is None,
            r.query_type is None,
            r.result is None,
            r.iface is None,
            r.protocol is None,
            r.page is None,
            r.page_size is None,
    {
        DnsQueriesQuery {
            domain: None,
            device: None,
            dns_server: None,
            query_type: None,
            result: None,
            iface: None,
            protocol: None,
            page: None,
            page_size: None,
        }
    }
}

/// Whether a text holds what is asked for, whatever the case of the letters;
/// nothing asked for is always held.
pub open spec fn part_wanted(text: Seq<char>, asked: Option<String>) -> bool {
    asked matches Some(a) ==> holds_text(lowered(text), lowered(a@))
}

/// Whether a text is what is asked for, whatever the case of the letters.
pub open spec fn same_wanted(text: Seq<char>, asked: Option<String>) -> bool {
    asked matches Some(a) ==> lowered(text) == lowered(a@)
}

/// Whether a request asks for a record. A blank result is no condition.
pub open spec fn record_wanted(r: RecordModel, q: DnsQueriesQuery) -> bool {
    &&& part_wanted(r.domain, q.domain)
    &&& (part_wanted(r.device_mac, q.device) || part_wanted(r.device_name, q.device)
        || part_wanted(r.source_ip, q.device))
    &&& part_wanted(r.destination_ip, q.dns_server)
    &&& same_wanted(r.query_type, q.query_type)
    &&& (q.result matches Some(t) ==> trimmed(t@).len() == 0 || result_wanted(
        r,
        lowered(trimmed(t@)),
    ))
    &&& same_wanted(r.iface, q.iface)
    &&& same_wanted(r.protocol, q.protocol)
}

fn part_matches(text: &String, asked: &Option<String>) -> (r: bool)
    ensures
        r == part_wanted(text@, *asked),
{
    match asked {
        Some(a) => contains_text(
            to_ascii_lowercase(text.as_str()).as_str(),
            to_ascii_lowercase(a.as_str()).as_str(),
        ),
        None => true,
    }
}

fn same_matches(text: &String, asked: &Option<String>) -> (r: bool)
    ensures
        r == same_wanted(text@, *asked),
{
    match asked {
        Some(a) => eq_ignore_ascii_case(text.as_str(), a.as_str()),
        None => true,
    }
}

/// Whether a request asks for a record.
pub fn record_matches(record: &DnsQueryRecord, query: &DnsQueriesQuery) -> (r: bool)
    ensures
        r == record_wanted(record@, *query),
{
    if !part_matches(&record.domain, &query.domain) {
        return false;
    }
    if !part_matches(&record.device_mac, &query.device) && !part_matches(
        &record.device_name,
        &query.device,
    ) && !part_matches(&record.source_ip, &query.device) {
        return false;
    }
    if !part_matches(&record.destination_ip, &query.dns_server) {
        return false;
    }
    if !same_matches(&record.query_type, &query.query_type) {
        return false;
    }
    if let Some(t) = &query.result {
        let needle = trim(t.as_str());
        if !needle.as_str().is_empty() && !result_matches(
            record,
            to_ascii_lowercase(needle.as_str()).as_str(),
        ) {
            return false;
        }
    }
    same_matches(&record.iface, &query.iface) && same_matches(&record.protocol, &query.protocol)
}

} // verus!
