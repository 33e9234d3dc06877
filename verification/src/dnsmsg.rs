//! DNS messages: how a captured packet is read.
use crate::dnsrec::{copy_text_opt, copy_texts};
use crate::ip::{ipv4_text, ipv6_text, v4_text, v6_text, IpAddr};
use crate::number::{dec, decimal};
use crate::packet::{be16, extension_len};
use crate::text::{
    concat, copy_text, join, joined, lowered, text_from_utf8_lossy, to_ascii_lowercase, utf8_lossy,
    views,
};
use vstd::prelude::*;
use vstd::slice::slice_subrange;

verus! {

/// At most this many answers of a message are read.
pub const MAX_DNS_ANSWERS: usize = 64;

/// One DNS message and the endpoints that it went between.
#[derive(Debug)]
pub struct ParsedDnsMessage {
    pub is_query: bool,
    pub source_ip: IpAddr,
    pub destination_ip: IpAddr,
    pub source_port: u16,
    pub destination_port: u16,
    pub transaction_id: u16,
    pub domain: String,
    pub query_type: String,
    pub protocol: String,
    pub response_code: Option<String>,
    pub response_ips: Vec<String>,
    pub response_records: Vec<String>,
}

/// A DNS message over plain values.
pub struct MessageModel {
    pub is_query: bool,
    pub source_ip: Seq<u8>,
    pub destination_ip: Seq<u8>,
    pub source_port: u16,
    pub destination_port: u16,
    pub transaction_id: u16,
    pub domain: Seq<char>,
    pub query_type: Seq<char>,
    pub protocol: Seq<char>,
    pub response_code: Option<Seq<char>>,
    pub response_ips: Seq<Seq<char>>,
    pub response_records: Seq<Seq<char>>,
}

impl View for ParsedDnsMessage {
    type V = MessageModel;

    open spec fn view(&self) -> MessageModel {
        MessageModel {
            is_query: self.is_query,
            source_ip: self.source_ip@,
            destination_ip: self.destination_ip@,
            source_port: self.source_port,
            destination_port: self.destination_port,
            transaction_id: self.transaction_id,
            domain: self.domain@,
            query_type: self.query_type@,
            protocol: self.protocol@,
            response_code: match self.response_code {
                Some(c) => Some(c@),
                None => None,
            },
            response_ips: views(self.response_ips@),
            response_records: views(self.response_records@),
        }
    }
}

impl Clone for ParsedDnsMessage {
    fn clone(&self) -> (r: Self)
        ensures
            r@ == self@,
    {
        ParsedDnsMessage {
            is_query: self.is_query,
            source_ip: self.source_ip,
            destination_ip: self.destination_ip,
            source_port: self.source_port,
            destination_port: self.destination_port,
            transaction_id: self.transaction_id,
            domain: self.domain.clone(),
            query_type: self.query_type.clone(),
            protocol: self.protocol.clone(),
            response_code: copy_text_opt(&self.response_code),
            response_ips: copy_texts(&self.response_ips),
            response_records: copy_texts(&self.response_records),
        }
    }
}

/// The labels of a name that stands at a place, and the place behind the name
/// there. A name may end in a pointer to another place. At most sixteen pointers
/// are followed, and a name has at most 127 labels of 255 bytes in all.
pub open spec fn name_labels(p: Seq<u8>, pos: int, jumps: nat, labels: nat, size: int) -> Option<
    (Seq<Seq<char>>, int),
>
    decreases 145 - jumps - labels,
{
    if pos >= p.len() || jumps > 16 || labels > 127 {
        None
    } else if p[pos] >= 192 {
        let target = (p[pos] - 192) * 256 + p[pos + 1];
        if pos + 1 >= p.len() || target >= p.len() {
            None
        } else {
            match name_labels(p, target, jumps + 1, labels, size) {
                Some((ls, _)) => Some((ls, pos + 2)),
                None => None,
            }
        }
    } else if p[pos] >= 64 {
        None
    } else if p[pos] == 0 {
        Some((Seq::empty(), pos + 1))
    } else {
        let end = pos + 1 + p[pos];
        if end > p.len() || size + p[pos] + 1 > 255 {
            None
        } else {
            match name_labels(p, end, jumps, labels + 1, size + p[pos] + 1) {
                Some((ls, next)) => Some((seq![utf8_lossy(p.subrange(pos + 1, end))] + ls, next)),
                None => None,
            }
        }
    }
}

/// The name that stands at a place, and the place behind it.
pub open spec fn name_at(p: Seq<u8>, pos: int) -> Option<(Seq<char>, int)> {
    match name_labels(p, pos, 0, 0, 0) {
        Some((ls, next)) => Some((joined(ls, "."@), next)),
        None => None,
    }
}

fn read_labels(p: &[u8], pos: usize, jumps: usize, labels: usize, size: usize) -> (r: Option<
    (Vec<String>, usize),
>)
    requires
        jumps <= 17,
        labels <= 128,
        size <= 255,
    ensures
        match r {
            Some((ls, next)) => next <= p@.len() && name_labels(
                p@,
                pos as int,
                jumps as nat,
                labels as nat,
                size as int,
            ) == Some((views(ls@), next as int)),
            None => name_labels(p@, pos as int, jumps as nat, labels as nat, size as int) is None,
        },
    decreases 145 - jumps - labels,
{
    if pos >= p.len() || jumps > 16 || labels > 127 {
        return None;
    }
    let length: u8 = p[pos];
    if length >= 192 {
        if pos + 1 >= p.len() {
            return None;
        }
        let target: usize = (length as usize - 192) * 256 + p[pos + 1] as usize;
        if target >= p.len() {
            return None;
        }
        match read_labels(p, target, jumps + 1, labels, size) {
            Some((ls, _)) => Some((ls, pos + 2)),
            None => None,
        }
    } else if length >= 64 {
        None
    } else if length == 0 {
        let ls: Vec<String> = Vec::new();
        assert(views(ls@) =~= Seq::<Seq<char>>::empty());
        Some((ls, pos + 1))
    } else {
        let n: usize = length as usize;
        if p.len() - pos - 1 < n || size + n + 1 > 255 {
            return None;
        }
        let end: usize = pos + 1 + n;
        let label = text_from_utf8_lossy(slice_subrange(p, pos + 1, end));
        match read_labels(p, end, jumps, labels + 1, size + n + 1) {
            Some((mut ls, next)) => {
                let ghost tail = ls@;
                let ghost first = label@;
                ls.insert(0, label);
                assert(views(ls@) =~= seq![first] + views(tail));
                Some((ls, next))
            },
            None => None,
        }
    }
}

/// Reads the name at a place, and tells the place behind it.
pub fn read_dns_name(packet: &[u8], offset: usize) -> (r: Option<(String, usize)>)
    ensures
        match r {
            Some((name, next)) => next <= packet@.len() && name_at(packet@, offset as int) == Some(
                (name@, next as int),
            ),
            None => name_at(packet@, offset as int) is None,
        },
{
    match read_labels(packet, offset, 0, 0, 0) {
        Some((ls, next)) => Some((join(&ls, "."), next)),
        None => None,
    }
}

fn short_at(p: &[u8], i: usize) -> (r: u16)
    requires
        i + 2 <= p@.len(),
    ensures
        r == be16(p@, i as int),
{
    (p[i] as u16) * 256 + p[i + 1] as u16
}

/// The name of a record type.
pub open spec fn type_text(v: u16) -> Seq<char> {
    if v == 1 {
        "A"@
    } else if v == 2 {
        "NS"@
    } else if v == 5 {
        "CNAME"@
    } else if v == 6 {
        "SOA"@
    } else if v == 12 {
        "PTR"@
    } else if v == 15 {
        "MX"@
    } else if v == 16 {
        "TXT"@
    } else if v == 28 {
        "AAAA"@
    } else if v == 33 {
        "SRV"@
    } else if v == 64 {
        "SVCB"@
    } else if v == 65 {
        "HTTPS"@
    } else {
        "TYPE"@ + dec(v as nat)
    }
}

/// The name of a record type.
pub fn dns_type_name(value: u16) -> (r: String)
    ensures
        r@ == type_text(value),
{
    match value {
        1 => copy_text("A"),
        2 => copy_text("NS"),
        5 => copy_text("CNAME"),
        6 => copy_text("SOA"),
        12 => copy_text("PTR"),
        15 => copy_text("MX"),
        16 => copy_text("TXT"),
        28 => copy_text("AAAA"),
        33 => copy_text("SRV"),
        64 => copy_text("SVCB"),
        65 => copy_text("HTTPS"),
        other => concat("TYPE", decimal(other as u64).as_str()),
    }
}

/// The name of a response code.
pub open spec fn code_text(v: u8) -> Seq<char> {
    if v == 0 {
        "NOERROR"@
    } else if v == 1 {
        "FORMERR"@
    } else if v == 2 {
        "SERVFAIL"@
    } else if v == 3 {
        "NXDOMAIN"@
    } else if v == 4 {
        "NOTIMP"@
    } else if v == 5 {
        "REFUSED"@
    } else {
        "RCODE"@ + dec(v as nat)
    }
}

/// The name of a response code.
pub fn dns_response_code(value: u8) -> (r: String)
    ensures
        r@ == code_text(value),
{
    match value {
        0 => copy_text("NOERROR"),
        1 => copy_text("FORMERR"),
        2 => copy_text("SERVFAIL"),
        3 => copy_text("NXDOMAIN"),
        4 => copy_text("NOTIMP"),
        5 => copy_text("REFUSED"),
        other => concat("RCODE", decimal(other as u64).as_str()),
    }
}

/// The strings of a text record from a place on; one that is cut off ends them.
pub open spec fn txt_strings(d: Seq<u8>, pos: int) -> Seq<Seq<char>>
    decreases d.len() - pos,
{
    if pos < 0 || pos >= d.len() || pos + 1 + d[pos] > d.len() {
        Seq::empty()
    } else {
        seq![utf8_lossy(d.subrange(pos + 1, pos + 1 + d[pos]))] + txt_strings(d, pos + 1 + d[pos])
    }
}

fn read_txt(d: &[u8]) -> (r: Vec<String>)
    ensures
        views(r@) == txt_strings(d@, 0),
{
    let mut r: Vec<String> = Vec::new();
    let mut pos: usize = 0;
    assert(views(r@) + txt_strings(d@, 0) =~= txt_strings(d@, 0));
    while pos < d.len()
        invariant
            pos <= d@.len(),
            txt_strings(d@, 0) == views(r@) + txt_strings(d@, pos as int),
        decreases d@.len() - pos,
    {
        let n: usize = d[pos] as usize;
        if d.len() - pos - 1 < n {
            assert(views(r@) + Seq::<Seq<char>>::empty() =~= views(r@));
            return r;
        }
        let part = text_from_utf8_lossy(slice_subrange(d, pos + 1, pos + 1 + n));
        let ghost before = views(r@);
        let ghost text = part@;
        r.push(part);
        assert(views(r@) =~= before.push(text));
        assert(before + (seq![text] + txt_strings(d@, pos + 1 + n)) =~= before.push(text)
            + txt_strings(d@, pos + 1 + n));
        pos = pos + 1 + n;
    }
    assert(views(r@) + Seq::<Seq<char>>::empty() =~= views(r@));
    r
}

/// The texts of an answer whose data stand between two places: (addresses,
/// records).
pub open spec fn answer_texts(p: Seq<u8>, kind: u16, start: int, end: int) -> (
    Seq<Seq<char>>,
    Seq<Seq<char>>,
) {
    let d = p.subrange(start, end);
    let none = Seq::<Seq<char>>::empty();
    if kind == 1 && d.len() == 4 {
        (seq![v4_text(d)], seq!["A:"@ + v4_text(d)])
    } else if kind == 28 && d.len() == 16 {
        (seq![v6_text(d)], seq!["AAAA:"@ + v6_text(d)])
    } else if kind == 5 || kind == 2 || kind == 12 {
        match name_at(p, start) {
            Some((name, _)) => (none, seq![type_text(kind) + ":"@ + name]),
            None => (none, none),
        }
    } else if kind == 15 && d.len() >= 3 {
        match name_at(p, start + 2) {
            Some((name, _)) => (
                none,
                seq!["MX:"@ + name + " priority="@ + dec(be16(d, 0) as nat)],
            ),
            None => (none, none),
        }
    } else if kind == 16 {
        (none, seq!["TXT:"@ + joined(txt_strings(d, 0), " "@)])
    } else {
        (none, seq![type_text(kind) + ": "@ + dec(d.len()) + " bytes"@])
    }
}

fn add_answer(
    p: &[u8],
    kind: u16,
    start: usize,
    end: usize,
    ips: &mut Vec<String>,
    records: &mut Vec<String>,
)
    requires
        start <= end <= p@.len(),
        end - start <= 65535,
    ensures
        views(final(ips)@) == views(old(ips)@) + answer_texts(
            p@,
            kind,
            start as int,
            end as int,
        ).0,
        views(final(records)@) == views(old(records)@) + answer_texts(
            p@,
            kind,
            start as int,
            end as int,
        ).1,
{
    let d = slice_subrange(p, start, end);
    let ghost ips0 = ips@;
    let ghost recs0 = records@;
    let ghost none = Seq::<Seq<char>>::empty();
    assert(views(ips@) + none =~= views(ips@));
    assert(views(records@) + none =~= views(records@));
    if kind == 1 && d.len() == 4 {
        let a = [d[0], d[1], d[2], d[3]];
        assert(a@ =~= d@);
        let ip = ipv4_text(&a);
        records.push(concat("A:", ip.as_str()));
        ips.push(ip);
        assert(views(ips@) =~= views(ips0) + seq![v4_text(d@)]);
        assert(views(records@) =~= views(recs0) + seq!["A:"@ + v4_text(d@)]);
    } else if kind == 28 && d.len() == 16 {
        let a = [
            d[0],
            d[1],
            d[2],
            d[3],
            d[4],
            d[5],
            d[6],
            d[7],
            d[8],
            d[9],
            d[10],
            d[11],
            d[12],
            d[13],
            d[14],
            d[15],
        ];
        assert(a@ =~= d@);
        let ip = ipv6_text(&a);
        records.push(concat("AAAA:", ip.as_str()));
        ips.push(ip);
        assert(views(ips@) =~= views(ips0) + seq![v6_text(d@)]);
        assert(views(records@) =~= views(recs0) + seq!["AAAA:"@ + v6_text(d@)]);
    } else if kind == 5 || kind == 2 || kind == 12 {
        if let Some((name, _)) = read_dns_name(p, start) {
            let mut t = dns_type_name(kind);
            t.push_str(":");
            t.push_str(name.as_str());
            let ghost text = t@;
            records.push(t);
            assert(views(records@) =~= views(recs0) + seq![text]);
        }
    } else if kind == 15 && d.len() >= 3 {
        if let Some((name, _)) = read_dns_name(p, start + 2) {
            let mut t = concat("MX:", name.as_str());
            t.push_str(" priority=");
            t.push_str(decimal(short_at(d, 0) as u64).as_str());
            let ghost text = t@;
            records.push(t);
            assert(views(records@) =~= views(recs0) + seq![text]);
        }
    } else if kind == 16 {
        let t = concat("TXT:", join(&read_txt(d), " ").as_str());
        let ghost text = t@;
        records.push(t);
        assert(views(records@) =~= views(recs0) + seq![text]);
    } else {
        let mut t = dns_type_name(kind);
        t.push_str(": ");
        t.push_str(decimal(d.len() as u64).as_str());
        t.push_str(" bytes");
        let ghost text = t@;
        records.push(t);
        assert(views(records@) =~= views(recs0) + seq![text]);
    }
}

/// The place behind `n` questions.
pub open spec fn skip_questions(p: Seq<u8>, pos: int, n: nat) -> Option<int>
    decreases n,
{
    if n == 0 {
        Some(pos)
    } else {
        match name_at(p, pos) {
            Some((_, next)) => if next + 4 <= p.len() {
                skip_questions(p, next + 4, (n - 1) as nat)
            } else {
                None
            },
            None => None,
        }
    }
}

/// The texts of `n` answers from a place on: (addresses, records).
pub open spec fn answers(p: Seq<u8>, pos: int, n: nat) -> Option<(Seq<Seq<char>>, Seq<Seq<char>>)>
    decreases n,
{
    if n == 0 {
        Some((Seq::empty(), Seq::empty()))
    } else {
        match name_at(p, pos) {
            Some((_, at)) => {
                let start = at + 10;
                let end = start + be16(p, at + 8);
                if start > p.len() || end > p.len() {
                    None
                } else {
                    match answers(p, end, (n - 1) as nat) {
                        Some((ips, records)) => {
                            let here = answer_texts(p, be16(p, at) as u16, start, end);
                            Some((here.0 + ips, here.1 + records))
                        },
                        None => None,
                    }
                }
            },
            None => None,
        }
    }
}

/// What a DNS message says: its questions' first name and type, and for a
/// response the code and the answers. Every question must be whole, and so must
/// each answer that is read.
pub open spec fn message(
    d: Seq<u8>,
    source_ip: Seq<u8>,
    destination_ip: Seq<u8>,
    source_port: u16,
    destination_port: u16,
    protocol: Seq<char>,
) -> Option<MessageModel> {
    let flags = be16(d, 2);
    let is_query = flags < 0x8000;
    let questions = be16(d, 4);
    let limit = if is_query {
        0
    } else if be16(d, 6) < MAX_DNS_ANSWERS {
        be16(d, 6)
    } else {
        MAX_DNS_ANSWERS as int
    };
    if d.len() < 12 || questions == 0 || questions > 16 {
        None
    } else {
        match name_at(d, 12) {
            Some((name, at)) => if at + 4 > d.len() {
                None
            } else {
                match skip_questions(d, at + 4, (questions - 1) as nat) {
                    Some(pos) => match answers(d, pos, limit as nat) {
                        Some((ips, records)) => Some(
                            MessageModel {
                                is_query,
                                source_ip,
                                destination_ip,
                                source_port,
                                destination_port,
                                transaction_id: be16(d, 0) as u16,
                                domain: lowered(name),
                                query_type: type_text(be16(d, at) as u16),
                                protocol,
                                response_code: if is_query {
                                    None
                                } else {
                                    Some(code_text((flags % 16) as u8))
                                },
                                response_ips: ips,
                                response_records: records,
                            },
                        ),
                        None => None,
                    },
                    None => None,
                }
            },
            None => None,
        }
    }
}

fn pass_questions(dns: &[u8], from: usize, n: u16) -> (r: Option<usize>)
    requires
        from <= dns@.len(),
    ensures
        match r {
            Some(pos) => pos <= dns@.len() && skip_questions(dns@, from as int, n as nat) == Some(
                pos as int,
            ),
            None => skip_questions(dns@, from as int, n as nat) is None,
        },
{
    let mut cursor: usize = from;
    let mut left: u16 = n;
    while left > 0
        invariant
            cursor <= dns@.len(),
            skip_questions(dns@, from as int, n as nat) == skip_questions(
                dns@,
                cursor as int,
                left as nat,
            ),
        decreases left,
    {
        match read_dns_name(dns, cursor) {
            Some((_, next)) => {
                if dns.len() - next < 4 {
                    return None;
                }
                cursor = next + 4;
            },
            None => {
                return None;
            },
        }
        left -= 1;
    }
    Some(cursor)
}

fn read_answers(dns: &[u8], from: usize, n: usize) -> (r: Option<(Vec<String>, Vec<String>)>)
    requires
        from <= dns@.len(),
    ensures
        match r {
            Some((ips, records)) => answers(dns@, from as int, n as nat) == Some(
                (views(ips@), views(records@)),
            ),
            None => answers(dns@, from as int, n as nat) is None,
        },
{
    let mut ips: Vec<String> = Vec::new();
    let mut records: Vec<String> = Vec::new();
    let mut cursor: usize = from;
    let mut left: usize = n;
    assert(views(ips@) =~= Seq::<Seq<char>>::empty());
    assert(views(records@) =~= Seq::<Seq<char>>::empty());
    proof {
        if let Some((a, b)) = answers(dns@, from as int, n as nat) {
            assert(Seq::<Seq<char>>::empty() + a =~= a);
            assert(Seq::<Seq<char>>::empty() + b =~= b);
        }
    }
    while left > 0
        invariant
            cursor <= dns@.len(),
            match answers(dns@, cursor as int, left as nat) {
                Some((a, b)) => answers(dns@, from as int, n as nat) == Some(
                    (views(ips@) + a, views(records@) + b),
                ),
                None => answers(dns@, from as int, n as nat) is None,
            },
        decreases left,
    {
        let at: usize = match read_dns_name(dns, cursor) {
            Some((_, next)) => next,
            None => {
                return None;
            },
        };
        if dns.len() - at < 10 {
            return None;
        }
        let kind: u16 = short_at(dns, at);
        let data_len: usize = short_at(dns, at + 8) as usize;
        let start: usize = at + 10;
        if dns.len() - start < data_len {
            return None;
        }
        let end: usize = start + data_len;
        let ghost ips0 = views(ips@);
        let ghost recs0 = views(records@);
        add_answer(dns, kind, start, end, &mut ips, &mut records);
        proof {
            let texts = answer_texts(dns@, kind, start as int, end as int);
            if let Some((a, b)) = answers(dns@, end as int, (left - 1) as nat) {
                assert(ips0 + (texts.0 + a) =~= (ips0 + texts.0) + a);
                assert(recs0 + (texts.1 + b) =~= (recs0 + texts.1) + b);
            }
        }
        cursor = end;
        left -= 1;
    }
    assert(views(ips@) + Seq::<Seq<char>>::empty() =~= views(ips@));
    assert(views(records@) + Seq::<Seq<char>>::empty() =~= views(records@));
    Some((ips, records))
}

/// Reads a DNS message.
pub fn parse_dns_message(
    dns: &[u8],
    source_ip: IpAddr,
    destination_ip: IpAddr,
    source_port: u16,
    destination_port: u16,
    protocol: &str,
) -> (r: Option<ParsedDnsMessage>)
    ensures
        match r {
            Some(m) => message(
                dns@,
                source_ip@,
                destination_ip@,
                source_port,
                destination_port,
                protocol@,
            ) == Some(m@),
            None => message(
                dns@,
                source_ip@,
                destination_ip@,
                source_port,
                destination_port,
                protocol@,
            ) is None,
        },
{
    if dns.len() < 12 {
        return None;
    }
    let flags: u16 = short_at(dns, 2);
    let is_query = flags < 0x8000;
    let questions: u16 = short_at(dns, 4);
    if questions == 0 || questions > 16 {
        return None;
    }
    let answer_count: usize = short_at(dns, 6) as usize;
    let (domain, first) = match read_dns_name(dns, 12) {
        Some(n) => n,
        None => {
            return None;
        },
    };
    if dns.len() - first < 4 {
        return None;
    }
    let from: usize = match pass_questions(dns, first + 4, questions - 1) {
        Some(pos) => pos,
        None => {
            return None;
        },
    };
    let limit: usize = if is_query {
        0
    } else if answer_count < MAX_DNS_ANSWERS {
        answer_count
    } else {
        MAX_DNS_ANSWERS
    };
    let (response_ips, response_records) = match read_answers(dns, from, limit) {
        Some(found) => found,
        None => {
            return None;
        },
    };
    let response_code = if is_query {
        None
    } else {
        Some(dns_response_code((flags % 16) as u8))
    };
    Some(
        ParsedDnsMessage {
            is_query,
            source_ip,
            destination_ip,
            source_port,
            destination_port,
            transaction_id: short_at(dns, 0),
            domain: to_ascii_lowercase(domain.as_str()),
            query_type: dns_type_name(short_at(dns, first)),
            protocol: copy_text(protocol),
            response_code,
            response_ips,
            response_records,
        },
    )
}

/// The IP header of a packet: source, destination, protocol, where its payload
/// starts and where it ends.
pub struct IpHeader {
    pub source: IpAddr,
    pub destination: IpAddr,
    pub protocol: u8,
    pub start: usize,
    pub end: usize,
}

pub struct HeaderModel {
    pub source: Seq<u8>,
    pub destination: Seq<u8>,
    pub protocol: u8,
    pub start: int,
    pub end: int,
}

impl View for IpHeader {
    type V = HeaderModel;

    open spec fn view(&self) -> HeaderModel {
        HeaderModel {
            source: self.source@,
            destination: self.destination@,
            protocol: self.protocol,
            start: self.start as int,
            end: self.end as int,
        }
    }
}

/// What an IPv4 header at a place says. The packet must hold all that the header
/// announces and be no fragment.
pub open spec fn v4_header(p: Seq<u8>, at: int) -> Option<HeaderModel> {
    let ihl = (p[at] % 16) * 4;
    let total = be16(p, at + 2);
    if at + 20 <= p.len() && p[at] / 16 == 4 && ihl >= 20 && total >= ihl && at + total <= p.len()
        && be16(p, at + 6) % 0x4000 == 0 {
        Some(
            HeaderModel {
                source: p.subrange(at + 12, at + 16),
                destination: p.subrange(at + 16, at + 20),
                protocol: p[at + 9],
                start: at + ihl,
                end: at + total,
            },
        )
    } else {
        None
    }
}

/// Follows at most `steps` IPv6 extension headers; fragments and encrypted
/// payloads have no transport header to be found.
pub open spec fn extension_walk(p: Seq<u8>, protocol: u8, at: int, end: int, steps: nat) -> Option<
    (u8, int),
>
    decreases steps,
{
    if steps == 0 {
        Some((protocol, at))
    } else if protocol == 44 || protocol == 50 {
        None
    } else {
        match extension_len(protocol as int, p[at + 1] as int) {
            Some(len) => if at + 2 > end || at + len > end {
                None
            } else {
                extension_walk(p, p[at], at + len, end, (steps - 1) as nat)
            },
            None => Some((protocol, at)),
        }
    }
}

/// What an IPv6 header at a place says, with its extension headers.
pub open spec fn v6_header(p: Seq<u8>, at: int) -> Option<HeaderModel> {
    let announced = at + 40 + be16(p, at + 4);
    let end = if announced < p.len() {
        announced
    } else {
        p.len() as int
    };
    if at + 40 <= p.len() && p[at] / 16 == 6 && announced <= usize::MAX {
        match extension_walk(p, p[at + 6], at + 40, end, 8) {
            Some((protocol, start)) => Some(
                HeaderModel {
                    source: p.subrange(at + 8, at + 24),
                    destination: p.subrange(at + 24, at + 40),
                    protocol,
                    start,
                    end,
                },
            ),
            None => None,
        }
    } else {
        None
    }
}

fn four(p: &[u8], i: usize) -> (r: [u8; 4])
    requires
        i + 4 <= p@.len(),
    ensures
        r@ == p@.subrange(i as int, i + 4),
{
    let r = [p[i], p[i + 1], p[i + 2], p[i + 3]];
    assert(r@ =~= p@.subrange(i as int, i + 4));
    r
}

fn sixteen(p: &[u8], i: usize) -> (r: [u8; 16])
    requires
        i + 16 <= p@.len(),
    ensures
        r@ == p@.subrange(i as int, i + 16),
{
    let r = [
        p[i],
        p[i + 1],
        p[i + 2],
        p[i + 3],
        p[i + 4],
        p[i + 5],
        p[i + 6],
        p[i + 7],
        p[i + 8],
        p[i + 9],
        p[i + 10],
        p[i + 11],
        p[i + 12],
        p[i + 13],
        p[i + 14],
        p[i + 15],
    ];
    assert(r@ =~= p@.subrange(i as int, i + 16));
    r
}

/// Reads an IPv4 header.
pub fn parse_ipv4(packet: &[u8], offset: usize) -> (r: Option<IpHeader>)
    ensures
        match r {
            Some(h) => v4_header(packet@, offset as int) == Some(h@) && h.start <= h.end
                <= packet@.len(),
            None => v4_header(packet@, offset as int) is None,
        },
{
    if offset > packet.len() || packet.len() - offset < 20 {
        return None;
    }
    if packet[offset] / 16 != 4 {
        return None;
    }
    let ihl: usize = ((packet[offset] % 16) as usize) * 4;
    if ihl < 20 {
        return None;
    }
    let total: usize = short_at(packet, offset + 2) as usize;
    if total < ihl || packet.len() - offset < total {
        return None;
    }
    if short_at(packet, offset + 6) % 0x4000 != 0 {
        return None;
    }
    Some(
        IpHeader {
            source: IpAddr::V4(four(packet, offset + 12)),
            destination: IpAddr::V4(four(packet, offset + 16)),
            protocol: packet[offset + 9],
            start: offset + ihl,
            end: offset + total,
        },
    )
}

/// Reads an IPv6 header and the extension headers behind it.
#[verifier::loop_isolation(false)]
pub fn parse_ipv6(packet: &[u8], offset: usize) -> (r: Option<IpHeader>)
    ensures
        match r {
            Some(h) => v6_header(packet@, offset as int) == Some(h@) && h.start <= h.end
                <= packet@.len(),
            None => v6_header(packet@, offset as int) is None,
        },
{
    if offset > packet.len() || packet.len() - offset < 40 {
        return None;
    }
    if packet[offset] / 16 != 6 {
        return None;
    }
    let payload: usize = short_at(packet, offset + 4) as usize;
    let announced: usize = match (offset + 40).checked_add(payload) {
        Some(n) => n,
        None => {
            return None;
        },
    };
    let end: usize = if announced < packet.len() {
        announced
    } else {
        packet.len()
    };
    let mut protocol: u8 = packet[offset + 6];
    let mut at: usize = offset + 40;
    let mut step: usize = 0;
    while step < 8
        invariant
            step <= 8,
            offset + 40 <= at <= end <= packet@.len(),
            extension_walk(packet@, packet@[offset + 6], offset + 40, end as int, 8)
                == extension_walk(packet@, protocol, at as int, end as int, (8 - step) as nat),
        decreases 8 - step,
    {
        if protocol == 44 || protocol == 50 {
            return None;
        }
        let known = protocol == 0 || protocol == 43 || protocol == 60 || protocol == 135
            || protocol == 139 || protocol == 140;
        if !known && protocol != 51 {
            break ;
        }
        if end - at < 2 {
            return None;
        }
        let length: usize = packet[at + 1] as usize;
        let len: usize = if known {
            (length + 1) * 8
        } else {
            (length + 2) * 4
        };
        if end - at < len {
            return None;
        }
        protocol = packet[at];
        at = at + len;
        step += 1;
    }
    Some(
        IpHeader {
            source: IpAddr::V6(sixteen(packet, offset + 8)),
            destination: IpAddr::V6(sixteen(packet, offset + 24)),
            protocol,
            start: at,
            end,
        },
    )
}

/// Where the DNS message of a transport segment stands: (start, length).
pub open spec fn message_span(p: Seq<u8>, protocol: u8, at: int, end: int) -> Option<(int, int)> {
    if protocol == 17 {
        let len = be16(p, at + 4);
        if at + 8 <= end && len >= 20 && at + len <= end {
            Some((at + 8, len - 8))
        } else {
            None
        }
    } else if protocol == 6 {
        let header = (p[at + 12] / 16) * 4;
        let len = be16(p, at + header);
        if at + 20 <= end && header >= 20 && at + header + 2 <= end && len >= 12 && at + header + 2
            + len <= end {
            Some((at + header + 2, len))
        } else {
            None
        }
    } else {
        None
    }
}

/// What the DNS message in a packet says, where the packet goes to or comes from
/// a DNS port and holds the message whole.
pub open spec fn packet_message(p: Seq<u8>, ip_offset: int, ip_version: u8) -> Option<MessageModel> {
    let header = if ip_version == 4 {
        v4_header(p, ip_offset)
    } else if ip_version == 6 {
        v6_header(p, ip_offset)
    } else {
        None
    };
    match header {
        Some(h) => match message_span(p, h.protocol, h.start, h.end) {
            Some((start, len)) => {
                let source = be16(p, h.start);
                let destination = be16(p, h.start + 2);
                if source != 53 && destination != 53 {
                    None
                } else {
                    message(
                        p.subrange(start, start + len),
                        h.source,
                        h.destination,
                        source as u16,
                        destination as u16,
                        if h.protocol == 17 {
                            "UDP"@
                        } else {
                            "TCP"@
                        },
                    )
                }
            },
            None => None,
        },
        None => None,
    }
}

/// Reads the DNS message in a captured packet.
pub fn parse_dns_packet(packet: &[u8], ip_offset: usize, ip_version: u8) -> (r: Option<
    ParsedDnsMessage,
>)
    ensures
        match r {
            Some(m) => packet_message(packet@, ip_offset as int, ip_version) == Some(m@),
            None => packet_message(packet@, ip_offset as int, ip_version) is None,
        },
{
    let header = if ip_version == 4 {
        parse_ipv4(packet, ip_offset)
    } else if ip_version == 6 {
        parse_ipv6(packet, ip_offset)
    } else {
        None
    };
    let h = match header {
        Some(h) => h,
        None => {
            return None;
        },
    };
    let at: usize = h.start;
    let room: usize = h.end - at;
    let (start, len): (usize, usize) = if h.protocol == 17 {
        if room < 8 {
            return None;
        }
        let len: usize = short_at(packet, at + 4) as usize;
        if len < 20 || room < len {
            return None;
        }
        (at + 8, len - 8)
    } else if h.protocol == 6 {
        if room < 20 {
            return None;
        }
        let header_len: usize = ((packet[at + 12] / 16) as usize) * 4;
        if header_len < 20 || room < header_len + 2 {
            return None;
        }
        let len: usize = short_at(packet, at + header_len) as usize;
        if len < 12 || room - header_len - 2 < len {
            return None;
        }
        (at + header_len + 2, len)
    } else {
        return None;
    };
    let source: u16 = short_at(packet, at);
    let destination: u16 = short_at(packet, at + 2);
    if source != 53 && destination != 53 {
        return None;
    }
    parse_dns_message(
        slice_subrange(packet, start, start + len),
        h.source,
        h.destination,
        source,
        destination,
        if h.protocol == 17 {
            "UDP"
        } else {
            "TCP"
        },
    )
}

} // verus!
