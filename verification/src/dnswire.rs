//! How a DNS message is written, and that what is written is read.
use crate::dnsmsg::{
    answer_texts, answers, code_text, extension_walk, message, name_at, name_labels,
    packet_message, skip_questions, txt_strings, type_text, v4_header, v6_header,
};
use crate::frames::{dns_len, dns_start, holds_segment, packet_end, segment};
use crate::ip::{v4_text, v6_text};
use crate::number::dec;
use crate::packet::be16;
use crate::text::{joined, lowered, utf8_lossy};
use vstd::prelude::*;

verus! {

/// A name: its labels, and whether the name of the first question follows them, which is
/// then written as a pointer to it.
pub struct Name {
    pub labels: Seq<Seq<u8>>,
    pub pointed: bool,
}

/// What a record holds.
pub enum Data {
    V4(Seq<u8>),
    V6(Seq<u8>),
    Alias(Name),
    Server(Name),
    Host(Name),
    Mail(u16, Name),
    Texts(Seq<Seq<u8>>),
    Other(u16, Seq<u8>),
}

/// An answer of a message.
pub struct Answer {
    pub owner: Name,
    pub class: u16,
    pub ttl: Seq<u8>,
    pub data: Data,
}

/// A question of a message behind the first.
pub struct Question {
    pub name: Name,
    pub kind: u16,
    pub class: u16,
}

/// A message. What follows its answers is of no account.
pub struct Written {
    pub id: u16,
    pub flags: u16,
    pub labels: Seq<Seq<u8>>,
    pub kind: u16,
    pub class: u16,
    pub more: Seq<Question>,
    pub answers: Seq<Answer>,
    pub authorities: u16,
    pub additional: u16,
    pub rest: Seq<u8>,
}

/// Two bytes of a number, the higher one first.
pub open spec fn two(n: int) -> Seq<u8> {
    seq![(n / 256) as u8, (n % 256) as u8]
}

/// Labels, each behind its length.
pub open spec fn labels_wire(ls: Seq<Seq<u8>>) -> Seq<u8>
    decreases ls.len(),
{
    if ls.len() == 0 {
        Seq::empty()
    } else {
        seq![ls[0].len() as u8] + ls[0] + labels_wire(ls.drop_first())
    }
}

/// How a name ends: with a zero, or with a pointer to the place behind the header.
pub open spec fn name_end(pointed: bool) -> Seq<u8> {
    if pointed {
        seq![0xC0u8, 12u8]
    } else {
        seq![0u8]
    }
}

pub open spec fn name_wire(n: Name) -> Seq<u8> {
    labels_wire(n.labels) + name_end(n.pointed)
}

/// All labels of a name in a message whose first question is for a name.
pub open spec fn labels_of(n: Name, first: Seq<Seq<u8>>) -> Seq<Seq<u8>> {
    if n.pointed {
        n.labels + first
    } else {
        n.labels
    }
}

/// The bytes that labels take, each with its length.
pub open spec fn labels_size(ls: Seq<Seq<u8>>) -> int
    decreases ls.len(),
{
    if ls.len() == 0 {
        0
    } else {
        ls[0].len() + 1 + labels_size(ls.drop_first())
    }
}

/// Labels that a name can have: of 1 to 63 bytes each, and of 255 with their lengths.
pub open spec fn can_be_name(ls: Seq<Seq<u8>>) -> bool {
    &&& forall|i: int| 0 <= i < ls.len() ==> 1 <= (#[trigger] ls[i]).len() <= 63
    &&& labels_size(ls) <= 255
}

/// Labels as a text, with dots between them.
pub open spec fn dotted(ls: Seq<Seq<u8>>) -> Seq<char>
    decreases ls.len(),
{
    if ls.len() == 0 {
        Seq::empty()
    } else if ls.len() == 1 {
        utf8_lossy(ls[0])
    } else {
        dotted(ls.drop_last()) + seq!['.'] + utf8_lossy(ls.last())
    }
}

/// Strings as a text, with spaces between them.
pub open spec fn spaced(ls: Seq<Seq<u8>>) -> Seq<char>
    decreases ls.len(),
{
    if ls.len() == 0 {
        Seq::empty()
    } else if ls.len() == 1 {
        utf8_lossy(ls[0])
    } else {
        spaced(ls.drop_last()) + seq![' '] + utf8_lossy(ls.last())
    }
}

/// The number of a record's type.
pub open spec fn kind_of(d: Data) -> u16 {
    match d {
        Data::V4(_) => 1,
        Data::V6(_) => 28,
        Data::Alias(_) => 5,
        Data::Server(_) => 2,
        Data::Host(_) => 12,
        Data::Mail(_, _) => 15,
        Data::Texts(_) => 16,
        Data::Other(kind, _) => kind,
    }
}

pub open spec fn data_wire(d: Data) -> Seq<u8> {
    match d {
        Data::V4(a) => a,
        Data::V6(a) => a,
        Data::Alias(n) => name_wire(n),
        Data::Server(n) => name_wire(n),
        Data::Host(n) => name_wire(n),
        Data::Mail(priority, n) => two(priority as int) + name_wire(n),
        Data::Texts(ls) => labels_wire(ls),
        Data::Other(_, bytes) => bytes,
    }
}

pub open spec fn answer_wire(a: Answer) -> Seq<u8> {
    name_wire(a.owner) + (two(kind_of(a.data) as int) + two(a.class as int) + a.ttl + two(
        data_wire(a.data).len() as int,
    ) + data_wire(a.data))
}

pub open spec fn answers_wire(s: Seq<Answer>) -> Seq<u8>
    decreases s.len(),
{
    if s.len() == 0 {
        Seq::empty()
    } else {
        answer_wire(s[0]) + answers_wire(s.drop_first())
    }
}

pub open spec fn questions_wire(s: Seq<Question>) -> Seq<u8>
    decreases s.len(),
{
    if s.len() == 0 {
        Seq::empty()
    } else {
        name_wire(s[0].name) + (two(s[0].kind as int) + two(s[0].class as int)) + questions_wire(
            s.drop_first(),
        )
    }
}

impl Written {
    pub open spec fn header(self) -> Seq<u8> {
        two(self.id as int) + two(self.flags as int) + two((1 + self.more.len()) as int) + two(
            self.answers.len() as int,
        ) + two(self.authorities as int) + two(self.additional as int)
    }

    /// The message in bytes.
    pub open spec fn wire(self) -> Seq<u8> {
        self.header() + (name_wire(Name { labels: self.labels, pointed: false }) + (two(
            self.kind as int,
        ) + two(self.class as int)) + (questions_wire(self.more) + (answers_wire(self.answers)
            + self.rest)))
    }

    /// The names and data are ones that can be written.
    pub open spec fn valid(self) -> bool {
        &&& can_be_name(self.labels)
        &&& self.more.len() <= 15
        &&& self.answers.len() <= 65535
        &&& forall|i: int|
            0 <= i < self.more.len() ==> can_be_name(
                labels_of((#[trigger] self.more[i]).name, self.labels),
            )
        &&& forall|i: int|
            0 <= i < self.answers.len() ==> can_be_answer(#[trigger] self.answers[i], self.labels)
    }
}

pub open spec fn can_be_data(d: Data, first: Seq<Seq<u8>>) -> bool {
    match d {
        Data::V4(a) => a.len() == 4,
        Data::V6(a) => a.len() == 16,
        Data::Alias(n) => can_be_name(labels_of(n, first)),
        Data::Server(n) => can_be_name(labels_of(n, first)),
        Data::Host(n) => can_be_name(labels_of(n, first)),
        Data::Mail(_, n) => can_be_name(labels_of(n, first)),
        Data::Texts(ls) => forall|i: int| 0 <= i < ls.len() ==> (#[trigger] ls[i]).len() <= 255,
        Data::Other(kind, _) => kind != 1 && kind != 28 && kind != 5 && kind != 2 && kind != 12
            && kind != 15 && kind != 16,
    }
}

pub open spec fn can_be_answer(a: Answer, first: Seq<Seq<u8>>) -> bool {
    &&& can_be_name(labels_of(a.owner, first))
    &&& a.ttl.len() == 4
    &&& data_wire(a.data).len() <= 65535
    &&& can_be_data(a.data, first)
}

/// The name of a record's type.
pub open spec fn kind_name(kind: u16) -> Seq<char> {
    match kind {
        1 => "A"@,
        2 => "NS"@,
        5 => "CNAME"@,
        6 => "SOA"@,
        12 => "PTR"@,
        15 => "MX"@,
        16 => "TXT"@,
        28 => "AAAA"@,
        33 => "SRV"@,
        64 => "SVCB"@,
        65 => "HTTPS"@,
        _ => "TYPE"@ + dec(kind as nat),
    }
}

/// The name of a response's code.
pub open spec fn code_name(code: u16) -> Seq<char> {
    match code {
        0 => "NOERROR"@,
        1 => "FORMERR"@,
        2 => "SERVFAIL"@,
        3 => "NXDOMAIN"@,
        4 => "NOTIMP"@,
        5 => "REFUSED"@,
        _ => "RCODE"@ + dec(code as nat),
    }
}

/// What is told of an answer.
pub open spec fn record_text(a: Answer, first: Seq<Seq<u8>>) -> Seq<char> {
    match a.data {
        Data::V4(b) => "A:"@ + v4_text(b),
        Data::V6(b) => "AAAA:"@ + v6_text(b),
        Data::Alias(n) => "CNAME"@ + ":"@ + dotted(labels_of(n, first)),
        Data::Server(n) => "NS"@ + ":"@ + dotted(labels_of(n, first)),
        Data::Host(n) => "PTR"@ + ":"@ + dotted(labels_of(n, first)),
        Data::Mail(priority, n) => "MX:"@ + dotted(labels_of(n, first)) + " priority="@ + dec(
            priority as nat,
        ),
        Data::Texts(ls) => "TXT:"@ + spaced(ls),
        Data::Other(kind, bytes) => kind_name(kind) + ": "@ + dec(bytes.len()) + " bytes"@,
    }
}

/// The addresses among answers.
pub open spec fn addresses(s: Seq<Answer>) -> Seq<Seq<char>>
    decreases s.len(),
{
    if s.len() == 0 {
        Seq::empty()
    } else {
        (match s[0].data {
            Data::V4(b) => seq![v4_text(b)],
            Data::V6(b) => seq![v6_text(b)],
            _ => Seq::empty(),
        }) + addresses(s.drop_first())
    }
}

/// Whether bytes stand at a place.
#[verifier::opaque]
spec fn stands(p: Seq<u8>, at: int, w: Seq<u8>) -> bool {
    0 <= at && at + w.len() <= p.len() && p.subrange(at, at + w.len()) == w
}

proof fn lemma_stands(p: Seq<u8>, at: int, a: Seq<u8>, b: Seq<u8>)
    requires
        stands(p, at, a + b),
    ensures
        stands(p, at, a),
        stands(p, at + a.len(), b),
        forall|i: int| 0 <= i < a.len() ==> #[trigger] p[at + i] == a[i],
        0 <= at,
        at + a.len() + b.len() <= p.len(),
{
    reveal(stands);
    let w = a + b;
    assert(p.subrange(at, at + a.len()) =~= w.subrange(0, a.len() as int));
    assert(w.subrange(0, a.len() as int) =~= a);
    assert(p.subrange(at + a.len(), at + w.len()) =~= w.subrange(a.len() as int, w.len() as int));
    assert(w.subrange(a.len() as int, w.len() as int) =~= b);
    assert forall|i: int| 0 <= i < a.len() implies #[trigger] p[at + i] == a[i] by {
        assert(p.subrange(at, at + w.len())[i] == w[i]);
    }
}

proof fn lemma_two(p: Seq<u8>, at: int, n: int)
    requires
        stands(p, at, two(n)),
        0 <= n < 65536,
    ensures
        be16(p, at) == n,
{
    reveal(stands);
    let s = p.subrange(at, at + 2);
    assert(s[0] == p[at] && s[1] == p[at + 1]);
    assert(two(n).len() == 2);
}

spec fn texts(ls: Seq<Seq<u8>>) -> Seq<Seq<char>> {
    Seq::new(ls.len(), |i: int| utf8_lossy(ls[i]))
}

proof fn lemma_sizes(a: Seq<Seq<u8>>, b: Seq<Seq<u8>>)
    ensures
        labels_size(a + b) == labels_size(a) + labels_size(b),
        labels_size(a) >= 0,
        labels_size(b) >= 0,
        labels_wire(a).len() == labels_size(a),
    decreases a.len(),
{
    lemma_size(b);
    if a.len() > 0 {
        assert((a + b).drop_first() =~= a.drop_first() + b);
        lemma_sizes(a.drop_first(), b);
    } else {
        assert(a + b =~= b);
    }
}

proof fn lemma_size(a: Seq<Seq<u8>>)
    ensures
        labels_size(a) >= 0,
    decreases a.len(),
{
    if a.len() > 0 {
        lemma_size(a.drop_first());
    }
}

/// Labels and an end that stand at a place are read there.
#[verifier::spinoff_prover]
#[verifier::rlimit(40)]
proof fn lemma_labels(
    p: Seq<u8>,
    at: int,
    ls: Seq<Seq<u8>>,
    pointed: bool,
    first: Seq<Seq<u8>>,
    jumps: nat,
    labels: nat,
    size: int,
)
    requires
        stands(p, at, labels_wire(ls) + name_end(pointed)),
        pointed ==> stands(p, 12, labels_wire(first) + name_end(false)),
        pointed ==> jumps < 16,
        jumps <= 16,
        forall|i: int| 0 <= i < ls.len() ==> 1 <= (#[trigger] ls[i]).len() <= 63,
        pointed ==> forall|i: int| 0 <= i < first.len() ==> 1 <= (#[trigger] first[i]).len() <= 63,
        0 <= 2 * labels <= size,
        size + labels_size(
            if pointed {
                ls + first
            } else {
                ls
            },
        ) <= 255,
    ensures
        name_labels(p, at, jumps, labels, size) == Some(
            (
                texts(
                    if pointed {
                        ls + first
                    } else {
                        ls
                    },
                ),
                at + labels_wire(ls).len() + name_end(pointed).len(),
            ),
        ),
    decreases
            (if pointed {
                1int
            } else {
                0
            }),
            ls.len(),
{
    let w = labels_wire(ls);
    let e = name_end(pointed);
    lemma_sizes(ls, first);
    lemma_size(ls);
    if ls.len() == 0 {
        assert(w + e =~= e);
        assert(e + Seq::<u8>::empty() =~= e);
        lemma_stands(p, at, e, Seq::empty());
        assert(p[at + 0] == e[0]);
        if pointed {
            assert(p[at + 1] == e[1]);
            assert(ls + first =~= first);
            lemma_labels(p, 12, first, false, first, jumps + 1, labels, size);
            assert((p[at] - 192) * 256 + p[at + 1] == 12);
            assert(texts(first) =~= texts(ls + first));
        } else {
            assert(texts(ls) =~= Seq::<Seq<char>>::empty());
        }
    } else {
        let n = ls[0].len();
        let tail = ls.drop_first();
        let head = seq![n as u8] + ls[0];
        assert(w + e =~= head + (labels_wire(tail) + e));
        lemma_stands(p, at, head, labels_wire(tail) + e);
        assert(p[at + 0] == head[0]);
        assert(p[at] == n);
        assert(p.subrange(at + 1, at + 1 + n) =~= ls[0]) by {
            assert forall|i: int| 0 <= i < n implies p.subrange(at + 1, at + 1 + n)[i] == ls[0][i] by {
                assert(p[at + (i + 1)] == head[i + 1]);
            }
        }
        assert((ls + first).drop_first() =~= tail + first);
        assert((ls + first)[0] == ls[0]);
        assert forall|i: int| 0 <= i < tail.len() implies 1 <= (#[trigger] tail[i]).len() <= 63 by {
            assert(tail[i] == ls[i + 1]);
        }
        lemma_size(tail);
        lemma_size(tail + first);
        lemma_labels(p, at + 1 + n, tail, pointed, first, jumps, labels + 1, size + n + 1);
        let all = if pointed {
            ls + first
        } else {
            ls
        };
        let later = if pointed {
            tail + first
        } else {
            tail
        };
        assert(seq![utf8_lossy(ls[0])] + texts(later) =~= texts(all));
    }
}

proof fn lemma_joined_dots(ls: Seq<Seq<u8>>)
    ensures
        joined(texts(ls), "."@) == dotted(ls),
    decreases ls.len(),
{
    reveal_strlit(".");
    assert("."@ =~= seq!['.']);
    if ls.len() > 1 {
        lemma_joined_dots(ls.drop_last());
        assert(texts(ls).drop_last() =~= texts(ls.drop_last()));
    }
}

proof fn lemma_joined_spaces(ls: Seq<Seq<u8>>)
    ensures
        joined(texts(ls), " "@) == spaced(ls),
    decreases ls.len(),
{
    reveal_strlit(" ");
    assert(" "@ =~= seq![' ']);
    if ls.len() > 1 {
        lemma_joined_spaces(ls.drop_last());
        assert(texts(ls).drop_last() =~= texts(ls.drop_last()));
    }
}

proof fn lemma_name(p: Seq<u8>, at: int, n: Name, first: Seq<Seq<u8>>)
    requires
        stands(p, at, name_wire(n)),
        stands(p, 12, labels_wire(first) + name_end(false)),
        can_be_name(first),
        can_be_name(labels_of(n, first)),
    ensures
        name_at(p, at) == Some((dotted(labels_of(n, first)), at + name_wire(n).len())),
{
    let all = labels_of(n, first);
    if n.pointed {
        assert forall|i: int| 0 <= i < n.labels.len() implies 1 <= (
        #[trigger] n.labels[i]).len() <= 63 by {
            assert(all[i] == n.labels[i]);
        }
    }
    lemma_labels(p, at, n.labels, n.pointed, first, 0, 0, 0);
    lemma_joined_dots(all);
}

proof fn lemma_strings(d: Seq<u8>, at: int, ls: Seq<Seq<u8>>)
    requires
        stands(d, at, labels_wire(ls)),
        at + labels_wire(ls).len() == d.len(),
        forall|i: int| 0 <= i < ls.len() ==> (#[trigger] ls[i]).len() <= 255,
    ensures
        txt_strings(d, at) == texts(ls),
    decreases ls.len(),
{
    if ls.len() == 0 {
        assert(texts(ls) =~= Seq::<Seq<char>>::empty());
    } else {
        let n = ls[0].len();
        let tail = ls.drop_first();
        let head = seq![n as u8] + ls[0];
        assert(labels_wire(ls) =~= head + labels_wire(tail));
        lemma_stands(d, at, head, labels_wire(tail));
        assert(d[at + 0] == head[0]);
        assert(d.subrange(at + 1, at + 1 + n) =~= ls[0]) by {
            assert forall|i: int| 0 <= i < n implies d.subrange(at + 1, at + 1 + n)[i] == ls[0][i] by {
                assert(d[at + (i + 1)] == head[i + 1]);
            }
        }
        assert forall|i: int| 0 <= i < tail.len() implies (#[trigger] tail[i]).len() <= 255 by {
            assert(tail[i] == ls[i + 1]);
        }
        lemma_strings(d, at + 1 + n, tail);
        assert(seq![utf8_lossy(ls[0])] + texts(tail) =~= texts(ls));
    }
}

proof fn lemma_kind_name(kind: u16)
    ensures
        type_text(kind) == kind_name(kind),
{
}

proof fn lemma_code_name(code: u16)
    requires
        code < 16,
    ensures
        code_text(code as u8) == code_name(code),
{
}

spec fn address_of(a: Answer) -> Seq<Seq<char>> {
    match a.data {
        Data::V4(b) => seq![v4_text(b)],
        Data::V6(b) => seq![v6_text(b)],
        _ => Seq::empty(),
    }
}

/// The data of an answer that stand at a place are told.
proof fn lemma_data(p: Seq<u8>, at: int, a: Answer, first: Seq<Seq<u8>>)
    requires
        stands(p, at, data_wire(a.data)),
        stands(p, 12, labels_wire(first) + name_end(false)),
        can_be_name(first),
        can_be_answer(a, first),
    ensures
        answer_texts(p, kind_of(a.data), at, at + data_wire(a.data).len()) == (
            address_of(a),
            seq![record_text(a, first)],
        ),
{
    let w = data_wire(a.data);
    let d = p.subrange(at, at + w.len());
    assert(d == w && d.len() == w.len()) by {
        reveal(stands);
    }
    lemma_kind_name(kind_of(a.data));
    match a.data {
        Data::V4(_) => {},
        Data::V6(_) => {},
        Data::Alias(n) => {
            lemma_name(p, at, n, first);
        },
        Data::Server(n) => {
            lemma_name(p, at, n, first);
        },
        Data::Host(n) => {
            lemma_name(p, at, n, first);
        },
        Data::Mail(priority, n) => {
            lemma_stands(p, at, two(priority as int), name_wire(n));
            lemma_two(p, at, priority as int);
            lemma_name(p, at + 2, n, first);
            assert(d[0] == p[at] && d[1] == p[at + 1]);
            assert(name_wire(n).len() >= 1);
        },
        Data::Texts(ls) => {
            assert(stands(d, 0, w)) by {
                reveal(stands);
                assert(d.subrange(0, w.len() as int) =~= w);
            }
            lemma_strings(d, 0, ls);
            lemma_joined_spaces(ls);
        },
        Data::Other(_, _) => {},
    }
}

spec fn told(s: Seq<Answer>, first: Seq<Seq<u8>>) -> Seq<Seq<char>> {
    Seq::new(s.len(), |i: int| record_text(s[i], first))
}

proof fn lemma_answer_head(p: Seq<u8>, at: int, a: Answer, rest: Seq<u8>)
    requires
        stands(p, at, answer_wire(a) + rest),
        a.ttl.len() == 4,
        data_wire(a.data).len() <= 65535,
    ensures
        ({
            let n = at + name_wire(a.owner).len();
            &&& stands(p, at, name_wire(a.owner))
            &&& be16(p, n) == kind_of(a.data)
            &&& be16(p, n + 8) == data_wire(a.data).len()
            &&& stands(p, n + 10, data_wire(a.data))
            &&& n + 10 + data_wire(a.data).len() == at + answer_wire(a).len()
            &&& stands(p, at + answer_wire(a).len(), rest)
            &&& at + answer_wire(a).len() <= p.len()
        }),
{
    let o = name_wire(a.owner);
    let k = two(kind_of(a.data) as int);
    let c = two(a.class as int);
    let l = two(data_wire(a.data).len() as int);
    let d = data_wire(a.data);
    let n = at + o.len();
    lemma_stands(p, at, answer_wire(a), rest);
    lemma_stands(p, at, o, k + c + a.ttl + l + d);
    assert(k + c + a.ttl + l + d =~= k + (c + a.ttl + l + d));
    lemma_stands(p, n, k, c + a.ttl + l + d);
    assert(c + a.ttl + l + d =~= (c + a.ttl) + (l + d));
    lemma_stands(p, n + 2, c + a.ttl, l + d);
    lemma_stands(p, n + 8, l, d);
    lemma_two(p, n, kind_of(a.data) as int);
    lemma_two(p, n + 8, d.len() as int);
}

/// Answers that stand at a place are read there, as many as are asked for.
#[verifier::spinoff_prover]
#[verifier::rlimit(40)]
proof fn lemma_answers(p: Seq<u8>, at: int, s: Seq<Answer>, rest: Seq<u8>, first: Seq<Seq<u8>>, n: nat)
    requires
        n <= s.len(),
        stands(p, at, answers_wire(s) + rest),
        stands(p, 12, labels_wire(first) + name_end(false)),
        can_be_name(first),
        forall|i: int| 0 <= i < s.len() ==> can_be_answer(#[trigger] s[i], first),
    ensures
        answers(p, at, n) == Some((addresses(s.take(n as int)), told(s.take(n as int), first))),
    decreases n,
{
    let t = s.take(n as int);
    if n == 0 {
        assert(told(t, first) =~= Seq::<Seq<char>>::empty());
    } else {
        let a = s[0];
        let later = s.drop_first();
        assert(can_be_answer(a, first));
        assert(answers_wire(s) + rest =~= answer_wire(a) + (answers_wire(later) + rest));
        lemma_answer_head(p, at, a, answers_wire(later) + rest);
        lemma_name(p, at, a.owner, first);
        let start = at + name_wire(a.owner).len() + 10;
        lemma_data(p, start, a, first);
        assert forall|i: int| 0 <= i < later.len() implies can_be_answer(#[trigger] later[i], first) by {
            assert(later[i] == s[i + 1]);
        }
        lemma_answers(p, at + answer_wire(a).len(), later, rest, first, (n - 1) as nat);
        assert(t.drop_first() =~= later.take(n - 1));
        assert(t[0] == a);
        assert(seq![record_text(a, first)] + told(later.take(n - 1), first) =~= told(t, first));
        assert(addresses(t) == address_of(a) + addresses(t.drop_first()));
    }
}

proof fn lemma_questions(p: Seq<u8>, at: int, s: Seq<Question>, rest: Seq<u8>, first: Seq<Seq<u8>>)
    requires
        stands(p, at, questions_wire(s) + rest),
        stands(p, 12, labels_wire(first) + name_end(false)),
        can_be_name(first),
        forall|i: int|
            0 <= i < s.len() ==> can_be_name(labels_of((#[trigger] s[i]).name, first)),
    ensures
        skip_questions(p, at, s.len()) == Some(at + questions_wire(s).len()),
        stands(p, at + questions_wire(s).len(), rest),
    decreases s.len(),
{
    lemma_stands(p, at, questions_wire(s), rest);
    if s.len() > 0 {
        let q = s[0];
        let later = s.drop_first();
        let w = name_wire(q.name);
        let k = two(q.kind as int) + two(q.class as int);
        assert(questions_wire(s) + rest =~= w + (k + (questions_wire(later) + rest)));
        lemma_stands(p, at, w, k + (questions_wire(later) + rest));
        lemma_stands(p, at + w.len(), k, questions_wire(later) + rest);
        lemma_name(p, at, q.name, first);
        assert forall|i: int| 0 <= i < later.len() implies can_be_name(
            labels_of((#[trigger] later[i]).name, first),
        ) by {
            assert(later[i] == s[i + 1]);
        }
        lemma_questions(p, at + w.len() + 4, later, rest, first);
    }
}

proof fn lemma_header(m: Written, p: Seq<u8>, body: Seq<u8>)
    requires
        p == m.header() + body,
        m.more.len() <= 15,
        m.answers.len() <= 65535,
    ensures
        be16(p, 0) == m.id,
        be16(p, 2) == m.flags,
        be16(p, 4) == 1 + m.more.len(),
        be16(p, 6) == m.answers.len(),
        stands(p, 12, body),
{
    reveal(stands);
    let h = m.header();
    assert(h.len() == 12);
    assert(p.subrange(12, p.len() as int) =~= body);
    assert(p[0] == h[0] && p[1] == h[1] && p[2] == h[2] && p[3] == h[3]);
    assert(p[4] == h[4] && p[5] == h[5] && p[6] == h[6] && p[7] == h[7]);
}

/// The parts of a message that was written, as they are read one after the other.
#[verifier::spinoff_prover]
#[verifier::rlimit(40)]
proof fn lemma_parts(m: Written, n: nat)
    requires
        m.valid(),
        n <= m.answers.len(),
    ensures
        ({
            let p = m.wire();
            let end = 12 + name_wire(Name { labels: m.labels, pointed: false }).len() as int;
            let at = end + 4 + questions_wire(m.more).len();
            &&& p.len() >= end + 4
            &&& be16(p, 0) == m.id
            &&& be16(p, 2) == m.flags
            &&& be16(p, 4) == 1 + m.more.len()
            &&& be16(p, 6) == m.answers.len()
            &&& name_at(p, 12) == Some((dotted(m.labels), end))
            &&& be16(p, end) == m.kind
            &&& skip_questions(p, end + 4, m.more.len()) == Some(at)
            &&& answers(p, at, n) == Some(
                (addresses(m.answers.take(n as int)), told(m.answers.take(n as int), m.labels)),
            )
        }),
{
    let p = m.wire();
    let first = m.labels;
    let q = name_wire(Name { labels: first, pointed: false });
    let k = two(m.kind as int) + two(m.class as int);
    let asked = questions_wire(m.more);
    let told_wire = answers_wire(m.answers);
    let body = q + k + (asked + (told_wire + m.rest));
    lemma_header(m, p, body);
    assert(body =~= q + (k + (asked + (told_wire + m.rest))));
    lemma_stands(p, 12, q, k + (asked + (told_wire + m.rest)));
    let end = 12 + q.len() as int;
    lemma_stands(p, end, k, asked + (told_wire + m.rest));
    lemma_stands(p, end, two(m.kind as int), two(m.class as int));
    lemma_two(p, end, m.kind as int);
    lemma_name(p, 12, Name { labels: first, pointed: false }, first);
    lemma_questions(p, end + 4, m.more, told_wire + m.rest, first);
    lemma_answers(p, end + 4 + asked.len(), m.answers, m.rest, first, n);
}

/// A message that was written is read: the name and the type of its first question, its
/// number, whether it asks or answers, the code of a response, and of a response every
/// answer up to the sixty-fourth, one record each in their order, and every address among
/// them.
#[verifier::spinoff_prover]
#[verifier::rlimit(40)]
pub proof fn law_written_message_is_read(
    m: Written,
    source_ip: Seq<u8>,
    destination_ip: Seq<u8>,
    source_port: u16,
    destination_port: u16,
    protocol: Seq<char>,
)
    requires
        m.valid(),
    ensures
        message(m.wire(), source_ip, destination_ip, source_port, destination_port, protocol)
            matches Some(r) && {
            let response = m.flags >= 0x8000;
            let read = if !response {
                Seq::empty()
            } else if m.answers.len() <= 64 {
                m.answers
            } else {
                m.answers.take(64)
            };
            &&& r.is_query == !response
            &&& r.source_ip == source_ip
            &&& r.destination_ip == destination_ip
            &&& r.source_port == source_port
            &&& r.destination_port == destination_port
            &&& r.protocol == protocol
            &&& r.transaction_id == m.id
            &&& r.domain == lowered(dotted(m.labels))
            &&& r.query_type == kind_name(m.kind)
            &&& r.response_code == if response {
                Some(code_name((m.flags % 16) as u16))
            } else {
                None
            }
            &&& r.response_records.len() == read.len()
            &&& forall|i: int|
                0 <= i < read.len() ==> #[trigger] r.response_records[i] == record_text(
                    read[i],
                    m.labels,
                )
            &&& r.response_ips == addresses(read)
        },
{
    let p = m.wire();
    let response = m.flags >= 0x8000;
    let n = if !response {
        0nat
    } else if m.answers.len() < 64 {
        m.answers.len()
    } else {
        64
    };
    lemma_parts(m, n);
    lemma_kind_name(m.kind);
    lemma_code_name((m.flags % 16) as u16);
    assert(m.answers.take(m.answers.len() as int) =~= m.answers);
    assert(m.answers.take(0) =~= Seq::<Answer>::empty());
}

/// The message in a packet is what its segment holds: a packet to or from port 53 that
/// holds a whole message is read as that message, between the addresses and the ports of
/// the packet. A packet between other ports is read as none.
#[verifier::spinoff_prover]
#[verifier::rlimit(40)]
pub proof fn law_packet_holds_its_message(p: Seq<u8>, at: int, v6: bool, tcp: bool)
    requires
        0 <= at,
        p.len() <= usize::MAX,
        holds_segment(p, at, v6, tcp),
        segment(p, at, v6) + (if tcp {
            20int
        } else {
            8
        }) <= packet_end(p, at, v6),
    ensures
        ({
            let seg = segment(p, at, v6);
            let end = packet_end(p, at, v6);
            let d = dns_start(p, seg, tcp);
            let n = dns_len(p, seg, tcp);
            let whole = (tcp ==> p[seg + 12] / 16 >= 5 && d <= end) && n >= 12 && d + n <= end;
            let source_port = p[seg] * 256 + p[seg + 1];
            let destination_port = p[seg + 2] * 256 + p[seg + 3];
            packet_message(
                p,
                at,
                if v6 {
                    6u8
                } else {
                    4u8
                },
            ) == if whole && (source_port == 53 || destination_port == 53) {
                message(
                    p.subrange(d, d + n),
                    if v6 {
                        p.subrange(at + 8, at + 24)
                    } else {
                        p.subrange(at + 12, at + 16)
                    },
                    if v6 {
                        p.subrange(at + 24, at + 40)
                    } else {
                        p.subrange(at + 16, at + 20)
                    },
                    source_port as u16,
                    destination_port as u16,
                    if tcp {
                        "TCP"@
                    } else {
                        "UDP"@
                    },
                )
            } else {
                None
            }
        }),
{
    let seg = segment(p, at, v6);
    let end = packet_end(p, at, v6);
    reveal_with_fuel(extension_walk, 2);
    if v6 {
        assert(v6_header(p, at) is Some);
        let h = v6_header(p, at)->0;
        assert(h.start == seg && h.end == end);
    } else {
        assert((p[at + 6] * 256 + p[at + 7]) % 0x4000 == 0);
        assert(v4_header(p, at) is Some);
        let h = v4_header(p, at)->0;
        assert(h.start == seg && h.end == end);
    }
}

} // verus!
