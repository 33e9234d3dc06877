//! IP addresses and their notation.
use crate::keys::bytes_eq;
use crate::number::{
    dec, decimal, digit_char, digit_value, digits, hex, hexadecimal, law_parse_reads_notation,
    lemma_dec_len, lemma_hex_len, lemma_notation, parse_unsigned, parsed,
};
use crate::table::Key;
use crate::text::{chars_of, text_range};
use vstd::prelude::*;

verus! {

/// An address by its bytes.
#[derive(Clone, Copy, Debug, PartialEq, Eq, Hash)]
pub enum IpAddr {
    V4([u8; 4]),
    V6([u8; 16]),
}

impl View for IpAddr {
    type V = Seq<u8>;

    /// The bytes of the address: four or sixteen.
    open spec fn view(&self) -> Seq<u8> {
        match *self {
            IpAddr::V4(a) => a@,
            IpAddr::V6(a) => a@,
        }
    }
}

impl Key for IpAddr {
    fn same(&self, other: &Self) -> (b: bool) {
        match (self, other) {
            (IpAddr::V4(a), IpAddr::V4(b)) => bytes_eq(a.as_slice(), b.as_slice()),
            (IpAddr::V6(a), IpAddr::V6(b)) => bytes_eq(a.as_slice(), b.as_slice()),
            (IpAddr::V4(a), IpAddr::V6(b)) => {
                assert(a@.len() != b@.len());
                false
            },
            (IpAddr::V6(a), IpAddr::V4(b)) => {
                assert(a@.len() != b@.len());
                false
            },
        }
    }

    fn dup(&self) -> (r: Self) {
        *self
    }
}

/// The dotted notation of four bytes.
pub open spec fn v4_text(a: Seq<u8>) -> Seq<char> {
    dec(a[0] as nat) + seq!['.'] + dec(a[1] as nat) + seq!['.'] + dec(a[2] as nat) + seq!['.'] + dec(
        a[3] as nat,
    )
}

/// The dotted notation of an IPv4 address.
pub fn ipv4_text(a: &[u8; 4]) -> (r: String)
    ensures
        r@ == v4_text(a@),
{
    let mut r = decimal(a[0] as u64);
    r.push('.');
    r.push_str(decimal(a[1] as u64).as_str());
    r.push('.');
    r.push_str(decimal(a[2] as u64).as_str());
    r.push('.');
    r.push_str(decimal(a[3] as u64).as_str());
    assert(r@ =~= v4_text(a@));
    r
}

/// The eight numbers of an IPv6 address.
pub open spec fn segments(a: Seq<u8>) -> Seq<u16> {
    Seq::new(8, |i: int| (a[2 * i] * 256 + a[2 * i + 1]) as u16)
}

/// How many zeros follow from a place on.
pub open spec fn zeros_from(s: Seq<u16>, i: int) -> int
    decreases s.len() - i,
{
    if 0 <= i < s.len() && s[i] == 0 {
        1 + zeros_from(s, i + 1)
    } else {
        0
    }
}

/// The first of the longest runs of zeros that start before a place, as (start,
/// length).
pub open spec fn longest_run(s: Seq<u16>, n: int) -> (int, int)
    decreases n,
{
    if n <= 0 {
        (0, 0)
    } else {
        let best = longest_run(s, n - 1);
        let here = zeros_from(s, n - 1);
        if here > best.1 {
            (n - 1, here)
        } else {
            best
        }
    }
}

/// Hexadecimal numbers with colons between them.
pub open spec fn colon_groups(s: Seq<u16>) -> Seq<char>
    decreases s.len(),
{
    if s.len() == 0 {
        Seq::empty()
    } else if s.len() == 1 {
        hex(s[0] as nat)
    } else {
        colon_groups(s.drop_last()) + seq![':'] + hex(s.last() as nat)
    }
}

/// Whether sixteen bytes hold an IPv4 address in the mapped range.
pub open spec fn is_mapped(a: Seq<u8>) -> bool {
    (forall|i: int| 0 <= i < 10 ==> a[i] == 0) && a[10] == 255 && a[11] == 255
}

/// The notation of an IPv6 address: a mapped IPv4 address in dotted form, else
/// groups with the first of the longest runs of two or more zeros left out.
pub open spec fn v6_text(a: Seq<u8>) -> Seq<char> {
    let s = segments(a);
    let (start, len) = longest_run(s, 8);
    if is_mapped(a) {
        seq![':', ':', 'f', 'f', 'f', 'f', ':'] + v4_text(a.subrange(12, 16))
    } else if len > 1 {
        colon_groups(s.take(start)) + seq![':', ':'] + colon_groups(s.skip(start + len))
    } else {
        colon_groups(s)
    }
}

/// The notation of an address.
pub open spec fn ip_text(a: Seq<u8>) -> Seq<char> {
    if a.len() == 4 {
        v4_text(a)
    } else {
        v6_text(a)
    }
}

fn push_groups(r: &mut String, s: &Vec<u16>, from: usize, to: usize)
    requires
        from <= to <= s@.len(),
    ensures
        final(r)@ == old(r)@ + colon_groups(s@.subrange(from as int, to as int)),
{
    let ghost before = r@;
    let mut i: usize = from;
    assert(s@.subrange(from as int, from as int) =~= Seq::<u16>::empty());
    assert(r@ =~= before + colon_groups(s@.subrange(from as int, from as int)));
    while i < to
        invariant
            from <= i <= to <= s@.len(),
            r@ == before + colon_groups(s@.subrange(from as int, i as int)),
        decreases to - i,
    {
        let ghost g = s@.subrange(from as int, i + 1);
        assert(g.drop_last() =~= s@.subrange(from as int, i as int));
        assert(g.last() == s@[i as int]);
        let ghost mid = r@;
        if i > from {
            r.push(':');
        }
        r.push_str(hexadecimal(s[i] as u64).as_str());
        assert(r@ =~= before + colon_groups(g));
        i += 1;
    }
}

fn count_zeros(s: &Vec<u16>, i: usize) -> (r: usize)
    requires
        i <= s@.len(),
    ensures
        r == zeros_from(s@, i as int),
        i + r <= s@.len(),
    decreases s@.len() - i,
{
    if i < s.len() && s[i] == 0 {
        1 + count_zeros(s, i + 1)
    } else {
        0
    }
}

/// The notation of an IPv6 address.
pub fn ipv6_text(a: &[u8; 16]) -> (r: String)
    ensures
        r@ == v6_text(a@),
{
    let mut zeros = true;
    let mut i: usize = 0;
    while i < 10
        invariant
            i <= 10,
            zeros == (forall|j: int| 0 <= j < i ==> a@[j] == 0),
        decreases 10 - i,
    {
        if a[i] != 0 {
            zeros = false;
        }
        i += 1;
    }
    if zeros && a[10] == 255 && a[11] == 255 {
        let mut r = String::new();
        r.push(':');
        r.push(':');
        r.push('f');
        r.push('f');
        r.push('f');
        r.push('f');
        r.push(':');
        let tail = [a[12], a[13], a[14], a[15]];
        assert(tail@ =~= a@.subrange(12, 16));
        r.push_str(ipv4_text(&tail).as_str());
        assert(r@ =~= v6_text(a@));
        return r;
    }
    assert(!is_mapped(a@));
    let mut s: Vec<u16> = Vec::new();
    let mut i: usize = 0;
    while i < 8
        invariant
            i <= 8,
            s@ == segments(a@).take(i as int),
        decreases 8 - i,
    {
        s.push((a[2 * i] as u16) * 256 + a[2 * i + 1] as u16);
        assert(s@ =~= segments(a@).take(i + 1));
        i += 1;
    }
    assert(s@ =~= segments(a@));
    let mut start: usize = 0;
    let mut len: usize = 0;
    let mut i: usize = 0;
    while i < 8
        invariant
            i <= 8,
            s@.len() == 8,
            longest_run(s@, i as int) == (start as int, len as int),
            start + len <= 8,
        decreases 8 - i,
    {
        let here: usize = count_zeros(&s, i);
        if here > len {
            start = i;
            len = here;
        }
        i += 1;
    }
    let mut r = String::new();
    if len > 1 {
        push_groups(&mut r, &s, 0, start);
        r.push(':');
        r.push(':');
        push_groups(&mut r, &s, start + len, 8);
        assert(s@.subrange(0, start as int) =~= s@.take(start as int));
        assert(s@.subrange(start + len, 8) =~= s@.skip(start + len));
        assert(r@ =~= v6_text(a@));
    } else {
        push_groups(&mut r, &s, 0, 8);
        assert(s@.subrange(0, 8) =~= s@);
        assert(r@ =~= v6_text(a@));
    }
    r
}

impl IpAddr {
    /// The notation of the address.
    pub fn to_text(&self) -> (r: String)
        ensures
            r@ == ip_text(self@),
    {
        match self {
            IpAddr::V4(a) => ipv4_text(a),
            IpAddr::V6(a) => {
                assert(a@.len() == 16);
                ipv6_text(a)
            },
        }
    }
}

/// How many digits a text starts with.
pub open spec fn digit_run(s: Seq<char>, radix: int) -> int
    decreases s.len(),
{
    if s.len() > 0 && digit_value(s[0], radix) is Some {
        1 + digit_run(s.drop_first(), radix)
    } else {
        0
    }
}

/// One number of an address at the start of a text, as (value, rest): a run of
/// at most `width` digits.
pub open spec fn read_part(s: Seq<char>, radix: int, width: int, max: int, zeros: bool) -> Option<
    (int, Seq<char>),
> {
    let k = digit_run(s, radix);
    if k == 0 || k > width || (!zeros && s[0] == '0' && k > 1) {
        None
    } else {
        match parsed(s.take(k), radix, max) {
            Some(v) => Some((v, s.skip(k))),
            None => None,
        }
    }
}

/// A character at the start of a text, and the rest.
pub open spec fn read_sign(s: Seq<char>, c: char) -> Option<Seq<char>> {
    if s.len() > 0 && s[0] == c {
        Some(s.drop_first())
    } else {
        None
    }
}

/// Decimal parts with dots between them at the start of a text.
pub open spec fn read_octets(s: Seq<char>, n: nat) -> Option<(Seq<u8>, Seq<char>)>
    decreases n,
{
    if n == 0 {
        Some((Seq::empty(), s))
    } else {
        match read_octets(s, (n - 1) as nat) {
            Some((head, rest)) => match (if n == 1 {
                Some(rest)
            } else {
                read_sign(rest, '.')
            }) {
                Some(t) => match read_part(t, 10, 3, 255, false) {
                    Some((v, u)) => Some((head.push(v as u8), u)),
                    None => None,
                },
                None => None,
            },
            None => None,
        }
    }
}

/// The text behind the colon that separates a group from the one before it.
pub open spec fn behind_colon(s: Seq<char>, i: int) -> Option<Seq<char>> {
    if i == 0 {
        Some(s)
    } else {
        read_sign(s, ':')
    }
}

/// Groups at the start of a text, from the `i`-th of at most `limit` on: (groups,
/// whether they end in a dotted address, rest).
pub open spec fn read_groups(s: Seq<char>, i: int, limit: int) -> (Seq<u16>, bool, Seq<char>)
    decreases limit - i,
{
    if i >= limit {
        (Seq::empty(), false, s)
    } else {
        let dotted = if i < limit - 1 && behind_colon(s, i) is Some {
            read_octets(behind_colon(s, i)->0, 4)
        } else {
            None
        };
        match dotted {
            Some((a, rest)) => (
                seq![(a[0] * 256 + a[1]) as u16, (a[2] * 256 + a[3]) as u16],
                true,
                rest,
            ),
            None => match behind_colon(s, i) {
                Some(t) => match read_part(t, 16, 4, 65535, true) {
                    Some((v, u)) => {
                        let (more, end, rest) = read_groups(u, i + 1, limit);
                        (seq![v as u16] + more, end, rest)
                    },
                    None => (Seq::empty(), false, s),
                },
                None => (Seq::empty(), false, s),
            },
        }
    }
}

/// The eight numbers of an IPv6 address at the start of a text. A double colon
/// stands for at least one zero.
pub open spec fn read_v6(s: Seq<char>) -> Option<(Seq<u16>, Seq<char>)> {
    let (head, dotted, rest) = read_groups(s, 0, 8);
    if head.len() == 8 {
        Some((head, rest))
    } else if dotted {
        None
    } else {
        match read_sign(rest, ':') {
            Some(t) => match read_sign(t, ':') {
                Some(u) => {
                    let (tail, _, end) = read_groups(u, 0, 7 - head.len());
                    Some(
                        (
                            head + Seq::new(
                                (8 - head.len() - tail.len()) as nat,
                                |i: int| 0u16,
                            ) + tail,
                            end,
                        ),
                    )
                },
                None => None,
            },
            None => None,
        }
    }
}

/// The bytes of eight numbers.
pub open spec fn segment_bytes(s: Seq<u16>) -> Seq<u8> {
    Seq::new(
        16,
        |i: int|
            if i % 2 == 0 {
                (s[i / 2] / 256) as u8
            } else {
                (s[i / 2] % 256) as u8
            },
    )
}

/// The IPv4 address that a text names, which is all of the text.
pub open spec fn parsed_v4(s: Seq<char>) -> Option<Seq<u8>> {
    match read_octets(s, 4) {
        Some((a, rest)) => if rest.len() == 0 {
            Some(a)
        } else {
            None
        },
        None => None,
    }
}

/// The address that a text names: an IPv4 address, or else an IPv6 address.
pub open spec fn parsed_ip(s: Seq<char>) -> Option<Seq<u8>> {
    if read_octets(s, 4) is Some {
        parsed_v4(s)
    } else {
        match read_v6(s) {
            Some((a, rest)) => if rest.len() == 0 {
                Some(segment_bytes(a))
            } else {
                None
            },
            None => None,
        }
    }
}

proof fn lemma_digit_run(s: Seq<char>, radix: int, k: int)
    requires
        0 <= k <= s.len(),
        forall|j: int| 0 <= j < k ==> digit_value(s[j], radix) is Some,
        k == s.len() || digit_value(s[k], radix) is None,
    ensures
        digit_run(s, radix) == k,
    decreases s.len(),
{
    if k > 0 {
        let t = s.drop_first();
        assert(forall|j: int| 0 <= j < k - 1 ==> t[j] == s[j + 1]);
        lemma_digit_run(t, radix, k - 1);
    }
}

fn is_digit_char(c: char, radix: u64) -> (r: bool)
    requires
        radix == 10 || radix == 16,
    ensures
        r == (digit_value(c, radix as int) is Some),
{
    let n: u32 = c as u32;
    (48 <= n && n <= 57) || (radix == 16 && ((65 <= n && n <= 70) || (97 <= n && n <= 102)))
}

fn part_at(cs: &Vec<char>, from: usize, radix: u64, width: usize, max: u64, zeros: bool) -> (r:
    Option<(u64, usize)>)
    requires
        from <= cs@.len(),
        radix == 10 || radix == 16,
    ensures
        match r {
            Some((v, next)) => next <= cs@.len() && v <= max && read_part(
                cs@.skip(from as int),
                radix as int,
                width as int,
                max as int,
                zeros,
            ) == Some((v as int, cs@.skip(next as int))),
            None => read_part(
                cs@.skip(from as int),
                radix as int,
                width as int,
                max as int,
                zeros,
            ) is None,
        },
{
    let mut end: usize = from;
    while end < cs.len() && is_digit_char(cs[end], radix)
        invariant
            from <= end <= cs@.len(),
            radix == 10 || radix == 16,
            forall|j: int| from <= j < end ==> digit_value(cs@[j], radix as int) is Some,
        decreases cs@.len() - end,
    {
        end += 1;
    }
    let ghost s = cs@.skip(from as int);
    proof {
        lemma_digit_run(s, radix as int, end - from);
    }
    let k: usize = end - from;
    if k == 0 || k > width || (!zeros && cs[from] == '0' && k > 1) {
        return None;
    }
    let digits = text_range(cs.as_slice(), from, end);
    assert(digits@ =~= s.take(k as int));
    match parse_unsigned(digits.as_str(), radix, max) {
        Some(v) => {
            assert(s.skip(k as int) =~= cs@.skip(end as int));
            Some((v, end))
        },
        None => None,
    }
}

fn octets_at(cs: &Vec<char>, from: usize) -> (r: Option<([u8; 4], usize)>)
    requires
        from <= cs@.len(),
    ensures
        match r {
            Some((a, next)) => next <= cs@.len() && read_octets(cs@.skip(from as int), 4) == Some(
                (a@, cs@.skip(next as int)),
            ),
            None => read_octets(cs@.skip(from as int), 4) is None,
        },
{
    let ghost s = cs@.skip(from as int);
    let mut a: [u8; 4] = [0, 0, 0, 0];
    let mut at: usize = from;
    let mut i: usize = 0;
    assert(a@.take(0) =~= Seq::<u8>::empty());
    while i < 4
        invariant
            i <= 4,
            at <= cs@.len(),
            s == cs@.skip(from as int),
            read_octets(s, i as nat) == Some((a@.take(i as int), cs@.skip(at as int))),
        decreases 4 - i,
    {
        let ghost rest = cs@.skip(at as int);
        let ghost before = a@;
        let mut ok = true;
        let mut start: usize = at;
        if i > 0 {
            if at < cs.len() && cs[at] == '.' {
                start = at + 1;
                assert(rest.drop_first() =~= cs@.skip(at + 1));
            } else {
                ok = false;
            }
        }
        if !ok {
            assert(read_octets(s, (i + 1) as nat) is None);
            proof {
                lemma_octets_fail(s, (i + 1) as nat, 4);
            }
            return None;
        }
        match part_at(cs, start, 10, 3, 255, false) {
            Some((v, next)) => {
                a[i] = v as u8;
                assert(a@.take(i + 1) =~= before.take(i as int).push(v as u8));
                at = next;
            },
            None => {
                assert(read_octets(s, (i + 1) as nat) is None);
                proof {
                    lemma_octets_fail(s, (i + 1) as nat, 4);
                }
                return None;
            },
        }
        i += 1;
    }
    assert(a@.take(4) =~= a@);
    Some((a, at))
}

proof fn lemma_octets_fail(s: Seq<char>, i: nat, n: nat)
    requires
        i <= n,
        read_octets(s, i) is None,
    ensures
        read_octets(s, n) is None,
    decreases n - i,
{
    if i < n {
        lemma_octets_fail(s, i + 1, n);
    }
}

fn groups_at(cs: &Vec<char>, from: usize, i: usize, limit: usize) -> (r: (Vec<u16>, bool, usize))
    requires
        from <= cs@.len(),
        i <= limit <= 8,
    ensures
        r.2 <= cs@.len(),
        r.0@.len() <= limit - i,
        read_groups(cs@.skip(from as int), i as int, limit as int) == (
            r.0@,
            r.1,
            cs@.skip(r.2 as int),
        ),
    decreases limit - i,
{
    let ghost s = cs@.skip(from as int);
    let mut r: Vec<u16> = Vec::new();
    if i >= limit {
        assert(r@ =~= Seq::<u16>::empty());
        return (r, false, from);
    }
    let mut start: usize = from;
    if i > 0 {
        if from < cs.len() && cs[from] == ':' {
            start = from + 1;
            assert(s.drop_first() =~= cs@.skip(from + 1));
        } else {
            assert(r@ =~= Seq::<u16>::empty());
            return (r, false, from);
        }
    }
    assert(behind_colon(s, i as int) == Some(cs@.skip(start as int)));
    if i < limit - 1 {
        if let Some((a, next)) = octets_at(cs, start) {
            r.push((a[0] as u16) * 256 + a[1] as u16);
            r.push((a[2] as u16) * 256 + a[3] as u16);
            assert(r@ =~= seq![(a@[0] * 256 + a@[1]) as u16, (a@[2] * 256 + a@[3]) as u16]);
            return (r, true, next);
        }
    }
    match part_at(cs, start, 16, 4, 65535, true) {
        Some((v, next)) => {
            r.push(v as u16);
            let (mut more, end, rest) = groups_at(cs, next, i + 1, limit);
            let ghost tail = more@;
            r.append(&mut more);
            assert(r@ =~= seq![v as u16] + tail);
            (r, end, rest)
        },
        None => {
            assert(r@ =~= Seq::<u16>::empty());
            (r, false, from)
        },
    }
}

fn v6_bytes(s: &Vec<u16>) -> (r: [u8; 16])
    requires
        s@.len() == 8,
    ensures
        r@ == segment_bytes(s@),
{
    let mut r: [u8; 16] = [0, 0, 0, 0, 0, 0, 0, 0, 0, 0, 0, 0, 0, 0, 0, 0];
    let mut i: usize = 0;
    while i < 8
        invariant
            i <= 8,
            s@.len() == 8,
            forall|j: int| 0 <= j < 2 * i ==> r@[j] == segment_bytes(s@)[j],
        decreases 8 - i,
    {
        r[2 * i] = (s[i] / 256) as u8;
        r[2 * i + 1] = (s[i] % 256) as u8;
        i += 1;
    }
    assert(r@ =~= segment_bytes(s@));
    r
}

/// Reads an IPv4 address.
pub fn parse_ipv4_text(s: &str) -> (r: Option<[u8; 4]>)
    ensures
        match r {
            Some(a) => parsed_v4(s@) == Some(a@),
            None => parsed_v4(s@) is None,
        },
{
    let cs = chars_of(s);
    assert(cs@.skip(0) =~= cs@);
    match octets_at(&cs, 0) {
        Some((a, next)) => {
            if next == cs.len() {
                Some(a)
            } else {
                None
            }
        },
        None => None,
    }
}

/// Reads an address of either version.
pub fn parse_ip_text(s: &str) -> (r: Option<IpAddr>)
    ensures
        match r {
            Some(a) => parsed_ip(s@) == Some(a@),
            None => parsed_ip(s@) is None,
        },
{
    let cs = chars_of(s);
    assert(cs@.skip(0) =~= cs@);
    if let Some((a, next)) = octets_at(&cs, 0) {
        return if next == cs.len() {
            Some(IpAddr::V4(a))
        } else {
            None
        };
    }
    let (mut head, dotted, at) = groups_at(&cs, 0, 0, 8);
    if head.len() == 8 {
        return if at == cs.len() {
            Some(IpAddr::V6(v6_bytes(&head)))
        } else {
            None
        };
    }
    if dotted {
        return None;
    }
    let ghost rest = cs@.skip(at as int);
    if !(at < cs.len() && at + 1 < cs.len() && cs[at] == ':' && cs[at + 1] == ':') {
        return None;
    }
    assert(rest.drop_first().drop_first() =~= cs@.skip(at + 2));
    let (mut tail, _, end) = groups_at(&cs, at + 2, 0, 7 - head.len());
    let ghost h = head@;
    let ghost t = tail@;
    let zeros: usize = 8 - head.len() - tail.len();
    let mut i: usize = 0;
    while i < zeros
        invariant
            i <= zeros,
            head@ == h + Seq::new(i as nat, |j: int| 0u16),
        decreases zeros - i,
    {
        head.push(0);
        assert(head@ =~= h + Seq::new((i + 1) as nat, |j: int| 0u16));
        i += 1;
    }
    head.append(&mut tail);
    assert(head@ =~= h + Seq::new(zeros as nat, |j: int| 0u16) + t);
    if end == cs.len() {
        Some(IpAddr::V6(v6_bytes(&head)))
    } else {
        None
    }
}

proof fn lemma_read_digits(n: nat, rest: Seq<char>, radix: nat, width: int, max: int, zeros: bool)
    requires
        radix == 10 || radix == 16,
        n <= max,
        digits(n, radix).len() <= width,
        rest.len() == 0 || digit_value(rest[0], radix as int) is None,
    ensures
        read_part(digits(n, radix) + rest, radix as int, width, max, zeros) == Some(
            (n as int, rest),
        ),
{
    let d = digits(n, radix);
    let s = d + rest;
    let k = d.len() as int;
    lemma_notation(n, radix);
    assert forall|j: int| 0 <= j < k implies digit_value(s[j], radix as int) is Some by {
        assert(s[j] == d[j]);
    }
    if rest.len() > 0 {
        assert(s[k] == rest[0]);
    }
    lemma_digit_run(s, radix as int, k);
    assert(s.take(k) =~= d);
    assert(s.skip(k) =~= rest);
    law_parse_reads_notation(n, radix, max);
    assert(s[0] == d[0]);
    if n == 0 {
        assert(d =~= seq![digit_char(0)]);
    }
}

proof fn lemma_read_octet(n: u8, rest: Seq<char>)
    requires
        rest.len() == 0 || digit_value(rest[0], 10) is None,
    ensures
        read_part(dec(n as nat) + rest, 10, 3, 255, false) == Some((n as int, rest)),
{
    lemma_dec_len(n as nat);
    lemma_read_digits(n as nat, rest, 10, 3, 255, false);
}

proof fn lemma_read_group(n: u16, rest: Seq<char>)
    requires
        rest.len() == 0 || digit_value(rest[0], 16) is None,
    ensures
        read_part(hex(n as nat) + rest, 16, 4, 65535, true) == Some((n as int, rest)),
{
    lemma_hex_len(n as nat);
    lemma_read_digits(n as nat, rest, 16, 4, 65535, true);
}

proof fn lemma_next_octet(s: Seq<char>, k: nat, head: Seq<u8>, n: u8, rest: Seq<char>)
    requires
        k > 0,
        read_octets(s, k) == Some((head, seq!['.'] + (dec(n as nat) + rest))),
        rest.len() == 0 || digit_value(rest[0], 10) is None,
    ensures
        read_octets(s, k + 1) == Some((head.push(n), rest)),
{
    let t = dec(n as nat) + rest;
    assert((seq!['.'] + t).drop_first() =~= t);
    assert(read_sign(seq!['.'] + t, '.') == Some(t));
    lemma_read_octet(n, rest);
}

/// The dotted notation of an address is read as the address.
pub proof fn law_v4_text_roundtrip(a: Seq<u8>)
    requires
        a.len() == 4,
    ensures
        read_octets(v4_text(a), 4) == Some((a, Seq::<char>::empty())),
        parsed_v4(v4_text(a)) == Some(a),
        parsed_ip(v4_text(a)) == Some(a),
{
    let s = v4_text(a);
    let r3 = Seq::<char>::empty();
    let r2 = seq!['.'] + (dec(a[3] as nat) + r3);
    let r1 = seq!['.'] + (dec(a[2] as nat) + r2);
    let r0 = seq!['.'] + (dec(a[1] as nat) + r1);
    assert(s =~= dec(a[0] as nat) + r0);
    lemma_read_octet(a[0], r0);
    let head = Seq::<u8>::empty().push(a[0]);
    assert(read_octets(s, 0) == Some((Seq::<u8>::empty(), s)));
    assert(read_octets(s, 1) == Some((head, r0)));
    lemma_next_octet(s, 1, head, a[1], r1);
    lemma_next_octet(s, 2, head.push(a[1]), a[2], r2);
    lemma_next_octet(s, 3, head.push(a[1]).push(a[2]), a[3], r3);
    assert(head.push(a[1]).push(a[2]).push(a[3]) =~= a);
}

/// Hexadecimal numbers with a colon before each.
spec fn chained(s: Seq<u16>) -> Seq<char>
    decreases s.len(),
{
    if s.len() == 0 {
        Seq::empty()
    } else {
        seq![':'] + (hex(s[0] as nat) + chained(s.drop_first()))
    }
}

proof fn lemma_chained_push(s: Seq<u16>, x: u16)
    ensures
        chained(s.push(x)) == chained(s) + seq![':'] + hex(x as nat),
    decreases s.len(),
{
    let t = s.push(x);
    if s.len() == 0 {
        assert(t.drop_first() =~= Seq::<u16>::empty());
        assert(chained(t.drop_first()) =~= Seq::<char>::empty());
        assert(chained(t) =~= chained(s) + seq![':'] + hex(x as nat));
    } else {
        assert(t.drop_first() =~= s.drop_first().push(x));
        lemma_chained_push(s.drop_first(), x);
        assert(chained(t) =~= chained(s) + seq![':'] + hex(x as nat));
    }
}

proof fn lemma_colon_groups(s: Seq<u16>)
    requires
        s.len() > 0,
    ensures
        colon_groups(s) == hex(s[0] as nat) + chained(s.drop_first()),
    decreases s.len(),
{
    if s.len() == 1 {
        assert(s.drop_first() =~= Seq::<u16>::empty());
        assert(hex(s[0] as nat) + chained(s.drop_first()) =~= hex(s[0] as nat));
    } else {
        let front = s.drop_last();
        lemma_colon_groups(front);
        assert(s.drop_first() =~= front.drop_first().push(s.last()));
        lemma_chained_push(front.drop_first(), s.last());
        assert(colon_groups(s) =~= hex(s[0] as nat) + chained(s.drop_first()));
    }
}

proof fn lemma_run_holds_digits(s: Seq<char>, radix: int)
    ensures
        0 <= digit_run(s, radix) <= s.len(),
        forall|j: int|
            0 <= j < digit_run(s, radix) ==> digit_value(#[trigger] s[j], radix) is Some,
    decreases s.len(),
{
    if s.len() > 0 && digit_value(s[0], radix) is Some {
        let t = s.drop_first();
        lemma_run_holds_digits(t, radix);
        assert forall|j: int| 0 <= j < digit_run(s, radix) implies digit_value(
            #[trigger] s[j],
            radix,
        ) is Some by {
            if j > 0 {
                assert(s[j] == t[j - 1]);
            }
        }
    }
}

/// Where the decimal digits at the start of a text are not followed by a dot, no dotted
/// address starts there.
proof fn lemma_no_octets(s: Seq<char>)
    requires
        ({
            let k = digit_run(s, 10);
            k == 0 || k >= s.len() || s[k] != '.'
        }),
    ensures
        read_octets(s, 4) is None,
{
    let k = digit_run(s, 10);
    lemma_run_holds_digits(s, 10);
    reveal_with_fuel(read_octets, 3);
    if read_octets(s, 1) is None {
        lemma_octets_fail(s, 1, 4);
    } else {
        let (_, rest) = read_octets(s, 1)->0;
        assert(rest == s.skip(k));
        if k < s.len() {
            assert(s.skip(k)[0] == s[k]);
        }
        lemma_octets_fail(s, 2, 4);
    }
}

proof fn lemma_group_is_no_octet(n: u16, rest: Seq<char>)
    requires
        rest.len() == 0 || rest[0] == ':',
    ensures
        read_octets(hex(n as nat) + rest, 4) is None,
{
    let h = hex(n as nat);
    let s = h + rest;
    let k = digit_run(s, 10);
    lemma_notation(n as nat, 16);
    lemma_run_holds_digits(s, 10);
    if 0 < k < s.len() {
        if k < h.len() {
            assert(s[k] == h[k]);
        } else {
            assert(s[h.len() as int] == ':');
            assert(digit_value(':', 10) is None);
            assert(k == h.len());
        }
    }
    lemma_no_octets(s);
}

/// Whether groups end before a text.
spec fn ends_groups(s: Seq<char>) -> bool {
    s.len() == 0 || (s.len() >= 2 && s[0] == ':' && s[1] == ':')
}

proof fn lemma_groups_end(rest: Seq<char>, i: int, limit: int)
    requires
        0 <= i,
        ends_groups(rest),
    ensures
        read_groups(rest, i, limit) == (Seq::<u16>::empty(), false, rest),
{
    if i < limit {
        match behind_colon(rest, i) {
            Some(t) => {
                assert(t.len() == 0 || t[0] == ':');
                assert(digit_run(t, 10) == 0);
                assert(digit_run(t, 16) == 0);
                lemma_no_octets(t);
            },
            None => {},
        }
    }
}

proof fn lemma_read_chain(s: Seq<u16>, i: int, limit: int, rest: Seq<char>)
    requires
        1 <= i,
        i + s.len() <= limit,
        ends_groups(rest),
    ensures
        read_groups(chained(s) + rest, i, limit) == (s, false, rest),
    decreases s.len(),
{
    if s.len() == 0 {
        assert(chained(s) + rest =~= rest);
        lemma_groups_end(rest, i, limit);
        assert(s =~= Seq::<u16>::empty());
    } else {
        let more = s.drop_first();
        let u = chained(more) + rest;
        let t = hex(s[0] as nat) + u;
        assert(chained(s) + rest =~= seq![':'] + t);
        assert((seq![':'] + t).drop_first() =~= t);
        assert(u.len() == 0 || u[0] == ':');
        lemma_group_is_no_octet(s[0], u);
        lemma_read_group(s[0], u);
        lemma_read_chain(more, i + 1, limit, rest);
        assert(seq![s[0]] + more =~= s);
    }
}

proof fn lemma_read_groups(s: Seq<u16>, limit: int, rest: Seq<char>)
    requires
        s.len() <= limit,
        ends_groups(rest),
    ensures
        read_groups(colon_groups(s) + rest, 0, limit) == (s, false, rest),
{
    if s.len() == 0 {
        assert(colon_groups(s) + rest =~= rest);
        lemma_groups_end(rest, 0, limit);
        assert(s =~= Seq::<u16>::empty());
    } else {
        let more = s.drop_first();
        let u = chained(more) + rest;
        lemma_colon_groups(s);
        assert(colon_groups(s) + rest =~= hex(s[0] as nat) + u);
        assert(u.len() == 0 || u[0] == ':');
        lemma_group_is_no_octet(s[0], u);
        lemma_read_group(s[0], u);
        lemma_read_chain(more, 1, limit, rest);
        assert(seq![s[0]] + more =~= s);
    }
}

proof fn lemma_zeros(s: Seq<u16>, i: int)
    requires
        0 <= i <= s.len(),
    ensures
        0 <= zeros_from(s, i) <= s.len() - i,
        forall|j: int| i <= j < i + zeros_from(s, i) ==> #[trigger] s[j] == 0,
    decreases s.len() - i,
{
    if i < s.len() && s[i] == 0 {
        lemma_zeros(s, i + 1);
    }
}

proof fn lemma_longest_run(s: Seq<u16>, n: int)
    requires
        0 <= n <= s.len(),
    ensures
        ({
            let (start, len) = longest_run(s, n);
            0 <= start && 0 <= len && start + len <= s.len() && forall|j: int|
                start <= j < start + len ==> #[trigger] s[j] == 0
        }),
    decreases n,
{
    if n > 0 {
        lemma_longest_run(s, n - 1);
        lemma_zeros(s, n - 1);
    }
}

proof fn lemma_segment_bytes(a: Seq<u8>)
    requires
        a.len() == 16,
    ensures
        segment_bytes(segments(a)) == a,
{
    assert forall|i: int| 0 <= i < 16 implies segment_bytes(segments(a))[i] == a[i] by {
        let k = i / 2;
        assert(segments(a)[k] == a[2 * k] * 256 + a[2 * k + 1]);
        assert(i == 2 * k || i == 2 * k + 1);
    }
    assert(segment_bytes(segments(a)) =~= a);
}

#[verifier::rlimit(30)]
proof fn lemma_mapped_roundtrip(a: Seq<u8>)
    requires
        a.len() == 16,
        is_mapped(a),
    ensures
        parsed_ip(v6_text(a)) == Some(a),
{
    let tail = a.subrange(12, 16);
    let text = v6_text(a);
    let v4 = v4_text(tail);
    let colons = seq![':', ':'];
    let behind = seq!['f', 'f', 'f', 'f', ':'] + v4;
    let empty = Seq::<char>::empty();
    assert(text =~= colons + behind);
    assert(digit_run(text, 10) == 0);
    lemma_no_octets(text);
    lemma_groups_end(text, 0, 8);
    assert(text.drop_first().drop_first() =~= behind);
    reveal_with_fuel(digits, 5);
    let h = hex(65535);
    assert(h =~= seq!['f', 'f', 'f', 'f']);
    let u = seq![':'] + v4;
    assert(behind =~= h + u);
    lemma_group_is_no_octet(65535, u);
    lemma_read_group(65535, u);
    assert(u.drop_first() =~= v4);
    law_v4_text_roundtrip(tail);
    reveal_with_fuel(read_groups, 3);
    let low = seq![(tail[0] * 256 + tail[1]) as u16, (tail[2] * 256 + tail[3]) as u16];
    assert(read_groups(u, 1, 7) == (low, true, empty));
    assert(read_groups(behind, 0, 7) == (seq![65535u16] + low, true, empty));
    let got = Seq::<u16>::empty() + Seq::new(5, |i: int| 0u16) + (seq![65535u16] + low);
    assert(read_v6(text) == Some((got, empty)));
    assert(got =~= segments(a));
    lemma_segment_bytes(a);
}

#[verifier::rlimit(30)]
proof fn lemma_short_roundtrip(s: Seq<u16>, start: int, len: int)
    requires
        s.len() == 8,
        0 <= start,
        1 < len,
        start + len <= 8,
        forall|j: int| start <= j < start + len ==> #[trigger] s[j] == 0,
    ensures
        ({
            let text = colon_groups(s.take(start)) + seq![':', ':'] + colon_groups(
                s.skip(start + len),
            );
            read_octets(text, 4) is None && read_v6(text) == Some((s, Seq::<char>::empty()))
        }),
{
    let head = s.take(start);
    let tail = s.skip(start + len);
    let empty = Seq::<char>::empty();
    let behind = colon_groups(tail) + empty;
    let rest = seq![':', ':'] + behind;
    let text = colon_groups(head) + seq![':', ':'] + colon_groups(tail);
    assert(text =~= colon_groups(head) + rest);
    assert(read_octets(text, 4) is None) by {
        if head.len() == 0 {
            assert(text =~= rest);
            assert(digit_run(text, 10) == 0);
            lemma_no_octets(text);
        } else {
            lemma_colon_groups(head);
            let u = chained(head.drop_first()) + rest;
            assert(text =~= hex(head[0] as nat) + u);
            assert(u[0] == ':');
            lemma_group_is_no_octet(head[0], u);
        }
    }
    lemma_read_groups(head, 8, rest);
    lemma_read_groups(tail, 7 - head.len(), empty);
    let one = rest.drop_first();
    assert(read_sign(rest, ':') == Some(one));
    assert(one[0] == ':');
    assert(one.drop_first() =~= behind);
    assert(read_sign(one, ':') == Some(behind));
    let zeros = Seq::new((8 - head.len() - tail.len()) as nat, |i: int| 0u16);
    assert(head + zeros + tail =~= s);
}

proof fn lemma_full_roundtrip(s: Seq<u16>)
    requires
        s.len() == 8,
    ensures
        read_octets(colon_groups(s), 4) is None,
        read_v6(colon_groups(s)) == Some((s, Seq::<char>::empty())),
{
    let empty = Seq::<char>::empty();
    assert(colon_groups(s) + empty =~= colon_groups(s));
    lemma_read_groups(s, 8, empty);
    lemma_colon_groups(s);
    let u = chained(s.drop_first());
    assert(u[0] == ':');
    lemma_group_is_no_octet(s[0], u);
}

/// The notation of an address of either version is read as the address.
pub proof fn law_address_roundtrip(a: Seq<u8>)
    requires
        a.len() == 4 || a.len() == 16,
    ensures
        parsed_ip(ip_text(a)) == Some(a),
{
    if a.len() == 4 {
        law_v4_text_roundtrip(a);
    } else if is_mapped(a) {
        lemma_mapped_roundtrip(a);
    } else {
        let s = segments(a);
        let (start, len) = longest_run(s, 8);
        lemma_longest_run(s, 8);
        lemma_segment_bytes(a);
        if len > 1 {
            lemma_short_roundtrip(s, start, len);
        } else {
            lemma_full_roundtrip(s);
        }
    }
}

} // verus!
