//! How numbers and addresses are written.
use crate::cidr::{in_network, law_mask_keeps_prefix, v4_number};
use crate::ip::{law_v4_text_roundtrip, v4_text};
use crate::mac::{mac_tail, mac_text};
use crate::number::{dec, digit_char, digits, hex2, law_parse_reads_notation};
use crate::system::ipv6_kind;
use crate::places::lemma_trimmed;
use crate::text::{cut, lemma_find_char, lowered, trimmed, uppered};
use crate::topology::Ipv6AddrType;
use vstd::prelude::*;

verus! {

/// A digit of a number up to sixteen.
pub open spec fn numeral(d: int) -> char {
    "0123456789abcdef"@[d]
}

proof fn lemma_numeral(d: int)
    requires
        0 <= d < 16,
    ensures
        digit_char(d) == numeral(d),
{
    reveal_strlit("0123456789abcdef");
}

/// A number below a thousand is written with its hundreds, its tens and its ones, without
/// zeros in front.
pub proof fn law_number_is_written_by_its_digits(n: nat)
    requires
        n < 1000,
    ensures
        n < 10 ==> dec(n) == seq![numeral(n as int)],
        10 <= n < 100 ==> dec(n) == seq![numeral(n as int / 10), numeral(n as int % 10)],
        100 <= n ==> dec(n) == seq![
            numeral(n as int / 100),
            numeral(n as int / 10 % 10),
            numeral(n as int % 10),
        ],
{
    reveal_with_fuel(digits, 3);
    lemma_numeral(n as int % 10);
    lemma_numeral(n as int / 10 % 10);
    if n < 10 {
        lemma_numeral(n as int);
    } else if n < 100 {
        assert(n / 10 < 10);
        assert(dec(n) =~= seq![numeral(n as int / 10), numeral(n as int % 10)]);
    } else {
        assert(n / 10 / 10 == n / 100);
        assert(n / 100 < 10);
        lemma_numeral(n as int / 100);
        assert(dec(n) =~= seq![
            numeral(n as int / 100),
            numeral(n as int / 10 % 10),
            numeral(n as int % 10),
        ]);
    }
}

/// A hardware address is written by the two hexadecimal digits of each byte, with colons
/// between the bytes.
pub proof fn law_mac_is_written_by_its_bytes(m: Seq<u8>, i: int)
    requires
        m.len() == 6,
        0 <= i < 6,
    ensures
        mac_text(m).len() == 17,
        mac_text(m)[3 * i] == numeral(m[i] as int / 16),
        mac_text(m)[3 * i + 1] == numeral(m[i] as int % 16),
        i < 5 ==> mac_text(m)[3 * i + 2] == ':',
{
    lemma_numeral(m[i] as int / 16);
    lemma_numeral(m[i] as int % 16);
    reveal_with_fuel(mac_tail, 7);
    let t5 = mac_tail(m, 5);
    let t4 = mac_tail(m, 4);
    let t3 = mac_tail(m, 3);
    let t2 = mac_tail(m, 2);
    let t1 = mac_tail(m, 1);
    let t0 = mac_tail(m, 0);
    assert(t5 == hex2(m[5]));
    assert(t4 == hex2(m[4]) + seq![':'] + t5);
    assert(t3 == hex2(m[3]) + seq![':'] + t4);
    assert(t2 == hex2(m[2]) + seq![':'] + t3);
    assert(t1 == hex2(m[1]) + seq![':'] + t2);
    assert(t0 == hex2(m[0]) + seq![':'] + t1);
}

/// An IPv4 address is written by its four bytes, the first one first, with points between them.
pub proof fn law_v4_is_written_by_its_bytes(a: Seq<u8>)
    requires
        a.len() == 4,
    ensures
        v4_text(a) == dec(a[0] as nat) + "."@ + dec(a[1] as nat) + "."@ + dec(a[2] as nat) + "."@ + dec(
            a[3] as nat,
        ),
{
    reveal_strlit(".");
    assert("."@ =~= seq!['.']);
}

/// An address as a number, its first byte the most significant one.
pub open spec fn number_of(a: Seq<u8>) -> int {
    ((a[0] * 256 + a[1]) * 256 + a[2]) * 256 + a[3]
}

/// A power of two.
pub open spec fn two_to(n: nat) -> int
    decreases n,
{
    if n == 0 {
        1
    } else {
        2 * two_to((n - 1) as nat)
    }
}

proof fn lemma_shift(x: u32, k: u32)
    requires
        k < 32,
    ensures
        x >> k == x as int / two_to(k as nat),
        two_to(k as nat) > 0,
    decreases k,
{
    if k == 0 {
        assert(x >> 0u32 == x) by (bit_vector);
        assert(two_to(0) == 1);
        assert(x as int / 1 == x);
    } else {
        let j = (k - 1) as u32;
        lemma_shift(x, j);
        assert(x >> k == (x >> j) / 2) by (bit_vector)
            requires
                k == j + 1,
                j < 31,
        ;
        let p = two_to(j as nat);
        assert(k as nat - 1 == j as nat);
        assert(two_to(k as nat) == 2 * p);
        assert((x >> j) as int == x as int / p);
        assert(x as int / p / 2 == x as int / (p * 2)) by {
            vstd::arithmetic::div_mod::lemma_div_denominator(x as int, p, 2);
        }
        assert(p * 2 == two_to(k as nat));
    }
}

proof fn lemma_plain(n: nat, c: char)
    requires
        c == '/',
        n < 1000,
    ensures
        !dec(n).contains(c),
{
    law_number_is_written_by_its_digits(n);
    reveal_strlit("0123456789abcdef");
}

/// The address and the prefix of a written network stand before and behind its slash, and it has
/// no blanks around it.
pub(crate) proof fn lemma_slash(net: Seq<u8>, n: nat)
    requires
        net.len() == 4,
        n <= 32,
    ensures
        cut(v4_text(net) + "/"@ + dec(n), '/') == Some((v4_text(net), dec(n))),
        trimmed(v4_text(net) + "/"@ + dec(n)) == v4_text(net) + "/"@ + dec(n),
        trimmed(v4_text(net)) == v4_text(net),
        trimmed(dec(n)) == dec(n),
{
    reveal_strlit("/");
    assert("/"@ =~= seq!['/']);
    let t = v4_text(net);
    let s = t + "/"@ + dec(n);
    lemma_plain(net[0] as nat, '/');
    lemma_plain(net[1] as nat, '/');
    lemma_plain(net[2] as nat, '/');
    lemma_plain(net[3] as nat, '/');
    assert forall|j: int| 0 <= j < t.len() implies s[j] != '/' by {
        assert(s[j] == t[j]);
        let a = dec(net[0] as nat);
        let b = dec(net[1] as nat);
        let c = dec(net[2] as nat);
        let d = dec(net[3] as nat);
        assert(t == a + seq!['.'] + b + seq!['.'] + c + seq!['.'] + d);
        let la = a.len() as int;
        let lb = b.len() as int;
        let lc = c.len() as int;
        if j < la {
            assert(t[j] == a[j]);
            assert(a.contains(a[j]));
        } else if j == la {
        } else if j < la + 1 + lb {
            assert(t[j] == b[j - la - 1]);
            assert(b.contains(b[j - la - 1]));
        } else if j == la + 1 + lb {
        } else if j < la + lb + lc + 2 {
            assert(t[j] == c[j - la - lb - 2]);
            assert(c.contains(c[j - la - lb - 2]));
        } else if j == la + lb + lc + 2 {
        } else {
            assert(t[j] == d[j - la - lb - lc - 3]);
            assert(d.contains(d[j - la - lb - lc - 3]));
        }
    }
    assert(s[t.len() as int] == '/');
    lemma_find_char(s, '/', t.len() as int);
    assert(s.take(t.len() as int) =~= t);
    assert(s.skip(t.len() as int + 1) =~= dec(n));
    law_number_is_written_by_its_digits(n);
    law_number_is_written_by_its_digits(net[0] as nat);
    law_number_is_written_by_its_digits(net[3] as nat);
    reveal_strlit("0123456789abcdef");
    let p = dec(n);
    let d0 = dec(net[0] as nat);
    let d3 = dec(net[3] as nat);
    assert(s[0] == t[0] && t[0] == d0[0]);
    assert(s.last() == p[p.len() - 1]);
    assert(t.last() == d3[d3.len() - 1]);
    lemma_trimmed(s);
    lemma_trimmed(t);
    lemma_trimmed(p);
}

/// A network, written as an address and the length of a prefix, holds just the addresses that
/// begin with the same bits, as many as the prefix has.
pub proof fn law_network_holds_its_addresses(x: Seq<u8>, net: Seq<u8>, n: nat)
    requires
        x.len() == 4,
        net.len() == 4,
        n <= 32,
    ensures
        in_network(v4_text(x), v4_text(net) + "/"@ + dec(n)) <==> number_of(x) / two_to(
            (32 - n) as nat,
        ) == number_of(net) / two_to((32 - n) as nat),
{
    reveal_strlit("/");
    assert("/"@ =~= seq!['/']);
    lemma_slash(net, n);
    law_v4_text_roundtrip(x);
    law_v4_text_roundtrip(net);
    law_parse_reads_notation(n, 10, 255);
    assert(v4_number(x) == number_of(x));
    assert(v4_number(net) == number_of(net));
    law_mask_keeps_prefix(v4_number(x), v4_number(net), n as u32);
    if n == 0 {
        reveal_with_fuel(two_to, 33);
        assert(two_to(32) == 0x1_0000_0000);
        assert(number_of(x) / 0x1_0000_0000 == 0);
        assert(number_of(net) / 0x1_0000_0000 == 0);
    } else {
        lemma_shift(v4_number(x), (32 - n) as u32);
        lemma_shift(v4_number(net), (32 - n) as u32);
    }
}

/// Capitals have small letters and small letters capitals, each in its place; other
/// characters stay.
pub proof fn law_letters_change_their_case(s: Seq<char>, i: int, k: int)
    requires
        0 <= i < s.len(),
        0 <= k < 26,
    ensures
        lowered(s).len() == s.len(),
        uppered(s).len() == s.len(),
        s[i] == "ABCDEFGHIJKLMNOPQRSTUVWXYZ"@[k] ==> lowered(s)[i] == "abcdefghijklmnopqrstuvwxyz"@[k]
            && uppered(s)[i] == s[i],
        s[i] == "abcdefghijklmnopqrstuvwxyz"@[k] ==> uppered(s)[i] == "ABCDEFGHIJKLMNOPQRSTUVWXYZ"@[k]
            && lowered(s)[i] == s[i],
        !("ABCDEFGHIJKLMNOPQRSTUVWXYZ"@.contains(s[i])) && !(
        "abcdefghijklmnopqrstuvwxyz"@.contains(s[i])) ==> lowered(s)[i] == s[i] && uppered(s)[i]
            == s[i],
{
    reveal_strlit("ABCDEFGHIJKLMNOPQRSTUVWXYZ");
    reveal_strlit("abcdefghijklmnopqrstuvwxyz");
    let c = s[i];
    if 'A' <= c <= 'Z' {
        let j = c as int - 'A' as int;
        assert("ABCDEFGHIJKLMNOPQRSTUVWXYZ"@[j] == c);
    }
    if 'a' <= c <= 'z' {
        let j = c as int - 'a' as int;
        assert("abcdefghijklmnopqrstuvwxyz"@[j] == c);
    }
}

/// An IPv6 address is of a kind by its first two bytes, but for the two addresses of zeros.
pub proof fn law_ipv6_kind_is_in_its_first_bytes(a: Seq<u8>)
    requires
        a.len() == 16,
    ensures
        ({
            let w = a[0] * 256 + a[1];
            let zeros = forall|i: int| 0 <= i < 15 ==> a[i] == 0;
            match ipv6_kind(a) {
                Ipv6AddrType::Unspecified => zeros && a[15] == 0,
                Ipv6AddrType::Loopback => zeros && a[15] == 1,
                Ipv6AddrType::GlobalUnicast => 0x2000 <= w <= 0x3fff,
                Ipv6AddrType::UniqueLocal => 0xfc00 <= w <= 0xfdff,
                Ipv6AddrType::LinkLocal => 0xfe80 <= w <= 0xfebf,
                Ipv6AddrType::Multicast => 0xff00 <= w <= 0xffff,
                Ipv6AddrType::Other => !(zeros && a[15] <= 1) && w < 0xff00 && !(0x2000 <= w
                    <= 0x3fff) && !(0xfc00 <= w <= 0xfdff) && !(0xfe80 <= w <= 0xfebf),
            }
        }),
{
    let zeros = forall|i: int| 0 <= i < 15 ==> a[i] == 0;
    if zeros {
        assert(a[0] == 0 && a[1] == 0);
        if a[15] == 0 {
            assert forall|i: int| 0 <= i < 16 implies a[i] == 0 by {}
        }
    }
}

} // verus!
