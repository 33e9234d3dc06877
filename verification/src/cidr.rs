//! IPv4 networks, and the words of addresses.
use crate::ip::{parse_ip_text, parse_ipv4_text, parsed_ip, parsed_v4, IpAddr};
use crate::number::{parse_unsigned, parsed};
use crate::text::{cut, split_once, trim, trimmed};
use vstd::prelude::*;

verus! {

/// Four bytes as a number, the first one the highest.
pub open spec fn word(a: u8, b: u8, c: u8, d: u8) -> u32 {
    (a * 0x100_0000 + b * 0x1_0000 + c * 0x100 + d) as u32
}

fn word_of(a: u8, b: u8, c: u8, d: u8) -> (r: u32)
    ensures
        r == word(a, b, c, d),
{
    a as u32 * 0x100_0000 + b as u32 * 0x1_0000 + c as u32 * 0x100 + d as u32
}

/// An IPv4 address as a number.
pub open spec fn v4_number(a: Seq<u8>) -> u32 {
    word(a[0], a[1], a[2], a[3])
}

/// The four words of an IPv6 address.
pub open spec fn v6_words(a: Seq<u8>) -> Seq<u32> {
    Seq::new(4, |i: int| word(a[4 * i], a[4 * i + 1], a[4 * i + 2], a[4 * i + 3]))
}

/// An IPv4 address as a number.
pub fn ipv4_number(a: &[u8; 4]) -> (r: u32)
    ensures
        r == v4_number(a@),
{
    word_of(a[0], a[1], a[2], a[3])
}

/// The four words of an IPv6 address.
pub fn ipv6_words(a: &[u8; 16]) -> (r: [u32; 4])
    ensures
        r@ == v6_words(a@),
{
    let r = [
        word_of(a[0], a[1], a[2], a[3]),
        word_of(a[4], a[5], a[6], a[7]),
        word_of(a[8], a[9], a[10], a[11]),
        word_of(a[12], a[13], a[14], a[15]),
    ];
    assert(r@ =~= v6_words(a@));
    r
}

/// The mask of the first `prefix` bits.
pub open spec fn prefix_mask(prefix: int) -> u32 {
    if prefix <= 0 {
        0
    } else {
        u32::MAX << ((32 - prefix) as u32)
    }
}

fn mask_of(prefix: u32) -> (r: u32)
    requires
        prefix <= 32,
    ensures
        r == prefix_mask(prefix as int),
{
    if prefix == 0 {
        0
    } else {
        u32::MAX << (32 - prefix)
    }
}

/// A network in the notation of an address, a slash and a length.
pub open spec fn cidr_parts(cidr: Seq<char>) -> Option<(u32, u32)> {
    match cut(trimmed(cidr), '/') {
        Some((a, p)) => match (parsed_v4(trimmed(a)), parsed(trimmed(p), 10, u32::MAX as int)) {
            (Some(ip), Some(n)) => if n <= 32 {
                Some((v4_number(ip) & prefix_mask(n), prefix_mask(n)))
            } else {
                None
            },
            _ => None,
        },
        None => None,
    }
}

/// The network and the mask of an IPv4 network, as numbers.
pub fn parse_cidr_to_u32(cidr: &str) -> (r: Option<(u32, u32)>)
    ensures
        r == cidr_parts(cidr@),
{
    let (ip_text, prefix_text) = match split_once(trim(cidr).as_str(), '/') {
        Some(p) => p,
        None => {
            return None;
        },
    };
    let ip = match parse_ipv4_text(trim(ip_text.as_str()).as_str()) {
        Some(ip) => ip,
        None => {
            return None;
        },
    };
    let prefix = match parse_unsigned(trim(prefix_text.as_str()).as_str(), 10, u32::MAX as u64) {
        Some(n) => n,
        None => {
            return None;
        },
    };
    if prefix > 32 {
        return None;
    }
    let mask = mask_of(prefix as u32);
    Some((ipv4_number(&ip) & mask, mask))
}

/// Whether an IPv4 address lies in a network. No white space is allowed here.
pub open spec fn in_network(ip: Seq<char>, cidr: Seq<char>) -> bool {
    match cut(cidr, '/') {
        Some((a, p)) => match (parsed_v4(ip), parsed_v4(a), parsed(p, 10, 255)) {
            (Some(x), Some(net), Some(n)) => n <= 32 && v4_number(x) & prefix_mask(n) == v4_number(
                net,
            ) & prefix_mask(n),
            _ => false,
        },
        None => false,
    }
}

/// Whether an IPv4 address lies in a network.
pub fn ipv4_in_cidr(ip: &str, cidr: &str) -> (r: bool)
    ensures
        r == in_network(ip@, cidr@),
{
    match split_once(cidr, '/') {
        Some((net_text, prefix_text)) => {
            match (
                parse_ipv4_text(ip),
                parse_ipv4_text(net_text.as_str()),
                parse_unsigned(prefix_text.as_str(), 10, 255),
            ) {
                (Some(x), Some(net), Some(n)) => {
                    if n <= 32 {
                        let mask = mask_of(n as u32);
                        ipv4_number(&x) & mask == ipv4_number(&net) & mask
                    } else {
                        false
                    }
                },
                _ => false,
            }
        },
        None => false,
    }
}

/// The address before a scope and before a prefix length.
pub open spec fn bare_address(s: Seq<char>) -> Seq<char> {
    let a = match cut(s, '%') {
        Some((a, _)) => a,
        None => s,
    };
    match cut(a, '/') {
        Some((b, _)) => b,
        None => a,
    }
}

/// The key under which offloaded traffic of an IPv4 address is counted.
pub open spec fn v4_key(s: Seq<char>) -> Option<(Seq<u32>, u8)> {
    match parsed_v4(s) {
        Some(a) => Some((seq![v4_number(a), 0, 0, 0], 4)),
        None => None,
    }
}

/// The key under which offloaded traffic of an IPv6 address is counted.
pub open spec fn v6_key(s: Seq<char>) -> Option<(Seq<u32>, u8)> {
    match parsed_ip(bare_address(s)) {
        Some(a) => if a.len() == 16 {
            Some((v6_words(a), 6))
        } else {
            None
        },
        None => None,
    }
}

/// The key of an IPv4 address.
pub fn ipv4_key(s: &str) -> (r: Option<([u32; 4], u8)>)
    ensures
        match r {
            Some(k) => v4_key(s@) == Some((k.0@, k.1)),
            None => v4_key(s@) is None,
        },
{
    match parse_ipv4_text(s) {
        Some(a) => {
            let k: [u32; 4] = [ipv4_number(&a), 0, 0, 0];
            assert(k@ =~= seq![v4_number(a@), 0, 0, 0]);
            Some((k, 4))
        },
        None => None,
    }
}

/// The key of an IPv6 address.
pub fn ipv6_key(s: &str) -> (r: Option<([u32; 4], u8)>)
    ensures
        match r {
            Some(k) => v6_key(s@) == Some((k.0@, k.1)),
            None => v6_key(s@) is None,
        },
{
    let clean = match split_once(s, '%') {
        Some((a, _)) => a,
        None => crate::text::copy_text(s),
    };
    let clean = match split_once(clean.as_str(), '/') {
        Some((a, _)) => a,
        None => clean,
    };
    match parse_ip_text(clean.as_str()) {
        Some(IpAddr::V6(a)) => Some((ipv6_words(&a), 6)),
        _ => None,
    }
}

/// Two addresses lie in one network just if their first bits are the same, as many as
/// the prefix says.
pub proof fn law_mask_keeps_prefix(a: u32, b: u32, prefix: u32)
    requires
        prefix <= 32,
    ensures
        (a & prefix_mask(prefix as int) == b & prefix_mask(prefix as int)) == (prefix == 0 || a
            >> ((32 - prefix) as u32) == b >> ((32 - prefix) as u32)),
{
    if prefix == 0 {
        assert(a & 0 == 0 && b & 0 == 0) by (bit_vector);
    } else {
        let k = (32 - prefix) as u32;
        assert(((a & (0xffff_ffffu32 << k)) == (b & (0xffff_ffffu32 << k))) == ((a >> k) == (b
            >> k))) by (bit_vector)
            requires
                k < 32,
        ;
    }
}

} // verus!
