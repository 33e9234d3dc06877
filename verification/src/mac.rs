//! Hardware addresses and their notation.
use crate::number::{digit_value, digits_value, hex2, parse_unsigned, parsed, push_hex2};
use crate::text::{
    drop_white, is_white, lemma_find_char, pieces, skip_white, split, trim, trimmed, views,
};
use vstd::prelude::*;

verus! {

/// Why a text is no hardware address.
#[derive(Clone, Copy, Debug, PartialEq, Eq, Structural)]
pub enum MacError {
    /// Fewer than six parts.
    Format,
    /// A part is no hexadecimal byte.
    Hex,
}

/// The notation of the bytes from the `i`-th on.
pub open spec fn mac_tail(m: Seq<u8>, i: int) -> Seq<char>
    decreases m.len() - i,
{
    if i < 0 || i >= m.len() {
        Seq::empty()
    } else if i == m.len() - 1 {
        hex2(m[i])
    } else {
        hex2(m[i]) + seq![':'] + mac_tail(m, i + 1)
    }
}

/// Hexadecimal bytes with colons between them.
pub open spec fn mac_text(m: Seq<u8>) -> Seq<char> {
    mac_tail(m, 0)
}

/// Writes a hardware address.
pub fn to_string(mac: &[u8; 6]) -> (r: String)
    ensures
        r@ == mac_text(mac@),
{
    let mut r = String::new();
    let mut i: usize = 0;
    while i < 6
        invariant
            i <= 6,
            mac_text(mac@) == r@ + (if 0 < i < 6 {
                seq![':']
            } else {
                Seq::empty()
            }) + mac_tail(mac@, i as int),
        decreases 6 - i,
    {
        let ghost before = r@;
        let ghost tail = mac_tail(mac@, i + 1);
        if i > 0 {
            r.push(':');
        }
        push_hex2(&mut r, mac[i]);
        assert(mac_text(mac@) =~= r@ + (if i + 1 < 6 {
            seq![':']
        } else {
            Seq::empty()
        }) + tail);
        i += 1;
    }
    assert(r@ + Seq::<char>::empty() + Seq::<char>::empty() =~= r@);
    r
}

/// The byte that a part of an address names.
pub open spec fn mac_part(p: Seq<char>) -> Option<int> {
    parsed(trimmed(p), 16, 255)
}

/// The address that a text names: six parts with colons between them, each a
/// hexadecimal byte that white space may surround.
pub open spec fn parsed_mac(s: Seq<char>) -> Option<Seq<u8>> {
    let p = pieces(s, ':');
    if p.len() == 6 && forall|i: int| 0 <= i < 6 ==> mac_part(#[trigger] p[i]) is Some {
        Some(Seq::new(6, |i: int| mac_part(p[i])->0 as u8))
    } else {
        None
    }
}

/// Reads a hardware address.
pub fn from_str(s: &str) -> (r: Result<[u8; 6], MacError>)
    ensures
        match r {
            Ok(m) => parsed_mac(s@) == Some(m@),
            Err(MacError::Format) => pieces(s@, ':').len() < 6 && parsed_mac(s@) is None,
            Err(MacError::Hex) => pieces(s@, ':').len() >= 6 && parsed_mac(s@) is None,
        },
{
    let parts = split(s, ':');
    let ghost p = pieces(s@, ':');
    assert(p.len() == parts@.len());
    if parts.len() < 6 {
        return Err(MacError::Format);
    }
    if parts.len() > 6 {
        return Err(MacError::Hex);
    }
    let mut mac: [u8; 6] = [0, 0, 0, 0, 0, 0];
    let mut i: usize = 0;
    while i < 6
        invariant
            i <= 6,
            parts@.len() == 6,
            p == views(parts@),
            p == pieces(s@, ':'),
            forall|j: int| 0 <= j < i ==> mac_part(#[trigger] p[j]) == Some(mac@[j] as int),
        decreases 6 - i,
    {
        assert(p[i as int] == parts@[i as int]@);
        match parse_unsigned(trim(parts[i].as_str()).as_str(), 16, 255) {
            Some(v) => {
                mac[i] = v as u8;
            },
            None => {
                assert(mac_part(p[i as int]) is None);
                return Err(MacError::Hex);
            },
        }
        i += 1;
    }
    assert(mac@ =~= Seq::new(6, |i: int| mac_part(p[i])->0 as u8));
    Ok(mac)
}

pub(crate) proof fn lemma_hex2(b: u8)
    ensures
        mac_part(hex2(b)) == Some(b as int),
        parsed(hex2(b), 16, 255) == Some(b as int),
        hex2(b).len() == 2,
        hex2(b)[0] != ':',
        hex2(b)[1] != ':',
{
    let s = hex2(b);
    let hi = b as int / 16;
    let lo = b as int % 16;
    assert(!is_white(s[0]) && !is_white(s[1]));
    assert(skip_white(s) == s);
    assert(drop_white(s) == s);
    assert(s[0] != '+');
    assert(digit_value(s[0], 16) == Some(hi));
    assert(digit_value(s[1], 16) == Some(lo));
    let t = s.drop_last();
    assert(t.last() == s[0]);
    assert(t.drop_last() =~= Seq::<char>::empty());
    assert(digits_value(t.drop_last(), 16) == Some(0int));
    assert(digits_value(t, 16) == Some(hi));
    assert(digits_value(s, 16) == Some(hi * 16 + lo));
}

proof fn lemma_mac_pieces(m: Seq<u8>, i: int)
    requires
        0 <= i < m.len(),
    ensures
        pieces(mac_tail(m, i), ':').len() == m.len() - i,
        forall|k: int|
            0 <= k < m.len() - i ==> #[trigger] pieces(mac_tail(m, i), ':')[k] == hex2(m[i + k]),
    decreases m.len() - i,
{
    let s = mac_tail(m, i);
    lemma_hex2(m[i]);
    if i == m.len() - 1 {
        lemma_find_char(s, ':', 2);
    } else {
        lemma_find_char(s, ':', 2);
        lemma_mac_pieces(m, i + 1);
        assert(s.take(2) =~= hex2(m[i]));
        assert(s.skip(3) =~= mac_tail(m, i + 1));
        let rest = pieces(mac_tail(m, i + 1), ':');
        assert(pieces(s, ':') == seq![hex2(m[i])] + rest);
        assert forall|k: int| 0 <= k < m.len() - i implies #[trigger] pieces(s, ':')[k] == hex2(
            m[i + k],
        ) by {
            if k > 0 {
                assert(rest[k - 1] == hex2(m[i + 1 + (k - 1)]));
            }
        }
    }
}

/// Reading the notation of an address gives the address back.
pub proof fn law_mac_roundtrip(m: Seq<u8>)
    requires
        m.len() == 6,
    ensures
        parsed_mac(mac_text(m)) == Some(m),
{
    lemma_mac_pieces(m, 0);
    let p = pieces(mac_text(m), ':');
    assert forall|i: int| 0 <= i < 6 implies mac_part(#[trigger] p[i]) == Some(m[i] as int) by {
        lemma_hex2(m[i]);
        assert(p[i] == hex2(m[0 + i]));
    }
    assert(Seq::new(6, |i: int| mac_part(p[i])->0 as u8) =~= m);
}

/// Whether an address stands for no single device: all zeros, or a group address
/// (broadcast among them).
pub open spec fn special_mac(m: Seq<u8>) -> bool {
    m[0] % 2 == 1 || m == seq![0u8, 0u8, 0u8, 0u8, 0u8, 0u8]
}

/// Whether an address stands for no single device.
pub fn is_special_mac_address(mac: &[u8; 6]) -> (r: bool)
    ensures
        r == special_mac(mac@),
{
    let zero = mac[0] == 0 && mac[1] == 0 && mac[2] == 0 && mac[3] == 0 && mac[4] == 0 && mac[5]
        == 0;
    assert(zero ==> mac@ =~= seq![0u8, 0u8, 0u8, 0u8, 0u8, 0u8]);
    mac[0] % 2 == 1 || zero
}

} // verus!
