//! Where the numbers stand in stored hours and in captured packets.
use crate::bucket::AggregatedBucket;
use crate::capture::header_reads;
use crate::dnsstore::{identity, owners, owns};
use crate::hours::{hour_avg, hour_bytes, hour_max, hour_min, hour_p95, hour_sum, Lane};
use crate::keys::DnsPacketHeader;
use crate::mac::mac_text;
use crate::netlink::num32;
use crate::ring::{
    checksum, header_bytes, header_of, law_header_roundtrip, law_record_roundtrip, le_value,
    number_at, record_bytes, record_of, ring_magic, word_at, RingError, RingHeader,
};
use crate::runtime::KnownModel;
use crate::topology::{find_index, InterfaceModel};
use vstd::prelude::*;

verus! {

/// The number of a lane among the four.
pub open spec fn lane_number(lane: Lane) -> int {
    match lane {
        Lane::UpV4 => 0,
        Lane::DownV4 => 1,
        Lane::UpV6 => 2,
        Lane::DownV6 => 3,
    }
}

/// Four bytes as a number, the first one the least significant.
pub open spec fn four_le(d: Seq<u8>, at: int) -> int {
    d[at] + 0x100 * d[at + 1] + 0x1_0000 * d[at + 2] + 0x100_0000 * d[at + 3]
}

/// Eight bytes as a number, the first one the least significant.
pub open spec fn eight_le(d: Seq<u8>, at: int) -> int {
    four_le(d, at) + 0x1_0000_0000 * four_le(d, at + 4)
}

proof fn lemma_le_step(s: Seq<u8>)
    requires
        s.len() > 0,
    ensures
        le_value(s) == s[0] as nat + 256 * le_value(s.drop_first()),
{
}

proof fn lemma_four(d: Seq<u8>, at: int)
    requires
        0 <= at,
        at + 4 <= d.len(),
    ensures
        le_value(d.subrange(at, at + 4)) == four_le(d, at),
        word_at(d, at) == four_le(d, at),
{
    let s = d.subrange(at, at + 4);
    let s1 = s.drop_first();
    let s2 = s1.drop_first();
    let s3 = s2.drop_first();
    let s4 = s3.drop_first();
    lemma_le_step(s);
    lemma_le_step(s1);
    lemma_le_step(s2);
    lemma_le_step(s3);
    assert(s4.len() == 0);
    assert(le_value(s4) == 0);
    assert(s[0] == d[at] && s1[0] == d[at + 1] && s2[0] == d[at + 2] && s3[0] == d[at + 3]);
}

proof fn lemma_eight(d: Seq<u8>, i: int)
    requires
        0 <= i,
        8 * i + 8 <= d.len(),
    ensures
        number_at(d, i) == eight_le(d, 8 * i),
{
    let at = 8 * i;
    let s = d.subrange(at, at + 8);
    let s1 = s.drop_first();
    let s2 = s1.drop_first();
    let s3 = s2.drop_first();
    let s4 = s3.drop_first();
    lemma_le_step(s);
    lemma_le_step(s1);
    lemma_le_step(s2);
    lemma_le_step(s3);
    assert(s4 =~= d.subrange(at + 4, at + 4 + 4));
    lemma_four(d, at + 4);
    assert(s[0] == d[at] && s1[0] == d[at + 1] && s2[0] == d[at + 2] && s3[0] == d[at + 3]);
}

/// A stored hour is 220 bytes: its start, its end and the number of its samples; the bytes of
/// the four lanes; for each lane the sum, the greatest, the least, the average and the 95th
/// percentile of its rates; and a checksum. Each number but the checksum takes eight bytes.
pub proof fn law_stored_hour_has_its_places(b: AggregatedBucket, lane: Lane)
    ensures
        ({
            let d = record_bytes(b);
            let k = lane_number(lane);
            &&& d.len() == 220
            &&& eight_le(d, 0) == b.start_ts_ms
            &&& eight_le(d, 8) == b.end_ts_ms
            &&& eight_le(d, 16) == b.sample_count
            &&& eight_le(d, 24 + 8 * k) == hour_bytes(b, lane)
            &&& eight_le(d, 56 + 40 * k) == hour_sum(b, lane)
            &&& eight_le(d, 64 + 40 * k) == hour_max(b, lane)
            &&& eight_le(d, 72 + 40 * k) == hour_min(b, lane)
            &&& eight_le(d, 80 + 40 * k) == hour_avg(b, lane)
            &&& eight_le(d, 88 + 40 * k) == hour_p95(b, lane)
            &&& four_le(d, 216) == checksum(d.take(216))
        }),
{
    let d = record_bytes(b);
    let k = lane_number(lane);
    law_record_roundtrip(b);
    assert(d.len() == 220);
    lemma_eight(d, 0);
    lemma_eight(d, 1);
    lemma_eight(d, 2);
    lemma_eight(d, 3 + k);
    lemma_eight(d, 7 + 5 * k);
    lemma_eight(d, 8 + 5 * k);
    lemma_eight(d, 9 + 5 * k);
    lemma_eight(d, 10 + 5 * k);
    lemma_eight(d, 11 + 5 * k);
    lemma_four(d, 216);
}

/// An hour of the first version is 180 bytes, with no number of samples and no sums: it counts as
/// one sample, whose sum is its average.
pub proof fn law_old_hour_is_read(d: Seq<u8>, lane: Lane)
    ensures
        ({
            let k = lane_number(lane);
            record_of(d, 1) matches Ok(b) ==> {
                &&& d.len() == 180
                &&& b.start_ts_ms == eight_le(d, 0)
                &&& b.end_ts_ms == eight_le(d, 8)
                &&& b.sample_count == 1
                &&& hour_bytes(b, lane) == eight_le(d, 16 + 8 * k)
                &&& hour_avg(b, lane) == eight_le(d, 48 + 32 * k)
                &&& hour_sum(b, lane) == hour_avg(b, lane)
                &&& hour_max(b, lane) == eight_le(d, 56 + 32 * k)
                &&& hour_min(b, lane) == eight_le(d, 64 + 32 * k)
                &&& hour_p95(b, lane) == eight_le(d, 72 + 32 * k)
                &&& four_le(d, 176) == checksum(d.take(176))
            }
        }),
{
    let k = lane_number(lane);
    if record_of(d, 1) is Ok {
        lemma_eight(d, 0);
        lemma_eight(d, 1);
        lemma_eight(d, 2 + k);
        lemma_eight(d, 6 + 4 * k);
        lemma_eight(d, 7 + 4 * k);
        lemma_eight(d, 8 + 4 * k);
        lemma_eight(d, 9 + 4 * k);
        lemma_four(d, 176);
    }
}

/// A file of hours begins with its mark, its version, the number of its places, the place that is
/// written next, how many are filled and the size of each, and a checksum over these.
pub proof fn law_file_has_its_header(h: RingHeader, rest: Seq<u8>)
    requires
        h.valid(),
    ensures
        ({
            let d = header_bytes(h) + rest;
            &&& header_of(d) == Ok::<RingHeader, RingError>(h)
            &&& forall|i: int| 0 <= i < 8 ==> d[i] as int == #[trigger] "BDXPRNG1"@[i] as int
            &&& four_le(d, 8) == h.version
            &&& four_le(d, 12) == h.slot_count
            &&& four_le(d, 16) == h.write_pos
            &&& four_le(d, 20) == h.valid_count
            &&& four_le(d, 24) == h.record_size
            &&& four_le(d, 28) == checksum(d.take(28))
        }),
{
    reveal_strlit("BDXPRNG1");
    let d = header_bytes(h) + rest;
    law_header_roundtrip(h, rest);
    assert(d.take(8) == ring_magic());
    assert forall|i: int| 0 <= i < 8 implies d[i] as int == #[trigger] "BDXPRNG1"@[i] as int by {
        assert(d[i] == d.take(8)[i]);
    }
    lemma_four(d, 8);
    lemma_four(d, 12);
    lemma_four(d, 16);
    lemma_four(d, 20);
    lemma_four(d, 24);
    lemma_four(d, 28);
}

/// The checksum begins with a fixed number, and each byte is mixed in by an exclusive or and a
/// multiplication.
pub proof fn law_checksum_mixes_in_each_byte(s: Seq<u8>, b: u8)
    ensures
        checksum(Seq::<u8>::empty()) == 2_166_136_261,
        checksum(s.push(b)) == ((checksum(s) ^ (b as u32)) * 16_777_619) % 0x1_0000_0000,
{
    assert(s.push(b).drop_last() =~= s);
}

/// Two bytes of a header as a number in a byte order.
pub open spec fn two_of(d: Seq<u8>, at: int, big: bool) -> int {
    if big {
        0x100 * d[at] + d[at + 1]
    } else {
        d[at] + 0x100 * d[at + 1]
    }
}

/// Four bytes of a header as a number in a byte order.
pub open spec fn four_of(d: Seq<u8>, at: int, big: bool) -> int {
    if big {
        0x1_0000 * two_of(d, at, big) + two_of(d, at + 2, big)
    } else {
        two_of(d, at, big) + 0x1_0000 * two_of(d, at + 2, big)
    }
}

/// The header of a captured packet holds its time in eight bytes, its interface and its length in
/// four each, where its IP header begins in two, and then one byte each for the version and the
/// direction, the hardware address and whether there is one.
pub proof fn law_captured_header_is_read(h: DnsPacketHeader, d: Seq<u8>, big: bool)
    requires
        d.len() >= 32,
        header_reads(h, d, big),
    ensures
        h.timestamp_ns == (if big {
            0x1_0000_0000 * four_of(d, 0, big) + four_of(d, 4, big)
        } else {
            four_of(d, 0, big) + 0x1_0000_0000 * four_of(d, 4, big)
        }),
        h.ifindex == four_of(d, 8, big),
        h.captured_len == four_of(d, 12, big),
        h.ip_offset == two_of(d, 16, big),
        h.ip_version == d[18],
        h.direction == d[19],
        forall|i: int| 0 <= i < 6 ==> #[trigger] h.mac@[i] == d[20 + i],
        h.has_mac == d[26],
{
    assert forall|i: int| 0 <= i < 6 implies #[trigger] h.mac@[i] == d[20 + i] by {
        assert(d.subrange(20, 26)[i] == d[20 + i]);
    }
    assert(num32(d, 0, big) == four_of(d, 0, big));
    assert(num32(d, 4, big) == four_of(d, 4, big));
}

/// Whether a device is the only one of a list with an address.
pub open spec fn only_owner(all: Seq<KnownModel>, ip: Seq<char>, i: int) -> bool {
    &&& 0 <= i < all.len()
    &&& all[i].ipv4.contains(ip) || all[i].ipv6.contains(ip)
    &&& forall|j: int|
        0 <= j < all.len() && j != i ==> !(#[trigger] all[j]).ipv4.contains(ip)
            && !all[j].ipv6.contains(ip)
}

proof fn lemma_no_owner(all: Seq<KnownModel>, ip: Seq<char>)
    requires
        forall|j: int| 0 <= j < all.len() ==> !owns(#[trigger] all[j], ip),
    ensures
        owners(all, ip).len() == 0,
    decreases all.len(),
{
    if all.len() > 0 {
        let front = all.drop_last();
        assert forall|j: int| 0 <= j < front.len() implies !owns(#[trigger] front[j], ip) by {
            assert(front[j] == all[j]);
        }
        assert(!owns(all[all.len() - 1], ip));
        lemma_no_owner(front, ip);
    }
}

proof fn lemma_only_owner(all: Seq<KnownModel>, ip: Seq<char>, i: int)
    requires
        only_owner(all, ip, i),
    ensures
        owners(all, ip) == seq![all[i]],
    decreases all.len(),
{
    let front = all.drop_last();
    let n = all.len() - 1;
    assert(all.last() == all[n]);
    if i < n {
        assert(front[i] == all[i]);
        assert forall|j: int| 0 <= j < front.len() && j != i implies !(
        #[trigger] front[j]).ipv4.contains(ip) && !front[j].ipv6.contains(ip) by {
            assert(front[j] == all[j]);
        }
        lemma_only_owner(front, ip, i);
        assert(!all[n].ipv4.contains(ip) && !all[n].ipv6.contains(ip));
    } else {
        assert forall|j: int| 0 <= j < front.len() implies !owns(#[trigger] front[j], ip) by {
            assert(front[j] == all[j]);
        }
        lemma_no_owner(front, ip);
        assert(owners(all, ip) =~= seq![all[i]]);
    }
}

/// A query is put down to the device with its hardware address, if that one has the address that
/// asks or none that is known; else to the only device with that address. Of a device that is not
/// known, the hardware address and the interface of the capture are told.
pub proof fn law_query_is_put_down_to_its_device(
    known: Map<(u32, Seq<u8>), KnownModel>,
    all: Seq<KnownModel>,
    topology: Seq<InterfaceModel>,
    ifindex: u32,
    mac: Option<Seq<u8>>,
    ip: Seq<char>,
    i: int,
)
    ensures
        ({
            let who = identity(known, all, topology, ifindex, mac, ip);
            let told = mac is Some && known.dom().contains((ifindex, mac->0));
            let d = known[(ifindex, mac->0)];
            let fits = d.ipv4.contains(ip) || d.ipv6.contains(ip) || (d.ipv4.len() == 0
                && d.ipv6.len() == 0);
            &&& told && fits ==> who == (mac_text(d.mac), d.hostname, d.logical_iface)
            &&& !(told && fits) && only_owner(all, ip, i) ==> who == (
                mac_text(all[i].mac),
                all[i].hostname,
                all[i].logical_iface,
            )
            &&& !told && (forall|j: int|
                0 <= j < all.len() ==> !(#[trigger] all[j]).ipv4.contains(ip)
                    && !all[j].ipv6.contains(ip)) ==> {
                &&& mac matches Some(m) ==> who.0 == mac_text(m)
                &&& mac is None ==> who.0.len() == 0
                &&& who.1.len() == 0
                &&& find_index(topology, ifindex) matches Some(x) ==> who.2 == x.name
            }
        }),
{
    if only_owner(all, ip, i) {
        lemma_only_owner(all, ip, i);
    }
    if forall|j: int|
        0 <= j < all.len() ==> !(#[trigger] all[j]).ipv4.contains(ip) && !all[j].ipv6.contains(ip) {
        assert forall|j: int| 0 <= j < all.len() implies !owns(#[trigger] all[j], ip) by {
            assert(!all[j].ipv4.contains(ip));
        }
        lemma_no_owner(all, ip);
    }
}

} // verus!
