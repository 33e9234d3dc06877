//! The ring file: a header and a fixed number of slots, of which the newest
//! records fill as many as there are.
use crate::bucket::AggregatedBucket;
use vstd::prelude::*;
use vstd::slice::slice_subrange;

verus! {

pub const RING_VERSION: u32 = 2;
pub const RING_V1_RECORD_SIZE: usize = 180;
pub const RING_HEADER_SIZE: usize = 64;
pub const RING_RECORD_DATA_SIZE: usize = 216;
pub const RING_RECORD_SIZE: usize = 220;

/// The first bytes of every ring file.
pub open spec fn ring_magic() -> Seq<u8> {
    seq![66u8, 68u8, 88u8, 80u8, 82u8, 78u8, 71u8, 49u8]
}

/// What is wrong with a ring.
#[derive(Clone, Copy, Debug, PartialEq, Eq, Structural)]
pub enum RingError {
    Short,
    Magic,
    Version(u32),
    HeaderChecksum,
    Values,
    Positions,
    Shape { write_pos: u32, valid_count: u32 },
    Size,
    RecordLength,
    RecordChecksum,
    Capacity,
}

#[derive(Clone, Copy, Debug, PartialEq, Eq, Structural)]
pub struct RingHeader {
    pub version: u32,
    pub slot_count: u32,
    pub write_pos: u32,
    pub valid_count: u32,
    pub record_size: u32,
}

/// The `k` bytes of a number, the least significant one first.
pub open spec fn le_bytes(n: nat, k: nat) -> Seq<u8>
    decreases k,
{
    if k == 0 {
        Seq::empty()
    } else {
        seq![(n % 256) as u8] + le_bytes(n / 256, (k - 1) as nat)
    }
}

/// The number of a run of bytes, the least significant one first.
pub open spec fn le_value(s: Seq<u8>) -> nat
    decreases s.len(),
{
    if s.len() == 0 {
        0
    } else {
        s[0] as nat + 256 * le_value(s.drop_first())
    }
}

/// The first number that `k` bytes cannot hold.
pub open spec fn byte_range(k: nat) -> nat
    decreases k,
{
    if k == 0 {
        1
    } else {
        256 * byte_range((k - 1) as nat)
    }
}

/// Reading the bytes of a number gives the number back.
pub proof fn law_le_roundtrip(n: nat, k: nat)
    requires
        n < byte_range(k),
    ensures
        le_bytes(n, k).len() == k,
        le_value(le_bytes(n, k)) == n,
    decreases k,
{
    if k > 0 {
        law_le_roundtrip(n / 256, (k - 1) as nat);
        assert(le_bytes(n, k).drop_first() =~= le_bytes(n / 256, (k - 1) as nat));
    }
}

proof fn lemma_le_len(n: nat, k: nat)
    ensures
        le_bytes(n, k).len() == k,
    decreases k,
{
    if k > 0 {
        lemma_le_len(n / 256, (k - 1) as nat);
    }
}

proof fn lemma_ranges()
    ensures
        byte_range(4) == 0x1_0000_0000,
        byte_range(8) == 0x1_0000_0000_0000_0000,
{
    reveal_with_fuel(byte_range, 9);
}

fn push_le(out: &mut Vec<u8>, n: u64, k: usize)
    ensures
        final(out)@ == old(out)@ + le_bytes(n as nat, k as nat),
{
    let ghost start = out@;
    let mut rest: u64 = n;
    let mut i: usize = 0;
    assert(start + le_bytes(n as nat, k as nat) =~= out@ + le_bytes(n as nat, k as nat));
    while i < k
        invariant
            i <= k,
            start + le_bytes(n as nat, k as nat) == out@ + le_bytes(rest as nat, (k - i) as nat),
        decreases k - i,
    {
        let ghost before = out@;
        let b: u8 = (rest % 256) as u8;
        out.push(b);
        assert(before + (seq![b] + le_bytes((rest / 256) as nat, (k - i - 1) as nat)) =~= out@
            + le_bytes((rest / 256) as nat, (k - i - 1) as nat));
        rest = rest / 256;
        i += 1;
    }
    assert(out@ + Seq::<u8>::empty() =~= out@);
}

fn le_at(data: &[u8], at: usize, k: usize) -> (r: u64)
    requires
        at + k <= data@.len(),
        k <= 8,
    ensures
        r == le_value(data@.subrange(at as int, at + k)),
        r < byte_range(k as nat),
    decreases k,
{
    proof {
        lemma_ranges();
    }
    if k == 0 {
        return 0;
    }
    assert(at + 1 <= data.len());
    let rest: u64 = le_at(data, at + 1, k - 1);
    assert(data@.subrange(at as int, at + k).drop_first() =~= data@.subrange(at + 1, at + k));
    proof {
        lemma_range_grows((k - 1) as nat, 7);
        reveal_with_fuel(byte_range, 8);
    }
    data[at] as u64 + 256 * rest
}

proof fn lemma_range_grows(a: nat, b: nat)
    requires
        a <= b,
    ensures
        byte_range(a) <= byte_range(b),
    decreases b - a,
{
    if a < b {
        lemma_range_grows(a + 1, b);
    }
}

/// The 32-bit checksum of a run of bytes (FNV-1a).
pub open spec fn checksum(s: Seq<u8>) -> u32
    decreases s.len(),
{
    if s.len() == 0 {
        0x811c9dc5
    } else {
        (checksum(s.drop_last()) ^ (s.last() as u32)).wrapping_mul(0x01000193)
    }
}

/// The 32-bit checksum of a run of bytes.
pub fn checksum32(data: &[u8]) -> (r: u32)
    ensures
        r == checksum(data@),
{
    let mut hash: u32 = 0x811c9dc5;
    let mut i: usize = 0;
    assert(data@.take(0) =~= Seq::<u8>::empty());
    while i < data.len()
        invariant
            i <= data@.len(),
            hash == checksum(data@.take(i as int)),
        decreases data@.len() - i,
    {
        assert(data@.take(i + 1).drop_last() =~= data@.take(i as int));
        hash = (hash ^ (data[i] as u32)).wrapping_mul(0x01000193);
        i += 1;
    }
    assert(data@.take(i as int) =~= data@);
    hash
}

/// The size of a record in a version of the format.
pub open spec fn record_size_of(version: u32) -> int {
    if version == 1 {
        RING_V1_RECORD_SIZE as int
    } else {
        RING_RECORD_SIZE as int
    }
}

impl RingHeader {
    /// The values are ones that a ring can have.
    pub open spec fn valid(self) -> bool {
        &&& self.version == 1 || self.version == RING_VERSION
        &&& self.slot_count > 0
        &&& self.record_size == record_size_of(self.version)
        &&& self.write_pos < self.slot_count
        &&& self.valid_count <= self.slot_count
    }
}

/// The header's fields as bytes.
pub open spec fn header_fields(h: RingHeader) -> Seq<u8> {
    ring_magic() + le_bytes(h.version as nat, 4) + le_bytes(h.slot_count as nat, 4) + le_bytes(
        h.write_pos as nat,
        4,
    ) + le_bytes(h.valid_count as nat, 4) + le_bytes(h.record_size as nat, 4)
}

/// The header as it stands in a file.
pub open spec fn header_bytes(h: RingHeader) -> Seq<u8> {
    header_fields(h) + le_bytes(checksum(header_fields(h)) as nat, 4) + Seq::new(32, |i: int| 0u8)
}

/// The number of four bytes at a place.
pub open spec fn word_at(s: Seq<u8>, i: int) -> u32 {
    le_value(s.subrange(i, i + 4)) as u32
}

/// What the header of a file says.
pub open spec fn header_of(img: Seq<u8>) -> Result<RingHeader, RingError> {
    let h = RingHeader {
        version: word_at(img, 8),
        slot_count: word_at(img, 12),
        write_pos: word_at(img, 16),
        valid_count: word_at(img, 20),
        record_size: word_at(img, 24),
    };
    if img.len() < RING_HEADER_SIZE {
        Err(RingError::Short)
    } else if img.take(8) != ring_magic() {
        Err(RingError::Magic)
    } else if h.version != 1 && h.version != RING_VERSION {
        Err(RingError::Version(h.version))
    } else if word_at(img, 28) != checksum(img.take(28)) {
        Err(RingError::HeaderChecksum)
    } else if h.slot_count == 0 || h.record_size != record_size_of(h.version) {
        Err(RingError::Values)
    } else if h.write_pos >= h.slot_count || h.valid_count > h.slot_count {
        Err(RingError::Positions)
    } else {
        Ok(h)
    }
}

/// The header of a new ring.
pub open spec fn new_header(slot_count: u32) -> RingHeader {
    RingHeader {
        version: RING_VERSION,
        slot_count,
        write_pos: 0,
        valid_count: 0,
        record_size: RING_RECORD_SIZE as u32,
    }
}

/// The header of a new ring.
pub fn default_ring_header(slot_count: u32) -> (r: RingHeader)
    ensures
        r == new_header(slot_count),
{
    RingHeader {
        version: RING_VERSION,
        slot_count,
        write_pos: 0,
        valid_count: 0,
        record_size: RING_RECORD_SIZE as u32,
    }
}

/// The header as it is written to a file.
pub fn write_ring_header(header: &RingHeader) -> (r: Vec<u8>)
    ensures
        r@ == header_bytes(*header),
        r@.len() == RING_HEADER_SIZE,
{
    let mut buf: Vec<u8> = vec![66u8, 68u8, 88u8, 80u8, 82u8, 78u8, 71u8, 49u8];
    assert(buf@ =~= ring_magic());
    push_le(&mut buf, header.version as u64, 4);
    push_le(&mut buf, header.slot_count as u64, 4);
    push_le(&mut buf, header.write_pos as u64, 4);
    push_le(&mut buf, header.valid_count as u64, 4);
    push_le(&mut buf, header.record_size as u64, 4);
    assert(buf@ == header_fields(*header));
    let sum: u32 = checksum32(buf.as_slice());
    push_le(&mut buf, sum as u64, 4);
    let ghost head = buf@;
    let mut i: usize = 0;
    assert(head + Seq::new(0, |j: int| 0u8) =~= head);
    while i < 32
        invariant
            i <= 32,
            buf@ == head + Seq::new(i as nat, |j: int| 0u8),
        decreases 32 - i,
    {
        buf.push(0);
        assert(buf@ =~= head + Seq::new((i + 1) as nat, |j: int| 0u8));
        i += 1;
    }
    proof {
        lemma_header_len(*header);
    }
    buf
}

pub(crate) proof fn lemma_header_len(h: RingHeader)
    ensures
        header_fields(h).len() == 28,
        header_bytes(h).len() == 64,
{
    lemma_le_len(h.version as nat, 4);
    lemma_le_len(h.slot_count as nat, 4);
    lemma_le_len(h.write_pos as nat, 4);
    lemma_le_len(h.valid_count as nat, 4);
    lemma_le_len(h.record_size as nat, 4);
    lemma_le_len(checksum(header_fields(h)) as nat, 4);
}

fn word(data: &[u8], at: usize) -> (r: u32)
    requires
        at + 4 <= data@.len(),
    ensures
        r == word_at(data@, at as int),
        r == le_value(data@.subrange(at as int, at + 4)),
{
    proof {
        lemma_ranges();
    }
    le_at(data, at, 4) as u32
}

/// Reads the header of a file.
pub fn read_ring_header(image: &[u8]) -> (r: Result<RingHeader, RingError>)
    ensures
        r == header_of(image@),
{
    if image.len() < RING_HEADER_SIZE {
        return Err(RingError::Short);
    }
    let magic = slice_subrange(image, 0, 8);
    assert(magic@ =~= image@.take(8));
    let fits = magic[0] == 66 && magic[1] == 68 && magic[2] == 88 && magic[3] == 80 && magic[4]
        == 82 && magic[5] == 78 && magic[6] == 71 && magic[7] == 49;
    assert(fits ==> magic@ =~= ring_magic());
    if !fits {
        return Err(RingError::Magic);
    }
    let version: u32 = word(image, 8);
    if version != 1 && version != RING_VERSION {
        return Err(RingError::Version(version));
    }
    let sum: u32 = word(image, 28);
    let fields = slice_subrange(image, 0, 28);
    assert(fields@ =~= image@.take(28));
    if sum != checksum32(fields) {
        return Err(RingError::HeaderChecksum);
    }
    let slot_count: u32 = word(image, 12);
    let write_pos: u32 = word(image, 16);
    let valid_count: u32 = word(image, 20);
    let record_size: u32 = word(image, 24);
    let expected: u32 = if version == 1 {
        RING_V1_RECORD_SIZE as u32
    } else {
        RING_RECORD_SIZE as u32
    };
    if slot_count == 0 || record_size != expected {
        return Err(RingError::Values);
    }
    if write_pos >= slot_count || valid_count > slot_count {
        return Err(RingError::Positions);
    }
    Ok(RingHeader { version, slot_count, write_pos, valid_count, record_size })
}

proof fn lemma_header_word(h: RingHeader, rest: Seq<u8>)
    ensures
        ({
            let img = header_bytes(h) + rest;
            &&& img.take(8) == ring_magic()
            &&& img.take(28) == header_fields(h)
            &&& word_at(img, 8) == h.version
            &&& word_at(img, 12) == h.slot_count
            &&& word_at(img, 16) == h.write_pos
            &&& word_at(img, 20) == h.valid_count
            &&& word_at(img, 24) == h.record_size
            &&& word_at(img, 28) == checksum(header_fields(h))
        }),
{
    let img = header_bytes(h) + rest;
    lemma_header_len(h);
    lemma_ranges();
    law_le_roundtrip(h.version as nat, 4);
    law_le_roundtrip(h.slot_count as nat, 4);
    law_le_roundtrip(h.write_pos as nat, 4);
    law_le_roundtrip(h.valid_count as nat, 4);
    law_le_roundtrip(h.record_size as nat, 4);
    law_le_roundtrip(checksum(header_fields(h)) as nat, 4);
    assert(img.take(8) =~= ring_magic());
    assert(img.take(28) =~= header_fields(h));
    assert(img.subrange(8, 12) =~= le_bytes(h.version as nat, 4));
    assert(img.subrange(12, 16) =~= le_bytes(h.slot_count as nat, 4));
    assert(img.subrange(16, 20) =~= le_bytes(h.write_pos as nat, 4));
    assert(img.subrange(20, 24) =~= le_bytes(h.valid_count as nat, 4));
    assert(img.subrange(24, 28) =~= le_bytes(h.record_size as nat, 4));
    assert(img.subrange(28, 32) =~= le_bytes(checksum(header_fields(h)) as nat, 4));
}

/// Reading back a header that was written gives the header, whatever follows it.
pub proof fn law_header_roundtrip(h: RingHeader, rest: Seq<u8>)
    requires
        h.valid(),
    ensures
        header_of(header_bytes(h) + rest) == Ok::<RingHeader, RingError>(h),
{
    lemma_header_len(h);
    lemma_header_word(h, rest);
}

/// The numbers of a record in the order in which they are stored.
pub open spec fn record_fields(b: AggregatedBucket) -> Seq<u64> {
    seq![
        b.start_ts_ms,
        b.end_ts_ms,
        b.sample_count,
        b.up_v4_bytes,
        b.down_v4_bytes,
        b.up_v6_bytes,
        b.down_v6_bytes,
        b.up_v4_bps_sum,
        b.up_v4_bps_max,
        b.up_v4_bps_min,
        b.up_v4_bps_avg,
        b.up_v4_bps_p95,
        b.down_v4_bps_sum,
        b.down_v4_bps_max,
        b.down_v4_bps_min,
        b.down_v4_bps_avg,
        b.down_v4_bps_p95,
        b.up_v6_bps_sum,
        b.up_v6_bps_max,
        b.up_v6_bps_min,
        b.up_v6_bps_avg,
        b.up_v6_bps_p95,
        b.down_v6_bps_sum,
        b.down_v6_bps_max,
        b.down_v6_bps_min,
        b.down_v6_bps_avg,
        b.down_v6_bps_p95,
    ]
}

/// Numbers of eight bytes each, one after the other.
pub open spec fn number_bytes(s: Seq<u64>) -> Seq<u8>
    decreases s.len(),
{
    if s.len() == 0 {
        Seq::empty()
    } else {
        number_bytes(s.drop_last()) + le_bytes(s.last() as nat, 8)
    }
}

/// The `i`-th number of eight bytes.
pub open spec fn number_at(d: Seq<u8>, i: int) -> u64 {
    le_value(d.subrange(8 * i, 8 * i + 8)) as u64
}

/// A record as it stands in a slot: its numbers and their checksum.
pub open spec fn record_bytes(b: AggregatedBucket) -> Seq<u8> {
    let data = number_bytes(record_fields(b));
    data + le_bytes(checksum(data) as nat, 4)
}

/// A record of the current format.
pub open spec fn record_v2(d: Seq<u8>) -> AggregatedBucket {
    AggregatedBucket {
        start_ts_ms: number_at(d, 0),
        end_ts_ms: number_at(d, 1),
        sample_count: number_at(d, 2),
        up_v4_bytes: number_at(d, 3),
        down_v4_bytes: number_at(d, 4),
        up_v6_bytes: number_at(d, 5),
        down_v6_bytes: number_at(d, 6),
        up_v4_bps_sum: number_at(d, 7),
        up_v4_bps_max: number_at(d, 8),
        up_v4_bps_min: number_at(d, 9),
        up_v4_bps_avg: number_at(d, 10),
        up_v4_bps_p95: number_at(d, 11),
        down_v4_bps_sum: number_at(d, 12),
        down_v4_bps_max: number_at(d, 13),
        down_v4_bps_min: number_at(d, 14),
        down_v4_bps_avg: number_at(d, 15),
        down_v4_bps_p95: number_at(d, 16),
        up_v6_bps_sum: number_at(d, 17),
        up_v6_bps_max: number_at(d, 18),
        up_v6_bps_min: number_at(d, 19),
        up_v6_bps_avg: number_at(d, 20),
        up_v6_bps_p95: number_at(d, 21),
        down_v6_bps_sum: number_at(d, 22),
        down_v6_bps_max: number_at(d, 23),
        down_v6_bps_min: number_at(d, 24),
        down_v6_bps_avg: number_at(d, 25),
        down_v6_bps_p95: number_at(d, 26),
    }
}

/// A record of the first format, which stored averages but neither sample counts
/// nor sums. The hour counts as one observation of its averages; the bytes are
/// exact.
pub open spec fn record_v1(d: Seq<u8>) -> AggregatedBucket {
    AggregatedBucket {
        start_ts_ms: number_at(d, 0),
        end_ts_ms: number_at(d, 1),
        sample_count: 1,
        up_v4_bytes: number_at(d, 2),
        down_v4_bytes: number_at(d, 3),
        up_v6_bytes: number_at(d, 4),
        down_v6_bytes: number_at(d, 5),
        up_v4_bps_sum: number_at(d, 6),
        up_v4_bps_avg: number_at(d, 6),
        up_v4_bps_max: number_at(d, 7),
        up_v4_bps_min: number_at(d, 8),
        up_v4_bps_p95: number_at(d, 9),
        down_v4_bps_sum: number_at(d, 10),
        down_v4_bps_avg: number_at(d, 10),
        down_v4_bps_max: number_at(d, 11),
        down_v4_bps_min: number_at(d, 12),
        down_v4_bps_p95: number_at(d, 13),
        up_v6_bps_sum: number_at(d, 14),
        up_v6_bps_avg: number_at(d, 14),
        up_v6_bps_max: number_at(d, 15),
        up_v6_bps_min: number_at(d, 16),
        up_v6_bps_p95: number_at(d, 17),
        down_v6_bps_sum: number_at(d, 18),
        down_v6_bps_avg: number_at(d, 18),
        down_v6_bps_max: number_at(d, 19),
        down_v6_bps_min: number_at(d, 20),
        down_v6_bps_p95: number_at(d, 21),
    }
}

/// What a slot holds.
pub open spec fn record_of(d: Seq<u8>, version: u32) -> Result<AggregatedBucket, RingError> {
    let size = record_size_of(version);
    if d.len() != size {
        Err(RingError::RecordLength)
    } else if word_at(d, size - 4) != checksum(d.take(size - 4)) {
        Err(RingError::RecordChecksum)
    } else if version == 1 {
        Ok(record_v1(d))
    } else {
        Ok(record_v2(d))
    }
}

fn fields_of(b: &AggregatedBucket) -> (r: Vec<u64>)
    ensures
        r@ == record_fields(*b),
{
    let r = vec![
        b.start_ts_ms,
        b.end_ts_ms,
        b.sample_count,
        b.up_v4_bytes,
        b.down_v4_bytes,
        b.up_v6_bytes,
        b.down_v6_bytes,
        b.up_v4_bps_sum,
        b.up_v4_bps_max,
        b.up_v4_bps_min,
        b.up_v4_bps_avg,
        b.up_v4_bps_p95,
        b.down_v4_bps_sum,
        b.down_v4_bps_max,
        b.down_v4_bps_min,
        b.down_v4_bps_avg,
        b.down_v4_bps_p95,
        b.up_v6_bps_sum,
        b.up_v6_bps_max,
        b.up_v6_bps_min,
        b.up_v6_bps_avg,
        b.up_v6_bps_p95,
        b.down_v6_bps_sum,
        b.down_v6_bps_max,
        b.down_v6_bps_min,
        b.down_v6_bps_avg,
        b.down_v6_bps_p95,
    ];
    assert(r@ =~= record_fields(*b));
    r
}

/// A record as it is written to its slot.
pub fn encode_ring_record(bucket: &AggregatedBucket) -> (r: Vec<u8>)
    ensures
        r@ == record_bytes(*bucket),
        r@.len() == RING_RECORD_SIZE,
{
    let fields = fields_of(bucket);
    let mut data: Vec<u8> = Vec::new();
    let mut i: usize = 0;
    assert(fields@.take(0) =~= Seq::<u64>::empty());
    assert(data@ =~= number_bytes(fields@.take(0)));
    while i < fields.len()
        invariant
            i <= fields@.len(),
            data@ == number_bytes(fields@.take(i as int)),
        decreases fields@.len() - i,
    {
        assert(fields@.take(i + 1).drop_last() =~= fields@.take(i as int));
        push_le(&mut data, fields[i], 8);
        i += 1;
    }
    assert(fields@.take(i as int) =~= fields@);
    let sum: u32 = checksum32(data.as_slice());
    push_le(&mut data, sum as u64, 4);
    proof {
        lemma_record_len(*bucket);
    }
    data
}

proof fn lemma_number_bytes(s: Seq<u64>, i: int)
    requires
        0 <= i < s.len(),
    ensures
        number_bytes(s).len() == 8 * s.len(),
        number_bytes(s).subrange(8 * i, 8 * i + 8) == le_bytes(s[i] as nat, 8),
    decreases s.len(),
{
    let t = s.drop_last();
    lemma_le_len(s.last() as nat, 8);
    lemma_number_bytes_len(t);
    if i < t.len() {
        lemma_number_bytes(t, i);
        assert(number_bytes(s).subrange(8 * i, 8 * i + 8) =~= number_bytes(t).subrange(
            8 * i,
            8 * i + 8,
        ));
    } else {
        assert(number_bytes(s).subrange(8 * i, 8 * i + 8) =~= le_bytes(s.last() as nat, 8));
    }
}

proof fn lemma_number_bytes_len(s: Seq<u64>)
    ensures
        number_bytes(s).len() == 8 * s.len(),
    decreases s.len(),
{
    if s.len() > 0 {
        lemma_number_bytes_len(s.drop_last());
        lemma_le_len(s.last() as nat, 8);
    }
}

pub(crate) proof fn lemma_record_len(b: AggregatedBucket)
    ensures
        number_bytes(record_fields(b)).len() == 216,
        record_bytes(b).len() == 220,
{
    lemma_number_bytes_len(record_fields(b));
    lemma_le_len(checksum(number_bytes(record_fields(b))) as nat, 4);
}

proof fn lemma_record_number(b: AggregatedBucket, i: int)
    requires
        0 <= i < 27,
    ensures
        number_at(record_bytes(b), i) == record_fields(b)[i],
{
    let f = record_fields(b);
    lemma_record_len(b);
    lemma_number_bytes(f, i);
    assert(record_bytes(b).subrange(8 * i, 8 * i + 8) =~= number_bytes(f).subrange(8 * i, 8 * i + 8));
    lemma_ranges();
    law_le_roundtrip(f[i] as nat, 8);
}

/// Reading back a record that was written gives the record.
pub proof fn law_record_roundtrip(b: AggregatedBucket)
    ensures
        record_of(record_bytes(b), RING_VERSION) == Ok::<AggregatedBucket, RingError>(b),
{
    let d = record_bytes(b);
    let data = number_bytes(record_fields(b));
    lemma_record_len(b);
    lemma_ranges();
    law_le_roundtrip(checksum(data) as nat, 4);
    assert(d.subrange(216, 220) =~= le_bytes(checksum(data) as nat, 4));
    assert(d.take(216) =~= data);
    assert forall|i: int| 0 <= i < 27 implies #[trigger] number_at(d, i) == record_fields(b)[i] by {
        lemma_record_number(b, i);
    }
    assert(record_v2(d) == b);
}

fn number(data: &[u8], i: usize) -> (r: u64)
    requires
        i < 27,
        8 * i + 8 <= data@.len(),
    ensures
        r == number_at(data@, i as int),
{
    proof {
        lemma_ranges();
    }
    le_at(data, 8 * i, 8)
}

/// Reads what a slot holds.
pub fn decode_ring_record(data: &[u8], version: u32) -> (r: Result<AggregatedBucket, RingError>)
    ensures
        r == record_of(data@, version),
{
    let size: usize = if version == 1 {
        RING_V1_RECORD_SIZE
    } else {
        RING_RECORD_SIZE
    };
    if data.len() != size {
        return Err(RingError::RecordLength);
    }
    let sum: u32 = word(data, size - 4);
    let body = slice_subrange(data, 0, size - 4);
    assert(body@ =~= data@.take(size - 4));
    if sum != checksum32(body) {
        return Err(RingError::RecordChecksum);
    }
    if version == 1 {
        let up_v4: u64 = number(data, 6);
        let down_v4: u64 = number(data, 10);
        let up_v6: u64 = number(data, 14);
        let down_v6: u64 = number(data, 18);
        return Ok(
            AggregatedBucket {
                start_ts_ms: number(data, 0),
                end_ts_ms: number(data, 1),
                sample_count: 1,
                up_v4_bytes: number(data, 2),
                down_v4_bytes: number(data, 3),
                up_v6_bytes: number(data, 4),
                down_v6_bytes: number(data, 5),
                up_v4_bps_sum: up_v4,
                up_v4_bps_avg: up_v4,
                up_v4_bps_max: number(data, 7),
                up_v4_bps_min: number(data, 8),
                up_v4_bps_p95: number(data, 9),
                down_v4_bps_sum: down_v4,
                down_v4_bps_avg: down_v4,
                down_v4_bps_max: number(data, 11),
                down_v4_bps_min: number(data, 12),
                down_v4_bps_p95: number(data, 13),
                up_v6_bps_sum: up_v6,
                up_v6_bps_avg: up_v6,
                up_v6_bps_max: number(data, 15),
                up_v6_bps_min: number(data, 16),
                up_v6_bps_p95: number(data, 17),
                down_v6_bps_sum: down_v6,
                down_v6_bps_avg: down_v6,
                down_v6_bps_max: number(data, 19),
                down_v6_bps_min: number(data, 20),
                down_v6_bps_p95: number(data, 21),
            },
        );
    }
    Ok(
        AggregatedBucket {
            start_ts_ms: number(data, 0),
            end_ts_ms: number(data, 1),
            sample_count: number(data, 2),
            up_v4_bytes: number(data, 3),
            down_v4_bytes: number(data, 4),
            up_v6_bytes: number(data, 5),
            down_v6_bytes: number(data, 6),
            up_v4_bps_sum: number(data, 7),
            up_v4_bps_max: number(data, 8),
            up_v4_bps_min: number(data, 9),
            up_v4_bps_avg: number(data, 10),
            up_v4_bps_p95: number(data, 11),
            down_v4_bps_sum: number(data, 12),
            down_v4_bps_max: number(data, 13),
            down_v4_bps_min: number(data, 14),
            down_v4_bps_avg: number(data, 15),
            down_v4_bps_p95: number(data, 16),
            up_v6_bps_sum: number(data, 17),
            up_v6_bps_max: number(data, 18),
            up_v6_bps_min: number(data, 19),
            up_v6_bps_avg: number(data, 20),
            up_v6_bps_p95: number(data, 21),
            down_v6_bps_sum: number(data, 22),
            down_v6_bps_max: number(data, 23),
            down_v6_bps_min: number(data, 24),
            down_v6_bps_avg: number(data, 25),
            down_v6_bps_p95: number(data, 26),
        },
    )
}

/// Multiplying by the checksum's prime loses nothing, since the prime has an inverse.
proof fn lemma_prime_keeps_apart(a: u32, b: u32)
    requires
        a.wrapping_mul(0x01000193) == b.wrapping_mul(0x01000193),
    ensures
        a == b,
{
    let m: int = 0x1_0000_0000;
    let p: int = 0x01000193;
    let q: int = 0x359c449b;
    let x = a as int;
    let y = b as int;
    assert((x * p) % m == (y * p) % m);
    vstd::arithmetic::div_mod::lemma_mul_mod_noop_left(x * p, q, m);
    vstd::arithmetic::div_mod::lemma_mul_mod_noop_left(y * p, q, m);
    assert(((x * p) * q) % m == ((y * p) * q) % m);
    assert((x * p) * q == m * (3513497 * x) + x) by (nonlinear_arith)
        requires
            m == 0x1_0000_0000,
            p == 0x01000193,
            q == 0x359c449b,
    ;
    assert((y * p) * q == m * (3513497 * y) + y) by (nonlinear_arith)
        requires
            m == 0x1_0000_0000,
            p == 0x01000193,
            q == 0x359c449b,
    ;
    vstd::arithmetic::div_mod::lemma_mod_multiples_vanish(3513497 * x, x, m);
    vstd::arithmetic::div_mod::lemma_mod_multiples_vanish(3513497 * y, y, m);
    vstd::arithmetic::div_mod::lemma_small_mod(a as nat, m as nat);
    vstd::arithmetic::div_mod::lemma_small_mod(b as nat, m as nat);
}

/// Runs of bytes that differ in one byte have different checksums.
proof fn lemma_checksum_tells_apart(s: Seq<u8>, t: Seq<u8>, i: int)
    requires
        s.len() == t.len(),
        0 <= i < s.len(),
        s[i] != t[i],
        forall|j: int| 0 <= j < s.len() && j != i ==> s[j] == t[j],
    ensures
        checksum(s) != checksum(t),
    decreases s.len(),
{
    let a = checksum(s.drop_last());
    let b = checksum(t.drop_last());
    let x = s.last() as u32;
    let y = t.last() as u32;
    if i == s.len() - 1 {
        assert(s.drop_last() =~= t.drop_last());
        assert(a ^ x != a ^ y) by (bit_vector)
            requires
                x != y,
        ;
        if checksum(s) == checksum(t) {
            lemma_prime_keeps_apart(a ^ x, a ^ y);
        }
    } else {
        assert forall|j: int| 0 <= j < s.len() - 1 && j != i implies s.drop_last()[j]
            == t.drop_last()[j] by {
            assert(s[j] == t[j]);
        }
        lemma_checksum_tells_apart(s.drop_last(), t.drop_last(), i);
        assert(s.last() == t.last());
        assert(a ^ x != b ^ x) by (bit_vector)
            requires
                a != b,
        ;
        if checksum(s) == checksum(t) {
            lemma_prime_keeps_apart(a ^ x, b ^ x);
        }
    }
}

proof fn lemma_value_in_range(s: Seq<u8>)
    ensures
        le_value(s) < byte_range(s.len()),
    decreases s.len(),
{
    if s.len() > 0 {
        lemma_value_in_range(s.drop_first());
    }
}

/// Different bytes make different numbers.
proof fn lemma_values_differ(s: Seq<u8>, t: Seq<u8>, i: int)
    requires
        s.len() == t.len(),
        0 <= i < s.len(),
        s[i] != t[i],
    ensures
        le_value(s) != le_value(t),
    decreases s.len(),
{
    if i > 0 {
        assert(s.drop_first()[i - 1] == s[i]);
        assert(t.drop_first()[i - 1] == t[i]);
        lemma_values_differ(s.drop_first(), t.drop_first(), i - 1);
    }
}

/// A record that was damaged in one byte, or cut or drawn out, is refused.
pub proof fn law_damaged_record_is_refused(b: AggregatedBucket, d: Seq<u8>)
    requires
        d.len() != RING_RECORD_SIZE || exists|i: int|
            0 <= i < d.len() && d[i] != record_bytes(b)[i] && forall|j: int|
                0 <= j < d.len() && j != i ==> #[trigger] d[j] == record_bytes(b)[j],
    ensures
        record_of(d, RING_VERSION) is Err,
{
    let e = record_bytes(b);
    let data = number_bytes(record_fields(b));
    lemma_record_len(b);
    if d.len() == RING_RECORD_SIZE {
        let i = choose|i: int|
            0 <= i < d.len() && d[i] != e[i] && forall|j: int|
                0 <= j < d.len() && j != i ==> #[trigger] d[j] == e[j];
        lemma_ranges();
        law_le_roundtrip(checksum(data) as nat, 4);
        assert(e.subrange(216, 220) =~= le_bytes(checksum(data) as nat, 4));
        assert(e.take(216) =~= data);
        if i < 216 {
            assert forall|j: int| 0 <= j < 216 && j != i implies d.take(216)[j] == e.take(216)[j] by {
                assert(d[j] == e[j]);
            }
            lemma_checksum_tells_apart(d.take(216), e.take(216), i);
            assert(d.subrange(216, 220) =~= e.subrange(216, 220)) by {
                assert forall|j: int| 216 <= j < 220 implies #[trigger] d[j] == e[j] by {}
            }
        } else {
            assert(d.take(216) =~= e.take(216));
            let s = d.subrange(216, 220);
            let t = e.subrange(216, 220);
            assert(s[i - 216] == d[i] && t[i - 216] == e[i]);
            lemma_values_differ(s, t, i - 216);
            lemma_value_in_range(s);
            lemma_value_in_range(t);
        }
    }
}

} // verus!
