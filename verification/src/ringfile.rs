//! What is done with a ring file: reading its records, adding one, and bringing
//! it to another capacity or to the current format.
use crate::bucket::AggregatedBucket;
use crate::ring::{
    decode_ring_record, default_ring_header, encode_ring_record, header_bytes, header_of,
    law_header_roundtrip, law_record_roundtrip, lemma_header_len, lemma_record_len, new_header,
    read_ring_header, record_bytes, record_of, write_ring_header, RingError, RingHeader,
    RING_HEADER_SIZE, RING_RECORD_SIZE, RING_VERSION,
};
use crate::series::newest;
use vstd::prelude::*;
use vstd::slice::slice_subrange;

verus! {

/// The size of a ring with all its slots.
pub open spec fn total_size(h: RingHeader) -> int {
    RING_HEADER_SIZE + h.slot_count * h.record_size
}

/// The size that a ring has at least. One that is not full is filled from its
/// first slot on.
pub open spec fn min_size(h: RingHeader) -> Result<int, RingError> {
    if h.valid_count == 0 {
        Ok(RING_HEADER_SIZE as int)
    } else if h.valid_count < h.slot_count {
        if h.write_pos != h.valid_count {
            Err(RingError::Shape { write_pos: h.write_pos, valid_count: h.valid_count })
        } else {
            Ok(RING_HEADER_SIZE + h.valid_count * h.record_size)
        }
    } else {
        Ok(total_size(h))
    }
}

/// Where a slot starts.
pub open spec fn slot_offset(h: RingHeader, slot: int) -> int {
    RING_HEADER_SIZE + slot * h.record_size
}

/// The least and the greatest size of a ring.
pub fn ring_size_bounds(header: &RingHeader) -> (r: Result<(u64, u64), RingError>)
    ensures
        match r {
            Ok((min, max)) => min_size(*header) == Ok::<int, RingError>(min as int) && max
                == total_size(*header),
            Err(e) => min_size(*header) == Err::<int, RingError>(e),
        },
{
    let n: u64 = header.slot_count as u64;
    let v: u64 = header.valid_count as u64;
    let size: u64 = header.record_size as u64;
    assert(n * size <= 0xffff_ffff * 0xffff_ffff) by (nonlinear_arith)
        requires
            n <= 0xffff_ffff,
            size <= 0xffff_ffff,
    ;
    assert(v * size <= 0xffff_ffff * 0xffff_ffff) by (nonlinear_arith)
        requires
            v <= 0xffff_ffff,
            size <= 0xffff_ffff,
    ;
    let max: u64 = RING_HEADER_SIZE as u64 + n * size;
    if header.valid_count == 0 {
        return Ok((RING_HEADER_SIZE as u64, max));
    }
    if header.valid_count < header.slot_count {
        if header.write_pos != header.valid_count {
            return Err(
                RingError::Shape { write_pos: header.write_pos, valid_count: header.valid_count },
            );
        }
        return Ok((RING_HEADER_SIZE as u64 + v * size, max));
    }
    Ok((max, max))
}

/// Where a slot starts.
pub fn ring_data_offset(header: &RingHeader, slot: u32) -> (r: u64)
    ensures
        r == slot_offset(*header, slot as int),
{
    let size: u64 = header.record_size as u64;
    assert(slot * size <= 0xffff_ffff * 0xffff_ffff) by (nonlinear_arith)
        requires
            slot <= 0xffff_ffff,
            size <= 0xffff_ffff,
    ;
    RING_HEADER_SIZE as u64 + slot as u64 * size
}

/// The slot of the oldest of the newest `n` records.
pub open spec fn first_slot(h: RingHeader, n: int) -> int {
    (h.write_pos + h.slot_count - n) % (h.slot_count as int)
}

/// What a slot holds; nothing where it is cut off or holds no record.
#[verifier::opaque]
pub open spec fn slot_record(img: Seq<u8>, h: RingHeader, slot: int) -> Option<AggregatedBucket> {
    let from = slot_offset(h, slot);
    let to = from + h.record_size;
    if to > img.len() {
        None
    } else {
        match record_of(img.subrange(from, to), h.version) {
            Ok(b) => Some(b),
            Err(_) => None,
        }
    }
}

/// The slot `k` behind another, around the end of the ring.
pub open spec fn slot_after(h: RingHeader, first: int, k: int) -> int {
    (first + k) % (h.slot_count as int)
}

/// The records of `n` slots in a row; none where one of them holds none.
pub open spec fn slots_read(img: Seq<u8>, h: RingHeader, first: int, n: nat) -> Option<
    Seq<AggregatedBucket>,
>
    decreases n,
{
    if n == 0 {
        Some(Seq::empty())
    } else {
        match (
            slots_read(img, h, first, (n - 1) as nat),
            slot_record(img, h, slot_after(h, first, n - 1)),
        ) {
            (Some(before), Some(b)) => Some(before.push(b)),
            _ => None,
        }
    }
}

/// The header of a file that has the shape of a ring.
pub open spec fn ring_header(img: Seq<u8>) -> Option<RingHeader> {
    match header_of(img) {
        Ok(h) => match min_size(h) {
            Ok(min) => if min <= img.len() <= total_size(h) {
                Some(h)
            } else {
                None
            },
            Err(_) => None,
        },
        Err(_) => None,
    }
}

/// The newest records of a ring, at most `limit`, from the oldest on; none where
/// the file is no ring.
pub open spec fn ring_records(img: Seq<u8>, limit: u32) -> Option<Seq<AggregatedBucket>> {
    match ring_header(img) {
        Some(h) => {
            let n = if h.valid_count < limit {
                h.valid_count
            } else {
                limit
            };
            slots_read(img, h, first_slot(h, n as int), n as nat)
        },
        None => None,
    }
}

proof fn lemma_slots_fail(img: Seq<u8>, h: RingHeader, first: int, i: nat, n: nat)
    requires
        i <= n,
        slots_read(img, h, first, i) is None,
    ensures
        slots_read(img, h, first, n) is None,
    decreases n - i,
{
    if i < n {
        lemma_slots_fail(img, h, first, i + 1, n);
    }
}

/// Reads the newest records of a ring; a file that is none is to be put aside.
pub fn read_ring_records_limited(image: &[u8], limit: u32) -> (r: Option<Vec<AggregatedBucket>>)
    ensures
        match r {
            Some(v) => ring_records(image@, limit) == Some(v@) && v@.len() <= limit,
            None => ring_records(image@, limit) is None,
        },
{
    let header = match read_ring_header(image) {
        Ok(h) => h,
        Err(_) => {
            return None;
        },
    };
    let (min, max) = match ring_size_bounds(&header) {
        Ok(b) => b,
        Err(_) => {
            return None;
        },
    };
    let len: u64 = image.len() as u64;
    if len < min || len > max {
        return None;
    }
    let n: u32 = if header.valid_count < limit {
        header.valid_count
    } else {
        limit
    };
    let count: u64 = header.slot_count as u64;
    let first: u64 = (header.write_pos as u64 + count - n as u64) % count;
    let mut out: Vec<AggregatedBucket> = Vec::new();
    let mut i: u32 = 0;
    assert(out@ =~= Seq::empty());
    while i < n
        invariant
            i <= n <= limit,
            out@.len() == i,
            header.valid(),
            count == header.slot_count,
            first < count,
            first == first_slot(header, n as int),
            ring_header(image@) == Some(header),
            n == (if header.valid_count < limit {
                header.valid_count
            } else {
                limit
            }),
            slots_read(image@, header, first as int, i as nat) == Some(out@),
        decreases n - i,
    {
        let slot: u32 = ((first + i as u64) % count) as u32;
        match read_slot(image, &header, slot) {
            Some(b) => {
                out.push(b);
            },
            None => {
                proof {
                    lemma_slots_fail(image@, header, first as int, (i + 1) as nat, n as nat);
                }
                return None;
            },
        }
        i += 1;
    }
    Some(out)
}

fn read_slot(image: &[u8], header: &RingHeader, slot: u32) -> (r: Option<AggregatedBucket>)
    requires
        header.valid(),
    ensures
        r == slot_record(image@, *header, slot as int),
{
    proof {
        reveal(slot_record);
    }
    let from: u64 = ring_data_offset(header, slot);
    let len: usize = image.len();
    let size: usize = header.record_size as usize;
    if (len as u64) < from || len - (from as usize) < size {
        return None;
    }
    let at: usize = from as usize;
    match decode_ring_record(slice_subrange(image, at, at + size), header.version) {
        Ok(b) => Some(b),
        Err(_) => None,
    }
}

/// Reads all records of a ring.
pub fn read_ring_records(image: &[u8]) -> (r: Option<Vec<AggregatedBucket>>)
    ensures
        match r {
            Some(v) => ring_records(image@, u32::MAX) == Some(v@),
            None => ring_records(image@, u32::MAX) is None,
        },
{
    read_ring_records_limited(image, u32::MAX)
}

/// The writes that add a record to a ring file: the record at its offset, then
/// the header at the start.
#[derive(Debug)]
pub struct RingAppend {
    pub offset: u64,
    pub record: Vec<u8>,
    pub header: Vec<u8>,
}

/// The header after one more record.
pub open spec fn next_header(h: RingHeader) -> RingHeader {
    RingHeader {
        write_pos: ((h.write_pos + 1) % (h.slot_count as int)) as u32,
        valid_count: if h.valid_count < h.slot_count {
            (h.valid_count + 1) as u32
        } else {
            h.slot_count
        },
        ..h
    }
}

/// The writes that add a record to a ring with a header.
pub fn append_ring_record(header: &RingHeader, bucket: &AggregatedBucket) -> (r: RingAppend)
    requires
        header.valid(),
    ensures
        r.offset == slot_offset(*header, header.write_pos as int),
        r.record@ == record_bytes(*bucket),
        r.header@ == header_bytes(next_header(*header)),
{
    let slot: u32 = header.write_pos;
    let next = RingHeader {
        version: header.version,
        slot_count: header.slot_count,
        write_pos: ((slot as u64 + 1) % (header.slot_count as u64)) as u32,
        valid_count: if header.valid_count < header.slot_count {
            header.valid_count + 1
        } else {
            header.slot_count
        },
        record_size: header.record_size,
    };
    RingAppend {
        offset: ring_data_offset(header, slot),
        record: encode_ring_record(bucket),
        header: write_ring_header(&next),
    }
}

/// What opening a ring file asks for.
#[derive(Debug)]
pub enum RingOpen {
    /// There is no file: write this one.
    Create(Vec<u8>),
    /// The file is no ring: put it aside and write this one.
    Replace(Vec<u8>),
    /// The file has another capacity or format: write this one beside it and
    /// rename it over. Where the old records cannot be read, the old file is put
    /// aside first.
    Migrate { quarantine: bool, image: Vec<u8> },
    /// The file can be used as it is.
    Ready(RingHeader),
}

/// Records one after the other.
pub open spec fn all_record_bytes(s: Seq<AggregatedBucket>) -> Seq<u8>
    decreases s.len(),
{
    if s.len() == 0 {
        Seq::empty()
    } else {
        all_record_bytes(s.drop_last()) + record_bytes(s.last())
    }
}

/// The header of a ring that holds records from its first slot on.
pub open spec fn packed_header(n: int, slots: u32) -> RingHeader {
    RingHeader {
        valid_count: n as u32,
        write_pos: (n % (slots as int)) as u32,
        ..new_header(slots)
    }
}

/// A ring file that holds the records.
pub open spec fn packed(s: Seq<AggregatedBucket>, slots: u32) -> Seq<u8> {
    header_bytes(packed_header(s.len() as int, slots)) + all_record_bytes(s)
}

/// What opening asks for is what the file calls for.
pub open spec fn open_step(img: Option<Seq<u8>>, slots: u32, r: Result<RingOpen, RingError>) -> bool {
    if slots == 0 {
        r == Err::<RingOpen, RingError>(RingError::Capacity)
    } else {
        match img {
            None => r matches Ok(RingOpen::Create(f)) && f@ == header_bytes(new_header(slots)),
            Some(img) => match header_of(img) {
                Err(_) => r matches Ok(RingOpen::Replace(f)) && f@ == header_bytes(
                    new_header(slots),
                ),
                Ok(h) => match min_size(h) {
                    Err(e) => r == Err::<RingOpen, RingError>(e),
                    Ok(min) => if img.len() < min || img.len() > total_size(h) {
                        r matches Ok(RingOpen::Replace(f)) && f@ == header_bytes(new_header(slots))
                    } else if h.version == 1 || h.slot_count != slots {
                        match ring_records(img, slots) {
                            Some(s) => r matches Ok(RingOpen::Migrate { quarantine, image })
                                && !quarantine && image@ == packed(s, slots),
                            None => r matches Ok(RingOpen::Migrate { quarantine, image })
                                && quarantine && image@ == packed(Seq::empty(), slots),
                        }
                    } else {
                        r matches Ok(RingOpen::Ready(found)) && found == h
                    },
                },
            },
        }
    }
}

fn pack(records: &Vec<AggregatedBucket>, slots: u32) -> (r: Vec<u8>)
    requires
        slots > 0,
        records@.len() <= slots,
    ensures
        r@ == packed(records@, slots),
{
    let n: u32 = records.len() as u32;
    let mut header = default_ring_header(slots);
    header.valid_count = n;
    header.write_pos = n % slots;
    let mut out = write_ring_header(&header);
    assert(header == packed_header(records@.len() as int, slots));
    let ghost head = out@;
    let mut i: usize = 0;
    assert(records@.take(0) =~= Seq::empty());
    assert(out@ =~= head + all_record_bytes(records@.take(0)));
    while i < records.len()
        invariant
            i <= records@.len(),
            out@ == head + all_record_bytes(records@.take(i as int)),
        decreases records@.len() - i,
    {
        assert(records@.take(i + 1).drop_last() =~= records@.take(i as int));
        let mut bytes = encode_ring_record(&records[i]);
        let ghost b = bytes@;
        let ghost before = out@;
        out.append(&mut bytes);
        assert(out@ =~= before + b);
        assert(out@ =~= head + all_record_bytes(records@.take(i + 1)));
        i += 1;
    }
    assert(records@.take(i as int) =~= records@);
    out
}

/// Decides what opening a ring file asks for.
pub fn open_or_create_ring(image: Option<&[u8]>, slot_count: u32) -> (r: Result<RingOpen, RingError>)
    ensures
        open_step(
            match image {
                Some(i) => Some(i@),
                None => None,
            },
            slot_count,
            r,
        ),
{
    if slot_count == 0 {
        return Err(RingError::Capacity);
    }
    let fresh = write_ring_header(&default_ring_header(slot_count));
    let img = match image {
        Some(i) => i,
        None => {
            return Ok(RingOpen::Create(fresh));
        },
    };
    let header = match read_ring_header(img) {
        Ok(h) => h,
        Err(_) => {
            return Ok(RingOpen::Replace(fresh));
        },
    };
    let (min, max) = match ring_size_bounds(&header) {
        Ok(b) => b,
        Err(e) => {
            return Err(e);
        },
    };
    let len: u64 = img.len() as u64;
    if len < min || len > max {
        return Ok(RingOpen::Replace(fresh));
    }
    if header.version == 1 || header.slot_count != slot_count {
        return match read_ring_records_limited(img, slot_count) {
            Some(records) => Ok(
                RingOpen::Migrate { quarantine: false, image: pack(&records, slot_count) },
            ),
            None => {
                let none: Vec<AggregatedBucket> = Vec::new();
                assert(none@ =~= Seq::empty());
                Ok(RingOpen::Migrate { quarantine: true, image: pack(&none, slot_count) })
            },
        };
    }
    Ok(RingOpen::Ready(header))
}

/// A file after bytes are written at an offset; a gap is filled with zeros.
pub open spec fn written(img: Seq<u8>, offset: int, bytes: Seq<u8>) -> Seq<u8> {
    let end = offset + bytes.len();
    Seq::new(
        if img.len() > end {
            img.len()
        } else {
            end as nat
        },
        |i: int|
            if offset <= i < end {
                bytes[i - offset]
            } else if i < img.len() {
                img[i]
            } else {
                0u8
            },
    )
}

/// A ring file after a record was added.
pub open spec fn appended(img: Seq<u8>, h: RingHeader, b: AggregatedBucket) -> Seq<u8> {
    written(
        written(img, slot_offset(h, h.write_pos as int), record_bytes(b)),
        0,
        header_bytes(next_header(h)),
    )
}

proof fn lemma_slots_pointwise(img: Seq<u8>, h: RingHeader, first: int, s: Seq<AggregatedBucket>)
    requires
        forall|k: int|
            0 <= k < s.len() ==> slot_record(img, h, slot_after(h, first, k)) == Some(
                #[trigger] s[k],
            ),
    ensures
        slots_read(img, h, first, s.len()) == Some(s),
    decreases s.len(),
{
    if s.len() > 0 {
        let t = s.drop_last();
        assert forall|k: int| 0 <= k < t.len() implies slot_record(
            img,
            h,
            slot_after(h, first, k),
        ) == Some(#[trigger] t[k]) by {
            assert(t[k] == s[k]);
        }
        lemma_slots_pointwise(img, h, first, t);
        assert(s[s.len() - 1] == s.last());
        assert(t.push(s.last()) =~= s);
    } else {
        assert(s =~= Seq::empty());
    }
}

proof fn lemma_slot_holds(img: Seq<u8>, h: RingHeader, first: int, n: nat)
    requires
        slots_read(img, h, first, n) is Some,
    ensures
        slots_read(img, h, first, n)->0.len() == n,
        forall|k: int|
            0 <= k < n ==> slot_record(img, h, #[trigger] slot_after(h, first, k)) == Some(
                slots_read(img, h, first, n)->0[k],
            ),
    decreases n,
{
    if n > 0 {
        lemma_slot_holds(img, h, first, (n - 1) as nat);
    }
}

proof fn lemma_packed_records(s: Seq<AggregatedBucket>, i: int)
    requires
        0 <= i < s.len(),
    ensures
        all_record_bytes(s).len() == 220 * s.len(),
        all_record_bytes(s).subrange(220 * i, 220 * i + 220) == record_bytes(s[i]),
    decreases s.len(),
{
    let t = s.drop_last();
    lemma_record_len(s.last());
    lemma_packed_len(t);
    if i < t.len() {
        lemma_packed_records(t, i);
        assert(all_record_bytes(s).subrange(220 * i, 220 * i + 220) =~= all_record_bytes(
            t,
        ).subrange(220 * i, 220 * i + 220));
    } else {
        assert(all_record_bytes(s).subrange(220 * i, 220 * i + 220) =~= record_bytes(s.last()));
    }
}

proof fn lemma_packed_len(s: Seq<AggregatedBucket>)
    ensures
        all_record_bytes(s).len() == 220 * s.len(),
    decreases s.len(),
{
    if s.len() > 0 {
        lemma_packed_len(s.drop_last());
        lemma_record_len(s.last());
    }
}

proof fn lemma_mod_small(a: int, c: int)
    requires
        0 <= a < c,
    ensures
        a % c == a,
{
    vstd::arithmetic::div_mod::lemma_small_mod(a as nat, c as nat);
}

proof fn lemma_mod_once(a: int, c: int)
    requires
        c <= a < 2 * c,
    ensures
        a % c == a - c,
{
    vstd::arithmetic::div_mod::lemma_mod_sub_multiples_vanish(a, c);
    lemma_mod_small(a - c, c);
}

proof fn lemma_offset(h: RingHeader, slot: int)
    requires
        h.record_size == 220,
    ensures
        slot_offset(h, slot) == 64 + 220 * slot,
        slot * h.record_size == 220 * slot,
{
    let size = h.record_size as int;
    assert(slot * size == 220 * slot) by (nonlinear_arith)
        requires
            size == 220,
    ;
}

proof fn lemma_packed_slot(s: Seq<AggregatedBucket>, slots: u32, k: int)
    requires
        0 <= k < s.len() <= slots,
    ensures
        slot_record(packed(s, slots), packed_header(s.len() as int, slots), k) == Some(s[k]),
{
    let h = packed_header(s.len() as int, slots);
    let img = packed(s, slots);
    lemma_header_len(h);
    lemma_packed_len(s);
    lemma_packed_records(s, k);
    law_record_roundtrip(s[k]);
    let from = slot_offset(h, k);
    let head = header_bytes(h);
    let body = all_record_bytes(s);
    lemma_offset(h, k);
    assert((head + body).subrange(from, from + 220) =~= body.subrange(220 * k, 220 * k + 220));
    reveal(slot_record);
}

/// A packed ring gives its records back.
pub proof fn law_packed_reads_back(s: Seq<AggregatedBucket>, slots: u32)
    requires
        slots > 0,
        s.len() <= slots,
    ensures
        ring_records(packed(s, slots), u32::MAX) == Some(s),
        ring_header(packed(s, slots)) == Some(packed_header(s.len() as int, slots)),
        packed(s, slots).len() == RING_HEADER_SIZE + RING_RECORD_SIZE * s.len(),
{
    let n = s.len() as int;
    let c = slots as int;
    let h = packed_header(n, slots);
    let img = packed(s, slots);
    lemma_header_len(h);
    lemma_packed_len(s);
    if n == c {
        lemma_mod_once(n, c);
    } else {
        lemma_mod_small(n, c);
    }
    assert(h.valid());
    law_header_roundtrip(h, all_record_bytes(s));
    lemma_offset(h, n);
    lemma_offset(h, c);
    assert(first_slot(h, n) == 0) by {
        if n == c {
            lemma_mod_small(0, c);
        } else {
            lemma_mod_once(c, c);
        }
    }
    assert forall|k: int| 0 <= k < s.len() implies slot_record(img, h, slot_after(h, 0, k)) == Some(
        #[trigger] s[k],
    ) by {
        lemma_mod_small(k, c);
        lemma_packed_slot(s, slots, k);
    }
    lemma_slots_pointwise(img, h, 0, s);
    assert(ring_header(img) == Some(h));
}

/// Fewer of the newest records are the newest of more.
pub proof fn law_limit_takes_newest(img: Seq<u8>, limit: u32)
    requires
        ring_records(img, u32::MAX) is Some,
    ensures
        ring_records(img, limit) == Some(newest(ring_records(img, u32::MAX)->0, limit as nat)),
{
    let h = ring_header(img)->0;
    let all = ring_records(img, u32::MAX)->0;
    let n = h.valid_count as int;
    let c = h.slot_count as int;
    let w = h.write_pos as int;
    let first = first_slot(h, n);
    lemma_slot_holds(img, h, first, n as nat);
    lemma_ring_valid(img);
    if limit < n {
        let m = limit as int;
        let part = newest(all, limit as nat);
        let start = first_slot(h, m);
        assert forall|k: int| 0 <= k < part.len() implies slot_record(
            img,
            h,
            slot_after(h, start, k),
        ) == Some(#[trigger] part[k]) by {
            let j = n - m + k;
            assert(slot_after(h, start, k) == slot_after(h, first, j)) by {
                vstd::arithmetic::div_mod::lemma_add_mod_noop(w + c - m, k, c);
                vstd::arithmetic::div_mod::lemma_add_mod_noop(w + c - n, j, c);
                vstd::arithmetic::div_mod::lemma_add_mod_noop(start, k, c);
                vstd::arithmetic::div_mod::lemma_add_mod_noop(first, j, c);
                vstd::arithmetic::div_mod::lemma_mod_twice(w + c - m, c);
                vstd::arithmetic::div_mod::lemma_mod_twice(w + c - n, c);
                assert(w + c - m + k == w + c - n + j);
            }
            assert(part[k] == all[j]);
        }
        lemma_slots_pointwise(img, h, start, part);
    }
}

/// No more records are read than are asked for.
pub(crate) proof fn lemma_records_len(img: Seq<u8>, limit: u32)
    requires
        ring_records(img, limit) is Some,
    ensures
        ring_records(img, limit)->0.len() <= limit,
{
    let h = ring_header(img)->0;
    let n = if h.valid_count < limit {
        h.valid_count
    } else {
        limit
    };
    lemma_slot_holds(img, h, first_slot(h, n as int), n as nat);
}

proof fn lemma_ring_valid(img: Seq<u8>)
    requires
        ring_header(img) is Some,
    ensures
        ring_header(img)->0.valid(),
{
}

/// Bringing a ring to another capacity, or to the current format, keeps its
/// newest records.
pub proof fn law_migration_keeps_newest(img: Seq<u8>, slots: u32, r: RingOpen)
    requires
        ring_records(img, u32::MAX) is Some,
        open_step(Some(img), slots, Ok(r)),
        r is Migrate,
    ensures
        ring_records(r->image@, u32::MAX) == Some(
            newest(ring_records(img, u32::MAX)->0, slots as nat),
        ),
        ring_header(r->image@) matches Some(h) && h.version == RING_VERSION && h.slot_count == slots,
{
    law_limit_takes_newest(img, slots);
    let s = newest(ring_records(img, u32::MAX)->0, slots as nat);
    law_packed_reads_back(s, slots);
}

proof fn lemma_write_elsewhere(img: Seq<u8>, offset: int, bytes: Seq<u8>, from: int, n: int)
    requires
        0 <= offset,
        0 <= from,
        0 <= n,
        from + n <= img.len(),
        from + n <= offset || offset + bytes.len() <= from,
    ensures
        from + n <= written(img, offset, bytes).len(),
        written(img, offset, bytes).subrange(from, from + n) == img.subrange(from, from + n),
{
    assert(written(img, offset, bytes).subrange(from, from + n) =~= img.subrange(from, from + n));
}

proof fn lemma_write_here(img: Seq<u8>, offset: int, bytes: Seq<u8>)
    requires
        0 <= offset,
    ensures
        offset + bytes.len() <= written(img, offset, bytes).len(),
        written(img, offset, bytes).subrange(offset, offset + bytes.len()) == bytes,
{
    assert(written(img, offset, bytes).subrange(offset, offset + bytes.len()) =~= bytes);
}

proof fn lemma_write_start(img: Seq<u8>, bytes: Seq<u8>)
    ensures
        written(img, 0, bytes) == bytes + written(img, 0, bytes).skip(bytes.len() as int),
{
    let after = written(img, 0, bytes);
    assert(after =~= bytes + after.skip(bytes.len() as int));
}

proof fn lemma_other_slot(img: Seq<u8>, h: RingHeader, b: AggregatedBucket, slot: int)
    requires
        h.valid(),
        h.version == RING_VERSION,
        0 <= slot < h.slot_count,
        slot != h.write_pos,
        slot_record(img, h, slot) is Some,
    ensures
        slot_record(appended(img, h, b), next_header(h), slot) == slot_record(img, h, slot),
{
    lemma_record_len(b);
    lemma_header_len(next_header(h));
    let record = record_bytes(b);
    let head = header_bytes(next_header(h));
    let at = slot_offset(h, h.write_pos as int);
    let from = slot_offset(h, slot);
    lemma_offset(h, h.write_pos as int);
    lemma_offset(h, slot);
    lemma_offset(next_header(h), slot);
    assert(from + 220 <= img.len()) by {
        reveal(slot_record);
    }
    lemma_write_elsewhere(img, at, record, from, 220);
    lemma_write_elsewhere(written(img, at, record), 0, head, from, 220);
    assert(slot_record(appended(img, h, b), next_header(h), slot) == slot_record(img, h, slot)) by {
        reveal(slot_record);
    }
}

proof fn lemma_written_slot(img: Seq<u8>, h: RingHeader, b: AggregatedBucket)
    requires
        h.valid(),
        h.version == RING_VERSION,
    ensures
        slot_record(appended(img, h, b), next_header(h), h.write_pos as int) == Some(b),
{
    lemma_record_len(b);
    lemma_header_len(next_header(h));
    let record = record_bytes(b);
    let head = header_bytes(next_header(h));
    let at = slot_offset(h, h.write_pos as int);
    lemma_offset(h, h.write_pos as int);
    lemma_offset(next_header(h), h.write_pos as int);
    lemma_write_here(img, at, record);
    lemma_write_elsewhere(written(img, at, record), 0, head, at, 220);
    law_record_roundtrip(b);
    reveal(slot_record);
}

pub(crate) proof fn lemma_appended_header(img: Seq<u8>, h: RingHeader, b: AggregatedBucket)
    requires
        ring_header(img) == Some(h),
        h.version == RING_VERSION,
        h.valid_count == 0 ==> h.write_pos == 0,
    ensures
        ring_header(appended(img, h, b)) == Some(next_header(h)),
        appended(img, h, b).len() == if img.len() > 64 + 220 * h.write_pos + 220 {
            img.len() as int
        } else {
            64 + 220 * h.write_pos + 220
        },
{
    let g = next_header(h);
    let c = h.slot_count as int;
    let w = h.write_pos as int;
    let at = slot_offset(h, w);
    let record = record_bytes(b);
    let head = header_bytes(g);
    lemma_ring_valid(img);
    lemma_ring_shape(img, h);
    lemma_record_len(b);
    lemma_header_len(g);
    if w + 1 < c {
        lemma_mod_small(w + 1, c);
    } else {
        lemma_mod_once(c, c);
    }
    assert(g.valid());
    let mid = written(img, at, record);
    let after = written(mid, 0, head);
    lemma_write_start(mid, head);
    law_header_roundtrip(g, after.skip(64));
    assert(header_of(after) == Ok::<RingHeader, RingError>(g));
    lemma_offset(h, w);
    lemma_offset(g, g.valid_count as int);
    lemma_offset(g, c);
    assert(after.len() == if img.len() > at + 220 {
        img.len() as int
    } else {
        at + 220
    });
    lemma_ring_len(img, h);
    assert(min_size(g) is Ok);
    assert(min_size(g)->Ok_0 <= after.len() <= total_size(g));
}

proof fn lemma_ring_len(img: Seq<u8>, h: RingHeader)
    requires
        ring_header(img) == Some(h),
        h.version == RING_VERSION,
    ensures
        h.valid_count == h.slot_count ==> img.len() == 64 + 220 * h.slot_count,
        64 + 220 * h.valid_count <= img.len() <= 64 + 220 * h.slot_count,
{
    lemma_ring_valid(img);
    lemma_offset(h, h.slot_count as int);
    lemma_offset(h, h.valid_count as int);
}

/// After a record is added a ring holds it behind the newest of the records that
/// it held, as many as it has slots for.
pub proof fn law_append_then_read(img: Seq<u8>, h: RingHeader, b: AggregatedBucket)
    requires
        ring_header(img) == Some(h),
        h.version == RING_VERSION,
        h.valid_count == 0 ==> h.write_pos == 0,
        ring_records(img, u32::MAX) is Some,
    ensures
        ring_records(appended(img, h, b), u32::MAX) == Some(
            newest(ring_records(img, u32::MAX)->0.push(b), h.slot_count as nat),
        ),
        ring_header(appended(img, h, b)) == Some(next_header(h)),
{
    let after = appended(img, h, b);
    let g = next_header(h);
    let all = ring_records(img, u32::MAX)->0;
    let n = h.valid_count as int;
    let c = h.slot_count as int;
    let w = h.write_pos as int;
    let first = first_slot(h, n);
    lemma_ring_valid(img);
    lemma_ring_shape(img, h);
    lemma_appended_header(img, h, b);
    lemma_slot_holds(img, h, first, n as nat);
    lemma_written_slot(img, h, b);
    let s = newest(all.push(b), c as nat);
    if n < c {
        assert(w == n);
        lemma_mod_once(c, c);
        assert(first == 0);
        assert(first_slot(g, n + 1) == 0) by {
            if n + 1 < c {
                lemma_mod_small(n + 1, c);
            } else {
                lemma_mod_small(0, c);
            }
        }
        assert(s =~= all.push(b));
        assert forall|k: int| 0 <= k < s.len() implies slot_record(after, g, slot_after(g, 0, k))
            == Some(#[trigger] s[k]) by {
            lemma_mod_small(k, c);
            assert(slot_after(h, first, k) == k);
            if k < n {
                assert(slot_record(img, h, slot_after(h, first, k)) == Some(all[k]));
                lemma_other_slot(img, h, b, k);
            }
        }
        lemma_slots_pointwise(after, g, 0, s);
        assert(g.valid_count == n + 1);
    } else {
        lemma_mod_small(w, c);
        assert(first == w);
        let v = g.write_pos as int;
        if w + 1 < c {
            lemma_mod_small(w + 1, c);
        } else {
            lemma_mod_once(c, c);
        }
        lemma_mod_small(v, c);
        assert(first_slot(g, c) == v);
        assert(s =~= all.push(b).skip(1));
        assert forall|k: int| 0 <= k < s.len() implies slot_record(after, g, slot_after(g, v, k))
            == Some(#[trigger] s[k]) by {
            let far = w + (k + 1);
            if far < c {
                lemma_mod_small(far, c);
            } else {
                lemma_mod_once(far, c);
            }
            if v + k < c {
                lemma_mod_small(v + k, c);
            } else {
                lemma_mod_once(v + k, c);
            }
            assert(slot_after(g, v, k) == slot_after(h, first, k + 1));
            if k < c - 1 {
                assert(slot_record(img, h, slot_after(h, first, k + 1)) == Some(all[k + 1]));
                lemma_other_slot(img, h, b, slot_after(h, first, k + 1));
            }
        }
        lemma_slots_pointwise(after, g, v, s);
        assert(g.valid_count == c);
    }
}

proof fn lemma_ring_shape(img: Seq<u8>, h: RingHeader)
    requires
        ring_header(img) == Some(h),
        h.valid_count == 0 ==> h.write_pos == 0,
    ensures
        h.valid_count < h.slot_count ==> h.write_pos == h.valid_count,
{
}

} // verus!
