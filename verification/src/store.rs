//! The files of complete hours: what is written when an hour ends, and what is
//! taken over at the start.
use crate::bucket::AggregatedBucket;
use crate::history::{HistogramHistory, HistogramModel, SeriesModel};
use crate::persistence::{
    classify_device_ring, classify_iface_ring, device_file_name, device_ring, hex_text, hours_added,
    iface_ring, joined_path, last_cut, mac_digits, readable_name, restore_records, ring_stem_of,
    PersistenceManager, RingFile, RingFileModel,
};
use crate::ring::{
    default_ring_header, header_bytes, header_of, law_header_roundtrip, new_header, read_ring_header,
    record_bytes, RingError, RingHeader, RING_HEADER_SIZE, RING_RECORD_SIZE, RING_VERSION,
};
use crate::ringfile::{
    append_ring_record, appended, law_append_then_read, law_packed_reads_back,
    lemma_appended_header, next_header, open_or_create_ring, open_step, packed, packed_header,
    read_ring_records, ring_header, ring_records, slot_offset, written, RingAppend, RingOpen,
};
use crate::series::newest;
use crate::topology::{InterfaceModel, TopologySnapshot};
use vstd::prelude::*;
use vstd::utf8::encode_utf8;

verus! {

/// What a file holds once it is open.
pub open spec fn image_after(open: RingOpen, img: Option<Seq<u8>>) -> Seq<u8> {
    match open {
        RingOpen::Create(f) => f@,
        RingOpen::Replace(f) => f@,
        RingOpen::Migrate { quarantine, image } => image@,
        RingOpen::Ready(_) => img->0,
    }
}

/// The bytes of an optional file.
pub open spec fn bytes_view(image: Option<&[u8]>) -> Option<Seq<u8>> {
    match image {
        Some(i) => Some(i@),
        None => None,
    }
}

/// What is to be done to add an hour to a file: open it, then write the record and
/// the header.
#[derive(Debug)]
pub struct RingUpdate {
    pub path: String,
    pub open: RingOpen,
    pub append: RingAppend,
}

impl RingUpdate {
    /// Adds the hour to what the file holds once it is open.
    pub open spec fn adds(self, img: Option<Seq<u8>>, slots: u32, bucket: AggregatedBucket) -> bool {
        let base = image_after(self.open, img);
        &&& open_step(img, slots, Ok(self.open))
        &&& header_of(base) is Ok
        &&& self.append.offset == slot_offset(header_of(base)->Ok_0, header_of(base)->Ok_0.write_pos as int)
        &&& self.append.record@ == record_bytes(bucket)
        &&& self.append.header@ == header_bytes(next_header(header_of(base)->Ok_0))
    }

    /// What the file holds afterwards.
    pub open spec fn image(self, img: Option<Seq<u8>>) -> Seq<u8> {
        written(
            written(image_after(self.open, img), self.append.offset as int, self.append.record@),
            0,
            self.append.header@,
        )
    }
}

/// Why an hour is not added.
#[derive(Clone, Copy, Debug, PartialEq, Eq, Structural)]
pub enum StoreError {
    /// The text is no hardware address.
    Mac,
    /// The file's capacity or size is out of range.
    Ring(RingError),
}

proof fn lemma_fresh(slots: u32)
    requires
        slots > 0,
    ensures
        header_of(header_bytes(new_header(slots))) == Ok::<RingHeader, RingError>(
            new_header(slots),
        ),
        header_bytes(new_header(slots)) == packed(Seq::empty(), slots),
        new_header(slots).valid(),
{
    let h = new_header(slots);
    assert(h.valid());
    law_header_roundtrip(h, Seq::empty());
    assert(header_bytes(h) + Seq::<u8>::empty() =~= header_bytes(h));
    let none: Seq<AggregatedBucket> = Seq::empty();
    vstd::arithmetic::div_mod::lemma_small_mod(0, slots as nat);
    assert(packed_header(0, slots) == h);
    assert(crate::ringfile::all_record_bytes(none) =~= Seq::<u8>::empty());
}

fn update_ring(path: String, image: Option<&[u8]>, slots: u32, bucket: &AggregatedBucket) -> (r: Result<
    RingUpdate,
    StoreError,
>)
    requires
        slots > 0,
    ensures
        match r {
            Ok(u) => u.path@ == path@ && u.adds(bytes_view(image), slots, *bucket),
            Err(e) => e matches StoreError::Ring(f) && open_step(bytes_view(image), slots, Err(f)),
        },
{
    let ghost img = bytes_view(image);
    let open = match open_or_create_ring(image, slots) {
        Ok(o) => o,
        Err(e) => return Err(StoreError::Ring(e)),
    };
    proof {
        lemma_fresh(slots);
    }
    let header = match &open {
        RingOpen::Create(_) => default_ring_header(slots),
        RingOpen::Replace(_) => default_ring_header(slots),
        RingOpen::Migrate { quarantine: _, image } => {
            proof {
                let h = header_of(img->0)->Ok_0;
                match ring_records(img->0, slots) {
                    Some(s) => {
                        crate::ringfile::lemma_records_len(img->0, slots);
                        law_packed_reads_back(s, slots);
                    },
                    None => {
                        law_packed_reads_back(Seq::empty(), slots);
                    },
                }
            }
            match read_ring_header(image.as_slice()) {
                Ok(h) => h,
                Err(_) => default_ring_header(slots),
            }
        },
        RingOpen::Ready(h) => *h,
    };
    assert(header_of(image_after(open, img)) == Ok::<RingHeader, RingError>(header));
    assert(header.valid());
    let append = append_ring_record(&header, bucket);
    Ok(RingUpdate { path, open, append })
}

impl PersistenceManager {
    /// What is to be done to add an hour of an interface to its file, given what
    /// the file holds.
    pub fn append_iface_bucket(
        &self,
        iface_name: &str,
        bucket: &AggregatedBucket,
        image: Option<&[u8]>,
    ) -> (r: Result<RingUpdate, StoreError>)
        requires
            self.wf(),
        ensures
            match r {
                Ok(u) => u.path@ == joined_path(
                    self.iface_traffic_dir@,
                    hex_text(encode_utf8(iface_name@)) + ".ring"@,
                ) && u.adds(bytes_view(image), self.ring_slots, *bucket),
                Err(e) => e matches StoreError::Ring(f) && open_step(
                    bytes_view(image),
                    self.ring_slots,
                    Err(f),
                ),
            },
    {
        update_ring(self.iface_ring_path(iface_name), image, self.ring_slots, bucket)
    }

    /// What is to be done to add an hour of a device to its file, given what the
    /// file holds.
    pub fn append_device_bucket(
        &self,
        iface_name: &str,
        mac: &str,
        bucket: &AggregatedBucket,
        image: Option<&[u8]>,
    ) -> (r: Result<RingUpdate, StoreError>)
        requires
            self.wf(),
        ensures
            match mac_digits(mac@) {
                None => r == Err::<RingUpdate, StoreError>(StoreError::Mac),
                Some(d) => match r {
                    Ok(u) => u.path@ == joined_path(
                        self.device_traffic_dir@,
                        device_file_name(iface_name@, d),
                    ) && u.adds(bytes_view(image), self.ring_slots, *bucket),
                    Err(e) => e matches StoreError::Ring(f) && open_step(
                        bytes_view(image),
                        self.ring_slots,
                        Err(f),
                    ),
                },
            },
    {
        match self.device_ring_path(iface_name, mac) {
            Ok(path) => update_ring(path, image, self.ring_slots, bucket),
            Err(_) => Err(StoreError::Mac),
        }
    }
}

proof fn lemma_opened(open: RingOpen, img: Option<Seq<u8>>, slots: u32)
    requires
        slots > 0,
        open_step(img, slots, Ok(open)),
        open !is Ready,
    ensures
        ring_records(image_after(open, img), u32::MAX) is Some,
        ring_header(image_after(open, img)) matches Some(h) && h.slot_count == slots && h.version
            == RING_VERSION && (h.valid_count == 0 ==> h.write_pos == 0),
        open is Create || open is Replace ==> ring_records(image_after(open, img), u32::MAX)
            == Some(Seq::<AggregatedBucket>::empty()),
{
    lemma_fresh(slots);
    vstd::arithmetic::div_mod::lemma_small_mod(0, slots as nat);
    law_packed_reads_back(Seq::empty(), slots);
    if open is Migrate {
        if let Some(s) = ring_records(img->0, slots) {
            crate::ringfile::lemma_records_len(img->0, slots);
            law_packed_reads_back(s, slots);
        }
    }
}

/// A file after an hour was added holds the newest hours of what it held, with the
/// new one at their end. A file that was no ring starts anew. An empty ring has to
/// start at its first slot.
pub proof fn law_added_hour_is_kept(
    u: RingUpdate,
    img: Option<Seq<u8>>,
    slots: u32,
    bucket: AggregatedBucket,
)
    requires
        u.adds(img, slots, bucket),
        slots > 0,
        u.open matches RingOpen::Ready(h) ==> ring_records(img->0, u32::MAX) is Some && (
        h.valid_count == 0 ==> h.write_pos == 0),
    ensures
        ring_records(image_after(u.open, img), u32::MAX) is Some,
        ring_records(u.image(img), u32::MAX) == Some(
            newest(
                ring_records(image_after(u.open, img), u32::MAX)->0.push(bucket),
                slots as nat,
            ),
        ),
        u.open is Create || u.open is Replace ==> ring_records(
            image_after(u.open, img),
            u32::MAX,
        ) == Some(Seq::<AggregatedBucket>::empty()),
{
    let base = image_after(u.open, img);
    if u.open !is Ready {
        lemma_opened(u.open, img, slots);
    }
    let h = header_of(base)->Ok_0;
    assert(ring_header(base) == Some(h));
    assert(h.slot_count == slots);
    assert(h.version == RING_VERSION);
    law_append_then_read(base, h, bucket);
    assert(u.image(img) == appended(base, h, bucket));
}

/// What a file that was not there holds after hours were added one after the other.
pub open spec fn file_after(us: Seq<RingUpdate>) -> Option<Seq<u8>>
    decreases us.len(),
{
    if us.len() == 0 {
        None
    } else {
        Some(us.last().image(file_after(us.drop_last())))
    }
}

/// Each update adds its hour to what those before it left.
pub open spec fn add_in_turn(us: Seq<RingUpdate>, hours: Seq<AggregatedBucket>, slots: u32) -> bool {
    &&& us.len() == hours.len()
    &&& forall|i: int|
        0 <= i < us.len() ==> (#[trigger] us[i]).adds(file_after(us.take(i)), slots, hours[i])
}

proof fn lemma_newest_again<T>(s: Seq<T>, x: T, n: nat)
    requires
        n > 0,
    ensures
        newest(newest(s, n).push(x), n) == newest(s.push(x), n),
{
    assert(newest(newest(s, n).push(x), n) =~= newest(s.push(x), n));
}

/// Whether a file is the ring that hours leave, one after the other, from an empty one.
#[verifier::opaque]
spec fn is_ring_of(img: Seq<u8>, hours: Seq<AggregatedBucket>, slots: u32) -> bool {
    let n = hours.len() as int;
    let kept = if n < slots {
        n
    } else {
        slots as int
    };
    &&& ring_records(img, u32::MAX) == Some(newest(hours, slots as nat))
    &&& img.len() == RING_HEADER_SIZE + RING_RECORD_SIZE * kept
    &&& ring_header(img) matches Some(h) && h.version == RING_VERSION && h.slot_count == slots
        && h.valid_count == kept && h.write_pos == n % (slots as int)
}

proof fn lemma_one_more_hour(img: Seq<u8>, hours: Seq<AggregatedBucket>, slots: u32, b: AggregatedBucket)
    requires
        slots > 0,
        is_ring_of(img, hours, slots),
    ensures
        is_ring_of(appended(img, ring_header(img)->0, b), hours.push(b), slots),
{
    reveal(is_ring_of);
    let h = ring_header(img)->0;
    let n = hours.len() as int;
    let c = slots as int;
    if n < c {
        vstd::arithmetic::div_mod::lemma_small_mod(n as nat, c as nat);
    }
    vstd::arithmetic::div_mod::lemma_mod_bound(n, c);
    vstd::arithmetic::div_mod::lemma_mod_bound(n + 1, c);
    vstd::arithmetic::div_mod::lemma_add_mod_noop(n, 1, c);
    vstd::arithmetic::div_mod::lemma_add_mod_noop(n % c, 1, c);
    vstd::arithmetic::div_mod::lemma_mod_twice(n, c);
    assert((n % c + 1) % c == (n + 1) % c);
    law_append_then_read(img, h, b);
    lemma_appended_header(img, h, b);
    lemma_newest_again(hours, b, slots as nat);
}

proof fn lemma_first_hour(open: RingOpen, slots: u32)
    requires
        slots > 0,
        open_step(None, slots, Ok(open)),
    ensures
        is_ring_of(image_after(open, None), Seq::empty(), slots),
{
    reveal(is_ring_of);
    lemma_opened(open, None, slots);
    lemma_fresh(slots);
    law_packed_reads_back(Seq::empty(), slots);
    vstd::arithmetic::div_mod::lemma_small_mod(0, slots as nat);
}

proof fn lemma_next_hour(
    u: RingUpdate,
    img: Option<Seq<u8>>,
    before: Seq<AggregatedBucket>,
    slots: u32,
    b: AggregatedBucket,
)
    requires
        slots > 0,
        u.adds(img, slots, b),
        match img {
            Some(i) => is_ring_of(i, before, slots),
            None => before.len() == 0,
        },
    ensures
        is_ring_of(u.image(img), before.push(b), slots),
{
    let base = image_after(u.open, img);
    assert(is_ring_of(base, before, slots) && ring_header(base) == Some(header_of(base)->Ok_0)) by {
        match img {
            Some(i) => {
                reveal(is_ring_of);
            },
            None => {
                lemma_first_hour(u.open, slots);
                assert(before =~= Seq::empty());
                reveal(is_ring_of);
            },
        }
    }
    lemma_one_more_hour(base, before, slots, b);
    assert(u.image(img) == appended(base, ring_header(base)->0, b));
}

proof fn lemma_hours_in_turn(us: Seq<RingUpdate>, hours: Seq<AggregatedBucket>, slots: u32)
    requires
        slots > 0,
        us.len() > 0,
        add_in_turn(us, hours, slots),
    ensures
        is_ring_of(file_after(us)->0, hours, slots),
    decreases us.len(),
{
    let n = us.len() - 1;
    let vs = us.drop_last();
    let before = hours.drop_last();
    assert(us.take(n) =~= vs);
    assert(us[n].adds(file_after(us.take(n)), slots, hours[n]));
    if n > 0 {
        assert forall|i: int| 0 <= i < vs.len() implies (#[trigger] vs[i]).adds(
            file_after(vs.take(i)),
            slots,
            before[i],
        ) by {
            assert(vs.take(i) =~= us.take(i));
            assert(us[i].adds(file_after(us.take(i)), slots, hours[i]));
        }
        lemma_hours_in_turn(vs, before, slots);
    }
    lemma_next_hour(us.last(), file_after(vs), before, slots, hours.last());
    assert(before.push(hours.last()) =~= hours);
}

/// After any number of hours were added to a file that was not there, reading it
/// gives the newest of them in their order, as many as it has slots for. The file
/// holds a header and those records and no more. A further hour goes into it as it is,
/// and after a restart those hours are taken over from it.
pub proof fn law_added_hours_are_read(
    us: Seq<RingUpdate>,
    hours: Seq<AggregatedBucket>,
    slots: u32,
    r: Result<RingOpen, RingError>,
)
    requires
        slots > 0,
        us.len() > 0,
        add_in_turn(us, hours, slots),
    ensures
        ring_records(file_after(us)->0, u32::MAX) == Some(newest(hours, slots as nat)),
        file_after(us)->0.len() == RING_HEADER_SIZE + RING_RECORD_SIZE * newest(
            hours,
            slots as nat,
        ).len(),
        open_step(file_after(us), slots, r) ==> (r matches Ok(open) && open is Ready),
        hours_in(file_after(us)->0, slots) == newest(hours, slots as nat),
{
    lemma_hours_in_turn(us, hours, slots);
    reveal(is_ring_of);
}

/// A file among the rings: its name and what it holds.
#[derive(Debug)]
pub struct StoredFile {
    pub name: String,
    pub bytes: Vec<u8>,
}

/// What is to be done with a file when it is taken over.
#[derive(Debug)]
pub enum FileStep {
    /// Nothing: it is none of ours.
    Skip,
    /// Put it aside: its name or its records cannot be read.
    Quarantine,
    /// Nothing: its hours were taken over.
    Keep,
    /// Write this in its place, with the old one put aside where that is said; its
    /// hours were taken over.
    Rewrite { quarantine: bool, image: Vec<u8> },
}

/// What is to be done with a file that holds hours.
#[verifier::opaque]
pub open spec fn step_for(img: Seq<u8>, slots: u32, step: Result<FileStep, RingError>) -> bool {
    match step {
        Err(e) => open_step(Some(img), slots, Err(e)),
        Ok(FileStep::Skip) => false,
        Ok(FileStep::Keep) => {
            &&& exists|h: RingHeader| #[trigger] open_step(Some(img), slots, Ok(RingOpen::Ready(h)))
            &&& ring_records(img, u32::MAX) is Some
        },
        Ok(FileStep::Quarantine) => {
            &&& exists|h: RingHeader| #[trigger] open_step(Some(img), slots, Ok(RingOpen::Ready(h)))
            &&& ring_records(img, u32::MAX) is None
        },
        Ok(FileStep::Rewrite { quarantine, image }) => {
            ||| quarantine && open_step(Some(img), slots, Ok(RingOpen::Replace(image)))
            ||| open_step(Some(img), slots, Ok(RingOpen::Migrate { quarantine, image }))
        },
    }
}

/// The hours in a file once it has the right capacity: the newest of a readable
/// one, none of another.
pub open spec fn hours_in(img: Seq<u8>, slots: u32) -> Seq<AggregatedBucket> {
    match ring_header(img) {
        None => Seq::empty(),
        Some(h) => match ring_records(
            img,
            if h.version == 1 || h.slot_count != slots {
                slots
            } else {
                u32::MAX
            },
        ) {
            Some(s) => s,
            None => Seq::empty(),
        },
    }
}

fn load_ring(img: &[u8], slots: u32) -> (r: Result<(FileStep, Vec<AggregatedBucket>), RingError>)
    requires
        slots > 0,
    ensures
        match r {
            Ok((step, hours)) => step_for(img@, slots, Ok(step)) && hours@ == hours_in(img@, slots),
            Err(e) => step_for(img@, slots, Err(e)),
        },
{
    proof {
        reveal(step_for);
    }
    let open = match open_or_create_ring(Some(img), slots) {
        Ok(o) => o,
        Err(e) => return Err(e),
    };
    let none: Vec<AggregatedBucket> = Vec::new();
    assert(none@ =~= Seq::empty());
    match open {
        RingOpen::Create(_) => {
            assert(false);
            Ok((FileStep::Skip, none))
        },
        RingOpen::Replace(image) => Ok((FileStep::Rewrite { quarantine: true, image }, none)),
        RingOpen::Migrate { quarantine, image } => {
            proof {
                match ring_records(img@, slots) {
                    Some(s) => {
                        crate::ringfile::lemma_records_len(img@, slots);
                        law_packed_reads_back(s, slots);
                    },
                    None => {
                        law_packed_reads_back(Seq::empty(), slots);
                    },
                }
            }
            let hours = match read_ring_records(image.as_slice()) {
                Some(v) => v,
                None => none,
            };
            assert(hours@ =~= hours_in(img@, slots));
            Ok((FileStep::Rewrite { quarantine, image }, hours))
        },
        RingOpen::Ready(h) => {
            assert(open_step(Some(img@), slots, Ok(RingOpen::Ready(h))));
            match read_ring_records(img) {
                Some(v) => Ok((FileStep::Keep, v)),
                None => Ok((FileStep::Quarantine, none)),
            }
        },
    }
}

/// Whether the name of a file can be looked at.
pub open spec fn readable_file(name: Seq<char>, devices: bool) -> bool {
    ring_stem_of(name) matches Some(stem) ==> if devices {
        last_cut(stem, '-') matches Some((a, _)) ==> readable_name(a)
    } else {
        readable_name(stem)
    }
}

/// What a file's name says of it.
pub open spec fn file_kind(name: Seq<char>, devices: bool, topology: Seq<InterfaceModel>) -> RingFileModel {
    if devices {
        device_ring(name, topology)
    } else {
        iface_ring(name, topology)
    }
}

/// What is to be done with a file.
pub open spec fn step_of(
    f: StoredFile,
    devices: bool,
    topology: Seq<InterfaceModel>,
    slots: u32,
    step: Result<FileStep, RingError>,
) -> bool {
    match file_kind(f.name@, devices, topology) {
        RingFileModel::Skip => step == Ok::<FileStep, RingError>(FileStep::Skip),
        RingFileModel::Quarantine => step == Ok::<FileStep, RingError>(FileStep::Quarantine),
        RingFileModel::Load { ifindex, mac } => step_for(f.bytes@, slots, step),
    }
}

/// The hours with those of an interface, or of a device on it, added.
pub open spec fn with_hours(
    h: HistogramModel,
    ifindex: u32,
    mac: Option<Seq<char>>,
    records: Seq<AggregatedBucket>,
) -> HistogramModel {
    match mac {
        None => HistogramModel {
            iface: SeriesModel {
                completed: hours_added(h.iface.completed, ifindex, records, h.capacity),
                ..h.iface
            },
            ..h
        },
        Some(m) => HistogramModel {
            device: SeriesModel {
                completed: hours_added(h.device.completed, (ifindex, m), records, h.capacity),
                ..h.device
            },
            ..h
        },
    }
}

/// The hours with those of files added.
pub open spec fn with_files(
    h: HistogramModel,
    files: Seq<StoredFile>,
    devices: bool,
    topology: Seq<InterfaceModel>,
    slots: u32,
) -> HistogramModel
    decreases files.len(),
{
    if files.len() == 0 {
        h
    } else {
        let before = with_files(h, files.drop_last(), devices, topology, slots);
        match file_kind(files.last().name@, devices, topology) {
            RingFileModel::Load { ifindex, mac } => with_hours(
                before,
                ifindex,
                mac,
                hours_in(files.last().bytes@, slots),
            ),
            _ => before,
        }
    }
}

/// What is to be done with files, one after the other, up to one whose size is out
/// of range.
#[derive(Debug)]
pub struct LoadPlan {
    pub steps: Vec<FileStep>,
    pub failed: Option<RingError>,
}

impl LoadPlan {
    /// Each file has its step, up to the first that fails.
    pub open spec fn covers(
        self,
        files: Seq<StoredFile>,
        devices: bool,
        topology: Seq<InterfaceModel>,
        slots: u32,
    ) -> bool {
        &&& self.steps@.len() <= files.len()
        &&& forall|i: int|
            0 <= i < self.steps@.len() ==> step_of(
                files[i],
                devices,
                topology,
                slots,
                Ok(#[trigger] self.steps@[i]),
            )
        &&& match self.failed {
            None => self.steps@.len() == files.len(),
            Some(e) => self.steps@.len() < files.len() && step_of(
                files[self.steps@.len() as int],
                devices,
                topology,
                slots,
                Err(e),
            ),
        }
    }
}

fn load_file(
    f: &StoredFile,
    devices: bool,
    topology: &TopologySnapshot,
    slots: u32,
    histogram: &mut HistogramHistory,
) -> (r: Result<FileStep, RingError>)
    requires
        slots > 0,
        old(histogram).wf(),
        readable_file(f.name@, devices),
    ensures
        final(histogram).wf(),
        step_of(*f, devices, topology@, slots, r),
        r is Err ==> *final(histogram) == *old(histogram),
        r is Ok ==> final(histogram)@ == match file_kind(f.name@, devices, topology@) {
            RingFileModel::Load { ifindex, mac } => with_hours(
                old(histogram)@,
                ifindex,
                mac,
                hours_in(f.bytes@, slots),
            ),
            _ => old(histogram)@,
        },
{
    let kind = if devices {
        classify_device_ring(f.name.as_str(), topology)
    } else {
        classify_iface_ring(f.name.as_str(), topology)
    };
    assert(kind@ == file_kind(f.name@, devices, topology@));
    match kind {
        RingFile::Skip => Ok(FileStep::Skip),
        RingFile::Quarantine => Ok(FileStep::Quarantine),
        RingFile::Load { ifindex, mac } => match load_ring(f.bytes.as_slice(), slots) {
            Ok((step, hours)) => {
                match mac {
                    Some(m) => restore_records(histogram, ifindex, Some(m.as_str()), &hours),
                    None => restore_records(histogram, ifindex, None, &hours),
                }
                Ok(step)
            },
            Err(e) => Err(e),
        },
    }
}

fn load_files(
    files: &Vec<StoredFile>,
    devices: bool,
    topology: &TopologySnapshot,
    slots: u32,
    histogram: &mut HistogramHistory,
) -> (r: LoadPlan)
    requires
        slots > 0,
        old(histogram).wf(),
        forall|i: int| 0 <= i < files@.len() ==> readable_file((#[trigger] files@[i]).name@, devices),
    ensures
        final(histogram).wf(),
        r.covers(files@, devices, topology@, slots),
        final(histogram)@ == with_files(
            old(histogram)@,
            files@.take(r.steps@.len() as int),
            devices,
            topology@,
            slots,
        ),
{
    let ghost h = histogram@;
    let mut steps: Vec<FileStep> = Vec::new();
    let mut i: usize = 0;
    assert(files@.take(0) =~= Seq::empty());
    while i < files.len()
        invariant
            i <= files@.len(),
            slots > 0,
            h == old(histogram)@,
            histogram.wf(),
            forall|j: int|
                0 <= j < files@.len() ==> readable_file((#[trigger] files@[j]).name@, devices),
            steps@.len() == i,
            forall|j: int|
                0 <= j < i ==> step_of(
                    files@[j],
                    devices,
                    topology@,
                    slots,
                    Ok(#[trigger] steps@[j]),
                ),
            histogram@ == with_files(h, files@.take(i as int), devices, topology@, slots),
        decreases files@.len() - i,
    {
        assert(files@.take(i + 1).drop_last() =~= files@.take(i as int));
        match load_file(&files[i], devices, topology, slots, histogram) {
            Ok(step) => {
                let ghost before = steps@;
                steps.push(step);
                assert forall|j: int| 0 <= j < i + 1 implies step_of(
                    files@[j],
                    devices,
                    topology@,
                    slots,
                    Ok(#[trigger] steps@[j]),
                ) by {
                    if j < i {
                        assert(steps@[j] == before[j]);
                    }
                }
            },
            Err(e) => {
                return LoadPlan { steps, failed: Some(e) };
            },
        }
        i += 1;
    }
    LoadPlan { steps, failed: None }
}

impl PersistenceManager {
    /// Takes over the hours in the files of interfaces.
    pub fn load_iface_histogram(
        &self,
        topology: &TopologySnapshot,
        histogram: &mut HistogramHistory,
        files: &Vec<StoredFile>,
    ) -> (r: LoadPlan)
        requires
            self.wf(),
            old(histogram).wf(),
            forall|i: int| 0 <= i < files@.len() ==> readable_file((#[trigger] files@[i]).name@, false),
        ensures
            final(histogram).wf(),
            r.covers(files@, false, topology@, self.ring_slots),
            final(histogram)@ == with_files(
                old(histogram)@,
                files@.take(r.steps@.len() as int),
                false,
                topology@,
                self.ring_slots,
            ),
    {
        load_files(files, false, topology, self.ring_slots, histogram)
    }

    /// Takes over the hours in the files of devices.
    pub fn load_device_histogram(
        &self,
        topology: &TopologySnapshot,
        histogram: &mut HistogramHistory,
        files: &Vec<StoredFile>,
    ) -> (r: LoadPlan)
        requires
            self.wf(),
            old(histogram).wf(),
            forall|i: int| 0 <= i < files@.len() ==> readable_file((#[trigger] files@[i]).name@, true),
        ensures
            final(histogram).wf(),
            r.covers(files@, true, topology@, self.ring_slots),
            final(histogram)@ == with_files(
                old(histogram)@,
                files@.take(r.steps@.len() as int),
                true,
                topology@,
                self.ring_slots,
            ),
    {
        load_files(files, true, topology, self.ring_slots, histogram)
    }

    /// Takes over the hours in all files: those of interfaces, and those of devices
    /// unless one of the first failed.
    pub fn load_histogram(
        &self,
        topology: &TopologySnapshot,
        histogram: &mut HistogramHistory,
        iface_files: &Vec<StoredFile>,
        device_files: &Vec<StoredFile>,
    ) -> (r: (LoadPlan, Option<LoadPlan>))
        requires
            self.wf(),
            old(histogram).wf(),
            forall|i: int|
                0 <= i < iface_files@.len() ==> readable_file(
                    (#[trigger] iface_files@[i]).name@,
                    false,
                ),
            forall|i: int|
                0 <= i < device_files@.len() ==> readable_file(
                    (#[trigger] device_files@[i]).name@,
                    true,
                ),
        ensures
            final(histogram).wf(),
            r.0.covers(iface_files@, false, topology@, self.ring_slots),
            r.1 is Some <==> r.0.failed is None,
            r.1 matches Some(p) ==> p.covers(device_files@, true, topology@, self.ring_slots),
            final(histogram)@ == ({
                let h = with_files(
                    old(histogram)@,
                    iface_files@.take(r.0.steps@.len() as int),
                    false,
                    topology@,
                    self.ring_slots,
                );
                match r.1 {
                    Some(p) => with_files(
                        h,
                        device_files@.take(p.steps@.len() as int),
                        true,
                        topology@,
                        self.ring_slots,
                    ),
                    None => h,
                }
            }),
    {
        let first = self.load_iface_histogram(topology, histogram, iface_files);
        if first.failed.is_some() {
            return (first, None);
        }
        let second = self.load_device_histogram(topology, histogram, device_files);
        (first, Some(second))
    }
}

} // verus!
