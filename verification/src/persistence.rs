//! Where things are kept over a restart, and what of them is taken over again.
use crate::bucket::AggregatedBucket;
use crate::clock::{hourly_bucket_local, in_calendar, is_bucket_of};
use crate::history::{
    lists_devices, lists_ifaces, CurrentHourDeviceState, CurrentHourIfaceState, HistogramHistory,
    HistogramModel, SeriesModel,
};
use crate::mac::lemma_hex2;
use crate::number::{dec, decimal, digit_char, hex2, parse_unsigned, parsed, push_hex2};
use crate::runtime::{
    all_persisted, export_runtime_state, import_runtime_state, imported, known_by, persisted_views,
    MonitorRuntime, MonitorRuntimeState,
};
use crate::series::extended;
use crate::sort::{ordered, Ranked};
use crate::snapshot::DeviceSeriesKey;
use crate::system::is_hex_digit;
use crate::text::{
    chars_of, concat, copy_text, lower_char, lowered, text_eq, text_from_utf8, text_of,
    text_range, to_ascii_lowercase, trimmed,
};
use crate::topology::{find_index, find_name, named_index, InterfaceModel, TopologySnapshot};
use vstd::prelude::*;
use vstd::utf8::{decode_utf8, encode_utf8, valid_utf8};

verus! {

pub const DEVICES_SCHEMA_VERSION: u32 = 1;

pub const CURRENT_HOUR_SCHEMA_VERSION: u32 = 2;

/// Why something could not be kept or taken over.
#[derive(Clone, Copy, Debug, PartialEq, Eq, Structural)]
pub enum PersistError {
    /// The days of history are not between 1 and 90.
    RingDays,
    /// A hardware address has no twelve hexadecimal digits.
    Mac,
    /// What was kept has another version.
    Schema(u32),
}

/// A path with one more part.
pub open spec fn joined_path(base: Seq<char>, name: Seq<char>) -> Seq<char> {
    if base.len() == 0 || base.last() == '/' {
        base + name
    } else {
        base + seq!['/'] + name
    }
}

/// A path with one more part, which is relative.
pub fn join_path(base: &str, name: &str) -> (r: String)
    ensures
        r@ == joined_path(base@, name@),
{
    let cs = chars_of(base);
    let mut out = copy_text(base);
    if cs.len() > 0 && cs[cs.len() - 1] != '/' {
        out.push('/');
        out.push_str(name);
        assert(out@ =~= base@ + seq!['/'] + name@);
    } else {
        out.push_str(name);
    }
    out
}

/// The digits of bytes, two for each.
pub open spec fn hex_text(bytes: Seq<u8>) -> Seq<char>
    decreases bytes.len(),
{
    if bytes.len() == 0 {
        Seq::empty()
    } else {
        hex_text(bytes.drop_last()) + hex2(bytes.last())
    }
}

/// A name as part of a file's name: the hexadecimal digits of its bytes.
pub fn encode_component(input: &str) -> (r: String)
    ensures
        r@ == hex_text(encode_utf8(input@)),
{
    let bytes = input.as_bytes();
    let mut out = String::new();
    let mut i: usize = 0;
    assert(bytes@.take(0) =~= Seq::empty());
    assert(out@ =~= Seq::empty());
    while i < bytes.len()
        invariant
            i <= bytes@.len(),
            out@ == hex_text(bytes@.take(i as int)),
        decreases bytes@.len() - i,
    {
        assert(bytes@.take(i + 1).drop_last() =~= bytes@.take(i as int));
        push_hex2(&mut out, bytes[i]);
        i += 1;
    }
    assert(bytes@.take(i as int) =~= bytes@);
    out
}

/// The bytes that pairs of digits tell, as far as all can be read.
pub open spec fn hex_bytes(s: Seq<char>) -> Option<Seq<u8>>
    decreases s.len(),
{
    if s.len() < 2 {
        Some(Seq::empty())
    } else {
        match (hex_bytes(s.take(s.len() - 2)), parsed(s.skip(s.len() - 2), 16, 255)) {
            (Some(b), Some(v)) => Some(b.push(v as u8)),
            _ => None,
        }
    }
}

/// The name that a part of a file's name stands for.
pub open spec fn component_of(s: Seq<char>) -> Option<Seq<char>> {
    if s.len() == 0 || encode_utf8(s).len() % 2 != 0 {
        None
    } else {
        match hex_bytes(s) {
            Some(b) => if valid_utf8(b) {
                Some(decode_utf8(b))
            } else {
                None
            },
            None => None,
        }
    }
}

proof fn lemma_hex_bytes_none(s: Seq<char>, i: int)
    requires
        0 <= i <= s.len(),
        i % 2 == 0,
        s.len() % 2 == 0,
        hex_bytes(s.take(i)) is None,
    ensures
        hex_bytes(s) is None,
    decreases s.len() - i,
{
    if i == s.len() {
        assert(s.take(i) =~= s);
    } else {
        let t = s.take(i + 2);
        assert(t.take(t.len() - 2) =~= s.take(i));
        lemma_hex_bytes_none(s, i + 2);
    }
}

/// The name that a part of a file's name stands for. A text of an even number of
/// bytes has an even number of characters here.
pub fn decode_component(hex: &str) -> (r: Option<String>)
    requires
        encode_utf8(hex@).len() % 2 == 0 ==> hex@.len() % 2 == 0,
    ensures
        match r {
            Some(s) => component_of(hex@) == Some(s@),
            None => component_of(hex@) is None,
        },
{
    let cs = chars_of(hex);
    if cs.len() == 0 || hex.as_bytes().len() % 2 != 0 {
        return None;
    }
    let ghost s = hex@;
    let mut bytes: Vec<u8> = Vec::new();
    let mut i: usize = 0;
    assert(bytes@ =~= Seq::empty());
    while i < cs.len()
        invariant
            i <= cs@.len(),
            i % 2 == 0,
            cs@.len() % 2 == 0,
            cs@ == s,
            s == hex@,
            hex_bytes(s.take(i as int)) == Some(bytes@),
        decreases cs@.len() - i,
    {
        let pair = text_range(&cs, i, i + 2);
        let ghost t = s.take(i + 2);
        assert(t.take(t.len() - 2) =~= s.take(i as int));
        assert(t.skip(t.len() - 2) =~= pair@);
        match parse_unsigned(pair.as_str(), 16, 255) {
            Some(v) => {
                bytes.push(v as u8);
            },
            None => {
                proof {
                    lemma_hex_bytes_none(s, i + 2);
                }
                return None;
            },
        }
        i += 2;
    }
    assert(s.take(i as int) =~= s);
    text_from_utf8(bytes)
}

proof fn lemma_hex_text(bytes: Seq<u8>)
    ensures
        hex_text(bytes).len() == 2 * bytes.len(),
        hex_bytes(hex_text(bytes)) == Some(bytes),
        forall|i: int| 0 <= i < hex_text(bytes).len() ==> (#[trigger] hex_text(bytes)[i] as u32) < 128,
    decreases bytes.len(),
{
    let s = hex_text(bytes);
    if bytes.len() == 0 {
        assert(bytes =~= Seq::empty());
    } else {
        lemma_hex_text(bytes.drop_last());
        lemma_hex2(bytes.last());
        let t = hex_text(bytes.drop_last());
        assert(s.take(s.len() - 2) =~= t);
        assert(s.skip(s.len() - 2) =~= hex2(bytes.last()));
        assert(bytes.drop_last().push(bytes.last()) =~= bytes);
        let b = bytes.last() as int;
        assert((digit_char(b / 16) as u32) < 128);
        assert((digit_char(b % 16) as u32) < 128);
    }
}

proof fn lemma_ascii_len(s: Seq<char>)
    requires
        forall|i: int| 0 <= i < s.len() ==> (#[trigger] s[i] as u32) < 128,
    ensures
        encode_utf8(s).len() == s.len(),
    decreases s.len(),
{
    if s.len() > 0 {
        assert((s[0] as u32) < 128);
        assert(vstd::utf8::encode_scalar(s[0] as u32).len() == 1);
        lemma_ascii_len(s.drop_first());
    }
}

/// A name that is made part of a file's name is read out of it again.
pub proof fn law_component_roundtrip(name: Seq<char>)
    requires
        name.len() > 0,
    ensures
        component_of(hex_text(encode_utf8(name))) == Some(name),
{
    let b = encode_utf8(name);
    let s = hex_text(b);
    lemma_hex_text(b);
    lemma_ascii_len(s);
    vstd::utf8::encode_utf8_valid_utf8(name);
    vstd::utf8::encode_utf8_decode_utf8(name);
    vstd::utf8::encode_utf8_first_scalar(name);
    assert(b.len() > 0);
}

/// A text without its colons.
pub open spec fn without_colons(s: Seq<char>) -> Seq<char>
    decreases s.len(),
{
    if s.len() == 0 {
        s
    } else if s.last() == ':' {
        without_colons(s.drop_last())
    } else {
        without_colons(s.drop_last()).push(s.last())
    }
}

/// Whether a text is made of hexadecimal digits.
pub open spec fn all_hex(s: Seq<char>) -> bool {
    forall|i: int| 0 <= i < s.len() ==> is_hex_digit(#[trigger] s[i])
}

/// The twelve digits of a hardware address, in lower case.
pub open spec fn mac_digits(mac: Seq<char>) -> Option<Seq<char>> {
    let c = lowered(without_colons(mac));
    if c.len() == 12 && all_hex(c) {
        Some(c)
    } else {
        None
    }
}

fn hex_only(cs: &Vec<char>) -> (r: bool)
    ensures
        r == all_hex(cs@),
{
    let mut i: usize = 0;
    while i < cs.len()
        invariant
            i <= cs@.len(),
            forall|j: int| 0 <= j < i ==> is_hex_digit(#[trigger] cs@[j]),
        decreases cs@.len() - i,
    {
        let c = cs[i];
        if !(('0' <= c && c <= '9') || ('a' <= c && c <= 'f') || ('A' <= c && c <= 'F')) {
            assert(!is_hex_digit(cs@[i as int]));
            return false;
        }
        i += 1;
    }
    true
}

/// The twelve digits of a hardware address.
pub fn normalize_mac_hex(mac: &str) -> (r: Option<String>)
    ensures
        match r {
            Some(s) => mac_digits(mac@) == Some(s@),
            None => mac_digits(mac@) is None,
        },
{
    let cs = chars_of(mac);
    let ghost s = mac@;
    let mut kept: Vec<char> = Vec::new();
    let mut i: usize = 0;
    assert(s.take(0) =~= Seq::empty());
    while i < cs.len()
        invariant
            i <= cs@.len(),
            cs@ == s,
            kept@ == without_colons(s.take(i as int)),
        decreases cs@.len() - i,
    {
        assert(s.take(i + 1).drop_last() =~= s.take(i as int));
        if cs[i] != ':' {
            kept.push(cs[i]);
        }
        i += 1;
    }
    assert(s.take(i as int) =~= s);
    let compact = to_ascii_lowercase(text_of(&kept).as_str());
    let digits = chars_of(compact.as_str());
    if digits.len() == 12 && hex_only(&digits) {
        Some(compact)
    } else {
        None
    }
}

/// Pairs of characters with colons between them.
pub open spec fn with_colons(s: Seq<char>) -> Seq<char>
    decreases s.len(),
{
    if s.len() <= 2 {
        s
    } else {
        with_colons(s.take(s.len() - 2)) + seq![':'] + s.skip(s.len() - 2)
    }
}

/// The usual notation of an address of twelve digits.
pub open spec fn colon_mac(hex: Seq<char>) -> Option<Seq<char>> {
    if hex.len() == 12 && all_hex(hex) {
        Some(with_colons(lowered(hex)))
    } else {
        None
    }
}

/// The usual notation of an address of twelve digits.
pub fn mac_hex_to_colon(hex: &str) -> (r: Option<String>)
    ensures
        match r {
            Some(s) => colon_mac(hex@) == Some(s@),
            None => colon_mac(hex@) is None,
        },
{
    let cs = chars_of(hex);
    if cs.len() != 12 || !hex_only(&cs) {
        return None;
    }
    let low = to_ascii_lowercase(hex);
    let ls = chars_of(low.as_str());
    let ghost s = lowered(hex@);
    let mut out = text_range(&ls, 0, 2);
    let mut i: usize = 2;
    assert(out@ =~= s.take(2));
    while i < 12
        invariant
            2 <= i <= 12,
            i % 2 == 0,
            ls@ == s,
            s.len() == 12,
            out@ == with_colons(s.take(i as int)),
        decreases 12 - i,
    {
        let pair = text_range(&ls, i, i + 2);
        let ghost t = s.take(i + 2);
        let ghost before = out@;
        assert(t.take(t.len() - 2) =~= s.take(i as int));
        assert(t.skip(t.len() - 2) =~= pair@);
        out.push(':');
        out.push_str(pair.as_str());
        assert(out@ =~= before + seq![':'] + pair@);
        i += 2;
    }
    assert(s.take(12) =~= s);
    Some(out)
}

/// The name of a file without its ending, where that is the one of rings.
pub open spec fn ring_stem_of(name: Seq<char>) -> Option<Seq<char>> {
    if name.len() > 5 && name.skip(name.len() - 5) == ".ring"@ {
        Some(name.take(name.len() - 5))
    } else {
        None
    }
}

/// The name of a ring file without its ending; there is none for other files.
pub fn ring_stem(file_name: &str) -> (r: Option<String>)
    ensures
        match r {
            Some(s) => ring_stem_of(file_name@) == Some(s@),
            None => ring_stem_of(file_name@) is None,
        },
{
    let cs = chars_of(file_name);
    let n = cs.len();
    if n <= 5 {
        return None;
    }
    let end = text_range(&cs, n - 5, n);
    assert(end@ =~= file_name@.skip(n - 5));
    if text_eq(end.as_str(), ".ring") {
        let stem = text_range(&cs, 0, n - 5);
        assert(stem@ =~= file_name@.take(n - 5));
        Some(stem)
    } else {
        None
    }
}

/// Where a character stands last, -1 where it does not.
pub open spec fn last_place(s: Seq<char>, c: char) -> int
    decreases s.len(),
{
    if s.len() == 0 {
        -1
    } else if s.last() == c {
        s.len() - 1
    } else {
        last_place(s.drop_last(), c)
    }
}

/// What stands before and behind the last place of a character.
pub open spec fn last_cut(s: Seq<char>, c: char) -> Option<(Seq<char>, Seq<char>)> {
    let i = last_place(s, c);
    if i < 0 {
        None
    } else {
        Some((s.take(i), s.skip(i + 1)))
    }
}

fn rsplit_once(s: &str, c: char) -> (r: Option<(String, String)>)
    ensures
        match r {
            Some((a, b)) => last_cut(s@, c) == Some((a@, b@)),
            None => last_cut(s@, c) is None,
        },
{
    let cs = chars_of(s);
    let ghost t = s@;
    let mut i: usize = cs.len();
    assert(t.take(i as int) =~= t);
    while i > 0
        invariant
            i <= cs@.len(),
            cs@ == t,
            t == s@,
            last_place(t, c) == last_place(t.take(i as int), c),
        decreases i,
    {
        assert(t.take(i as int).drop_last() =~= t.take(i - 1));
        assert(t.take(i as int).last() == t[i - 1]);
        if cs[i - 1] == c {
            let a = text_range(&cs, 0, i - 1);
            let b = text_range(&cs, i, cs.len());
            assert(a@ =~= t.take(i - 1));
            assert(b@ =~= t.skip(i as int));
            return Some((a, b));
        }
        i -= 1;
    }
    None
}

/// What is to be done with a file among the rings.
#[derive(Debug)]
pub enum RingFile {
    /// It is none of ours, or of an interface that does not exist.
    Skip,
    /// Its name cannot be read.
    Quarantine,
    /// It holds the hours of an interface, or of a device on it.
    Load { ifindex: u32, mac: Option<String> },
}

/// What is to be done with a file, over plain values.
pub enum RingFileModel {
    Skip,
    Quarantine,
    Load { ifindex: u32, mac: Option<Seq<char>> },
}

impl View for RingFile {
    type V = RingFileModel;

    open spec fn view(&self) -> RingFileModel {
        match *self {
            RingFile::Skip => RingFileModel::Skip,
            RingFile::Quarantine => RingFileModel::Quarantine,
            RingFile::Load { ifindex, mac } => RingFileModel::Load {
                ifindex,
                mac: crate::dnsrec::text_opt(mac),
            },
        }
    }
}

/// Whether the part of a file's name that names an interface can be looked at: it
/// has an even number of characters if it has an even number of bytes.
pub open spec fn readable_name(s: Seq<char>) -> bool {
    encode_utf8(s).len() % 2 == 0 ==> s.len() % 2 == 0
}

/// What is to be done with a file among the rings of interfaces.
pub open spec fn iface_ring(name: Seq<char>, topology: Seq<InterfaceModel>) -> RingFileModel {
    match ring_stem_of(name) {
        Some(stem) => match component_of(stem) {
            Some(iface) => match named_index(topology, iface) {
                Some(ifindex) => RingFileModel::Load { ifindex, mac: None },
                None => RingFileModel::Skip,
            },
            None => RingFileModel::Quarantine,
        },
        None => RingFileModel::Skip,
    }
}

/// What is to be done with a file among the rings of interfaces.
pub fn classify_iface_ring(file_name: &str, topology: &TopologySnapshot) -> (r: RingFile)
    requires
        ring_stem_of(file_name@) matches Some(stem) ==> readable_name(stem),
    ensures
        r@ == iface_ring(file_name@, topology@),
{
    let stem = match ring_stem(file_name) {
        Some(s) => s,
        None => {
            return RingFile::Skip;
        },
    };
    match decode_component(stem.as_str()) {
        Some(name) => match topology.ifindex_by_name(name.as_str()) {
            Some(ifindex) => RingFile::Load { ifindex, mac: None },
            None => RingFile::Skip,
        },
        None => RingFile::Quarantine,
    }
}

/// What is to be done with a file among the rings of devices.
pub open spec fn device_ring(name: Seq<char>, topology: Seq<InterfaceModel>) -> RingFileModel {
    match ring_stem_of(name) {
        Some(stem) => match last_cut(stem, '-') {
            Some((iface_hex, mac_hex)) => match component_of(iface_hex) {
                Some(iface) => match named_index(topology, iface) {
                    Some(ifindex) => match colon_mac(mac_hex) {
                        Some(mac) => RingFileModel::Load { ifindex, mac: Some(mac) },
                        None => RingFileModel::Quarantine,
                    },
                    None => RingFileModel::Skip,
                },
                None => RingFileModel::Quarantine,
            },
            None => RingFileModel::Quarantine,
        },
        None => RingFileModel::Skip,
    }
}

/// What is to be done with a file among the rings of devices.
pub fn classify_device_ring(file_name: &str, topology: &TopologySnapshot) -> (r: RingFile)
    requires
        ring_stem_of(file_name@) matches Some(stem) ==> (last_cut(stem, '-') matches Some((a, _))
            ==> readable_name(a)),
    ensures
        r@ == device_ring(file_name@, topology@),
{
    let stem = match ring_stem(file_name) {
        Some(s) => s,
        None => {
            return RingFile::Skip;
        },
    };
    let (iface_hex, mac_hex) = match rsplit_once(stem.as_str(), '-') {
        Some(p) => p,
        None => {
            return RingFile::Quarantine;
        },
    };
    let name = match decode_component(iface_hex.as_str()) {
        Some(n) => n,
        None => {
            return RingFile::Quarantine;
        },
    };
    let ifindex = match topology.ifindex_by_name(name.as_str()) {
        Some(i) => i,
        None => {
            return RingFile::Skip;
        },
    };
    match mac_hex_to_colon(mac_hex.as_str()) {
        Some(mac) => RingFile::Load { ifindex, mac: Some(mac) },
        None => RingFile::Quarantine,
    }
}

/// The name under which a broken file is put aside.
pub fn quarantine_name(file_name: &str, now_ms: u64) -> (r: String)
    ensures
        r@ == file_name@ + ".bad."@ + dec(now_ms as nat),
{
    let mut out = concat(file_name, ".bad.");
    out.push_str(decimal(now_ms).as_str());
    out
}

/// Where things are kept.
#[derive(Debug)]
pub struct PersistenceManager {
    pub ring_slots: u32,
    pub data_dir: String,
    pub devices_path: String,
    pub current_hour_path: String,
    pub iface_traffic_dir: String,
    pub device_traffic_dir: String,
}

impl PersistenceManager {
    /// Every place lies under the directory of the data.
    pub open spec fn wf(self) -> bool {
        &&& 24 <= self.ring_slots <= 2160
        &&& self.ring_slots % 24 == 0
        &&& self.devices_path@ == joined_path(self.data_dir@, "devices_state.json"@)
        &&& self.current_hour_path@ == joined_path(self.data_dir@, "current_hour_state.json"@)
        &&& self.iface_traffic_dir@ == joined_path(
            joined_path(self.data_dir@, "traffic"@),
            "iface"@,
        )
        &&& self.device_traffic_dir@ == joined_path(
            joined_path(self.data_dir@, "traffic"@),
            "device"@,
        )
    }

    /// Keeps things under a directory, with so many days of history.
    pub fn new(data_dir: &str, ring_days: u32) -> (r: Result<Self, PersistError>)
        ensures
            match r {
                Ok(m) => 1 <= ring_days <= 90 && m.wf() && m.data_dir@ == data_dir@ && m.ring_slots
                    == ring_days * 24,
                Err(e) => !(1 <= ring_days <= 90) && e == PersistError::RingDays,
            },
    {
        if ring_days < 1 || ring_days > 90 {
            return Err(PersistError::RingDays);
        }
        let traffic = join_path(data_dir, "traffic");
        Ok(
            PersistenceManager {
                ring_slots: ring_days * 24,
                data_dir: copy_text(data_dir),
                devices_path: join_path(data_dir, "devices_state.json"),
                current_hour_path: join_path(data_dir, "current_hour_state.json"),
                iface_traffic_dir: join_path(traffic.as_str(), "iface"),
                device_traffic_dir: join_path(traffic.as_str(), "device"),
            },
        )
    }

    pub fn data_dir(&self) -> (r: &str)
        ensures
            r@ == self.data_dir@,
    {
        self.data_dir.as_str()
    }

    /// The file of an interface's hours.
    pub fn iface_ring_path(&self, iface_name: &str) -> (r: String)
        ensures
            r@ == joined_path(
                self.iface_traffic_dir@,
                hex_text(encode_utf8(iface_name@)) + ".ring"@,
            ),
    {
        let name = concat(encode_component(iface_name).as_str(), ".ring");
        join_path(self.iface_traffic_dir.as_str(), name.as_str())
    }

    /// The file of a device's hours on an interface.
    pub fn device_ring_path(&self, iface_name: &str, mac: &str) -> (r: Result<String, PersistError>)
        ensures
            match r {
                Ok(p) => mac_digits(mac@) matches Some(d) && p@ == joined_path(
                    self.device_traffic_dir@,
                    device_file_name(iface_name@, d),
                ),
                Err(e) => mac_digits(mac@) is None && e == PersistError::Mac,
            },
    {
        match normalize_mac_hex(mac) {
            Some(digits) => {
                let mut name = encode_component(iface_name);
                name.push('-');
                name.push_str(digits.as_str());
                name.push_str(".ring");
                assert(name@ =~= device_file_name(iface_name@, digits@));
                Ok(join_path(self.device_traffic_dir.as_str(), name.as_str()))
            },
            None => Err(PersistError::Mac),
        }
    }
}

/// The name of the file of a device's hours on an interface.
pub open spec fn device_file_name(iface: Seq<char>, digits: Seq<char>) -> Seq<char> {
    hex_text(encode_utf8(iface)) + seq!['-'] + digits + ".ring"@
}

/// The file of an interface's hours is found again as that interface's.
pub proof fn law_iface_ring_is_found(iface: Seq<char>, topology: Seq<InterfaceModel>)
    requires
        iface.len() > 0,
    ensures
        iface_ring(hex_text(encode_utf8(iface)) + ".ring"@, topology) == match named_index(
            topology,
            iface,
        ) {
            Some(ifindex) => (RingFileModel::Load { ifindex, mac: None }),
            None => RingFileModel::Skip,
        },
{
    reveal_strlit(".ring");
    let s = hex_text(encode_utf8(iface));
    let name = s + ".ring"@;
    law_component_roundtrip(iface);
    lemma_hex_text(encode_utf8(iface));
    vstd::utf8::encode_utf8_first_scalar(iface);
    assert(name.skip(name.len() - 5) =~= ".ring"@);
    assert(name.take(name.len() - 5) =~= s);
}

proof fn lemma_last_place(a: Seq<char>, b: Seq<char>, c: char)
    requires
        forall|i: int| 0 <= i < b.len() ==> b[i] != c,
    ensures
        last_place(a + seq![c] + b, c) == a.len(),
    decreases b.len(),
{
    let s = a + seq![c] + b;
    if b.len() > 0 {
        assert(s.drop_last() =~= a + seq![c] + b.drop_last());
        lemma_last_place(a, b.drop_last(), c);
    }
}

/// The file of a device's hours is found again as that device's on its interface.
pub proof fn law_device_ring_is_found(
    iface: Seq<char>,
    mac: Seq<char>,
    topology: Seq<InterfaceModel>,
    ifindex: u32,
)
    requires
        iface.len() > 0,
        mac_digits(mac) is Some,
        named_index(topology, iface) == Some(ifindex),
    ensures
        device_ring(device_file_name(iface, mac_digits(mac)->0), topology) == (
        RingFileModel::Load { ifindex, mac: Some(with_colons(mac_digits(mac)->0)) }),
{
    reveal_strlit(".ring");
    let d = mac_digits(mac)->0;
    let s = hex_text(encode_utf8(iface));
    let stem = s + seq!['-'] + d;
    let name = device_file_name(iface, d);
    law_component_roundtrip(iface);
    assert(name.skip(name.len() - 5) =~= ".ring"@);
    assert(name.take(name.len() - 5) =~= stem);
    assert forall|i: int| 0 <= i < d.len() implies d[i] != '-' by {
        assert(is_hex_digit(d[i]));
    }
    lemma_last_place(s, d, '-');
    assert(stem.take(s.len() as int) =~= s);
    assert(stem.skip(s.len() as int + 1) =~= d);
    assert(lowered(d) =~= d) by {
        let w = without_colons(mac);
        assert forall|i: int| 0 <= i < d.len() implies lower_char(d[i]) == d[i] by {
            assert(d[i] == lower_char(w[i]));
        }
    }
}

/// An interface's current hour as it is kept.
#[derive(Debug)]
pub struct PersistedCurrentHourIface {
    pub logical_iface: String,
    pub bucket: AggregatedBucket,
}

/// A device's current hour as it is kept.
#[derive(Debug)]
pub struct PersistedCurrentHourDevice {
    pub logical_iface: String,
    pub mac: String,
    pub bucket: AggregatedBucket,
}

/// The current hour as it is kept.
#[derive(Debug)]
pub struct PersistedCurrentHourState {
    pub iface: Vec<PersistedCurrentHourIface>,
    pub device: Vec<PersistedCurrentHourDevice>,
}

impl View for PersistedCurrentHourIface {
    type V = (Seq<char>, AggregatedBucket);

    open spec fn view(&self) -> (Seq<char>, AggregatedBucket) {
        (self.logical_iface@, self.bucket)
    }
}

impl View for PersistedCurrentHourDevice {
    type V = (Seq<char>, Seq<char>, AggregatedBucket);

    open spec fn view(&self) -> (Seq<char>, Seq<char>, AggregatedBucket) {
        (self.logical_iface@, self.mac@, self.bucket)
    }
}

/// Kept hours of interfaces over plain values.
pub open spec fn iface_hours(v: Seq<PersistedCurrentHourIface>) -> Seq<(Seq<char>, AggregatedBucket)> {
    Seq::new(v.len(), |i: int| v[i]@)
}

/// Kept hours of devices over plain values.
pub open spec fn device_hours(v: Seq<PersistedCurrentHourDevice>) -> Seq<
    (Seq<char>, Seq<char>, AggregatedBucket),
> {
    Seq::new(v.len(), |i: int| v[i]@)
}

/// The hours of interfaces that exist, under their names.
pub open spec fn ifaces_kept(
    v: Seq<CurrentHourIfaceState>,
    topology: Seq<InterfaceModel>,
) -> Seq<(Seq<char>, AggregatedBucket)>
    decreases v.len(),
{
    if v.len() == 0 {
        Seq::empty()
    } else {
        let before = ifaces_kept(v.drop_last(), topology);
        match find_index(topology, v.last().ifindex) {
            Some(x) => before.push((x.name, v.last().bucket)),
            None => before,
        }
    }
}

/// The hours of devices on interfaces that exist, under their names.
pub open spec fn devices_kept(
    v: Seq<CurrentHourDeviceState>,
    topology: Seq<InterfaceModel>,
) -> Seq<(Seq<char>, Seq<char>, AggregatedBucket)>
    decreases v.len(),
{
    if v.len() == 0 {
        Seq::empty()
    } else {
        let before = devices_kept(v.drop_last(), topology);
        match find_index(topology, v.last().ifindex) {
            Some(x) => before.push((x.name, v.last().mac@, v.last().bucket)),
            None => before,
        }
    }
}

impl PersistenceManager {
    /// What is kept of the current hour: the buckets of interfaces that exist and of the
    /// devices on them, in the order of interfaces and addresses.
    pub fn save_current_hour_histogram(&self, histogram: &HistogramHistory, topology: &TopologySnapshot) -> (r:
        PersistedCurrentHourState)
        requires
            histogram.wf(),
        ensures
            exists|ifaces: Seq<CurrentHourIfaceState>| #[trigger]
                lists_ifaces(ifaces, histogram@.iface.current) && iface_hours(r.iface@) == ifaces_kept(
                    ifaces,
                    topology@,
                ),
            exists|devices: Seq<CurrentHourDeviceState>| #[trigger]
                lists_devices(devices, histogram@.device.current) && device_hours(r.device@)
                    == devices_kept(devices, topology@),
    {
        let state = histogram.export_current_hour_state();
        let ghost ifaces = state.iface@;
        let ghost devices = state.device@;
        let mut iface: Vec<PersistedCurrentHourIface> = Vec::new();
        let mut i: usize = 0;
        assert(ifaces.take(0) =~= Seq::empty());
        assert(iface_hours(iface@) =~= Seq::empty());
        while i < state.iface.len()
            invariant
                i <= state.iface@.len(),
                ifaces == state.iface@,
                iface_hours(iface@) == ifaces_kept(ifaces.take(i as int), topology@),
            decreases state.iface@.len() - i,
        {
            assert(ifaces.take(i + 1).drop_last() =~= ifaces.take(i as int));
            let item = &state.iface[i];
            if let Some(x) = topology.by_ifindex(item.ifindex) {
                let ghost before = iface_hours(iface@);
                iface.push(
                    PersistedCurrentHourIface { logical_iface: x.name.clone(), bucket: item.bucket },
                );
                assert(iface_hours(iface@) =~= before.push((x.name@, item.bucket)));
            }
            i += 1;
        }
        assert(ifaces.take(i as int) =~= ifaces);
        let mut device: Vec<PersistedCurrentHourDevice> = Vec::new();
        let mut i: usize = 0;
        assert(devices.take(0) =~= Seq::empty());
        assert(device_hours(device@) =~= Seq::empty());
        while i < state.device.len()
            invariant
                i <= state.device@.len(),
                devices == state.device@,
                device_hours(device@) == devices_kept(devices.take(i as int), topology@),
            decreases state.device@.len() - i,
        {
            assert(devices.take(i + 1).drop_last() =~= devices.take(i as int));
            let item = &state.device[i];
            if let Some(x) = topology.by_ifindex(item.ifindex) {
                let ghost before = device_hours(device@);
                device.push(
                    PersistedCurrentHourDevice {
                        logical_iface: x.name.clone(),
                        mac: item.mac.clone(),
                        bucket: item.bucket,
                    },
                );
                assert(device_hours(device@) =~= before.push((x.name@, item.mac@, item.bucket)));
            }
            i += 1;
        }
        assert(devices.take(i as int) =~= devices);
        PersistedCurrentHourState { iface, device }
    }
}

/// The current hours of interfaces with the kept ones of this hour.
pub open spec fn ifaces_restored(
    m: Map<u32, AggregatedBucket>,
    v: Seq<(Seq<char>, AggregatedBucket)>,
    topology: Seq<InterfaceModel>,
    start: u64,
) -> Map<u32, AggregatedBucket>
    decreases v.len(),
{
    if v.len() == 0 {
        m
    } else {
        let before = ifaces_restored(m, v.drop_last(), topology, start);
        let (name, b) = v.last();
        match named_index(topology, name) {
            Some(ifindex) => if b.start_ts_ms == start {
                before.insert(ifindex, b)
            } else {
                before
            },
            None => before,
        }
    }
}

/// The current hours of devices with the kept ones of this hour.
pub open spec fn devices_restored(
    m: Map<(u32, Seq<char>), AggregatedBucket>,
    v: Seq<(Seq<char>, Seq<char>, AggregatedBucket)>,
    topology: Seq<InterfaceModel>,
    start: u64,
) -> Map<(u32, Seq<char>), AggregatedBucket>
    decreases v.len(),
{
    if v.len() == 0 {
        m
    } else {
        let before = devices_restored(m, v.drop_last(), topology, start);
        let (name, mac, b) = v.last();
        match named_index(topology, name) {
            Some(ifindex) => if b.start_ts_ms == start {
                before.insert((ifindex, mac), b)
            } else {
                before
            },
            None => before,
        }
    }
}

/// The histogram with what was kept of an hour.
pub open spec fn hour_restored(
    h: HistogramModel,
    state: PersistedCurrentHourState,
    topology: Seq<InterfaceModel>,
    start: u64,
) -> HistogramModel {
    HistogramModel {
        iface: SeriesModel {
            current: ifaces_restored(h.iface.current, iface_hours(state.iface@), topology, start),
            ..h.iface
        },
        device: SeriesModel {
            current: devices_restored(
                h.device.current,
                device_hours(state.device@),
                topology,
                start,
            ),
            ..h.device
        },
        ..h
    }
}

/// Takes over what was kept of the hour that starts at a time; what was kept of
/// another hour is left out.
pub fn restore_current_hour(
    state: &PersistedCurrentHourState,
    topology: &TopologySnapshot,
    histogram: &mut HistogramHistory,
    current_start: u64,
)
    requires
        old(histogram).wf(),
    ensures
        final(histogram).wf(),
        final(histogram)@ == hour_restored(old(histogram)@, *state, topology@, current_start),
{
    let ghost h = histogram@;
    let ghost xs = iface_hours(state.iface@);
    let ghost ds = device_hours(state.device@);
    let mut i: usize = 0;
    assert(xs.take(0) =~= Seq::empty());
    while i < state.iface.len()
        invariant
            i <= state.iface@.len(),
            xs == iface_hours(state.iface@),
            histogram.wf(),
            histogram@ == (HistogramModel {
                iface: SeriesModel {
                    current: ifaces_restored(
                        h.iface.current,
                        xs.take(i as int),
                        topology@,
                        current_start,
                    ),
                    ..h.iface
                },
                ..h
            }),
        decreases state.iface@.len() - i,
    {
        assert(xs.take(i + 1).drop_last() =~= xs.take(i as int));
        assert(xs.take(i + 1).last() == state.iface@[i as int]@);
        let item = &state.iface[i];
        if item.bucket.start_ts_ms == current_start {
            if let Some(ifindex) = topology.ifindex_by_name(item.logical_iface.as_str()) {
                histogram.current_hour_iface.insert(ifindex, item.bucket);
            }
        }
        i += 1;
    }
    assert(xs.take(i as int) =~= xs);
    let ghost mid = histogram@;
    let mut i: usize = 0;
    assert(ds.take(0) =~= Seq::empty());
    while i < state.device.len()
        invariant
            i <= state.device@.len(),
            ds == device_hours(state.device@),
            histogram.wf(),
            histogram@ == (HistogramModel {
                device: SeriesModel {
                    current: devices_restored(
                        h.device.current,
                        ds.take(i as int),
                        topology@,
                        current_start,
                    ),
                    ..h.device
                },
                ..mid
            }),
        decreases state.device@.len() - i,
    {
        assert(ds.take(i + 1).drop_last() =~= ds.take(i as int));
        assert(ds.take(i + 1).last() == state.device@[i as int]@);
        let item = &state.device[i];
        if item.bucket.start_ts_ms == current_start {
            if let Some(ifindex) = topology.ifindex_by_name(item.logical_iface.as_str()) {
                histogram.current_hour_device.insert(
                    DeviceSeriesKey { ifindex, mac: item.mac.clone() },
                    item.bucket,
                );
            }
        }
        i += 1;
    }
    assert(ds.take(i as int) =~= ds);
}

impl PersistenceManager {
    /// Takes over what was kept of the current hour, if it is of this version. Tells
    /// whether the calendar could say which hour it is; where it could not nothing is
    /// taken over.
    pub fn load_current_hour_histogram(
        &self,
        schema_version: u32,
        state: &PersistedCurrentHourState,
        topology: &TopologySnapshot,
        histogram: &mut HistogramHistory,
        now_ms: u64,
    ) -> (r: bool)
        requires
            old(histogram).wf(),
        ensures
            final(histogram).wf(),
            schema_version != CURRENT_HOUR_SCHEMA_VERSION ==> r && final(histogram)@ == old(
                histogram,
            )@,
            schema_version == CURRENT_HOUR_SCHEMA_VERSION && r ==> exists|start: u64, end: u64|
                #[trigger] is_bucket_of(Some((start, end)), now_ms, true) && final(histogram)@
                    == hour_restored(old(histogram)@, *state, topology@, start),
            schema_version == CURRENT_HOUR_SCHEMA_VERSION && !in_calendar(now_ms as i64) ==> r
                && final(histogram)@ == hour_restored(old(histogram)@, *state, topology@, 0),
            !r ==> is_bucket_of(None, now_ms, true) && final(histogram)@ == old(histogram)@,
    {
        if schema_version != CURRENT_HOUR_SCHEMA_VERSION {
            return true;
        }
        match hourly_bucket_local(now_ms) {
            Some((start, end)) => {
                restore_current_hour(state, topology, histogram, start);
                assert(is_bucket_of(Some((start, end)), now_ms, true));
                true
            },
            None => false,
        }
    }
}

impl PersistenceManager {
    /// What is kept of the known devices, with its version.
    pub fn save_monitor_runtime(&self, runtime: &MonitorRuntime, topology: &TopologySnapshot) -> (r: (
        u32,
        MonitorRuntimeState,
    ))
        ensures
            r.0 == DEVICES_SCHEMA_VERSION,
            ordered(r.1.known_devices@),
            persisted_views(r.1.known_devices@).to_multiset() == all_persisted(
                runtime.device_registry.entries.entries@,
                topology@,
            ).to_multiset(),
    {
        (DEVICES_SCHEMA_VERSION, export_runtime_state(runtime, topology))
    }

    /// Takes over the devices that were kept, if they are of this version.
    pub fn load_monitor_runtime(
        &self,
        schema_version: u32,
        state: &MonitorRuntimeState,
        runtime: &mut MonitorRuntime,
        topology: &TopologySnapshot,
    ) -> (r: Result<(), PersistError>)
        requires
            old(runtime).wf(),
        ensures
            final(runtime).wf(),
            schema_version != DEVICES_SCHEMA_VERSION ==> r == Err::<(), PersistError>(
                PersistError::Schema(schema_version),
            ) && *final(runtime) == *old(runtime),
            schema_version == DEVICES_SCHEMA_VERSION ==> r is Ok && known_by(
                final(runtime).device_registry.entries@,
            ) == imported(persisted_views(state.known_devices@), topology@) && *final(runtime) == (
            MonitorRuntime { device_registry: final(runtime).device_registry, ..*old(runtime) }),
    {
        if schema_version != DEVICES_SCHEMA_VERSION {
            return Err(PersistError::Schema(schema_version));
        }
        import_runtime_state(runtime, state, topology);
        Ok(())
    }
}

/// Complete hours of an interface after more of them.
pub open spec fn hours_added<KV>(
    m: Map<KV, Seq<AggregatedBucket>>,
    k: KV,
    records: Seq<AggregatedBucket>,
    cap: nat,
) -> Map<KV, Seq<AggregatedBucket>>
    decreases records.len(),
{
    if records.len() == 0 {
        m
    } else {
        extended(hours_added(m, k, records.drop_last(), cap), k, records.last(), cap)
    }
}

/// Takes over the complete hours of an interface, or of a device on it.
pub fn restore_records(
    histogram: &mut HistogramHistory,
    ifindex: u32,
    mac: Option<&str>,
    records: &Vec<AggregatedBucket>,
)
    requires
        old(histogram).wf(),
    ensures
        final(histogram).wf(),
        mac is None ==> final(histogram)@ == (HistogramModel {
            iface: SeriesModel {
                completed: hours_added(
                    old(histogram)@.iface.completed,
                    ifindex,
                    records@,
                    old(histogram)@.capacity,
                ),
                ..old(histogram)@.iface
            },
            ..old(histogram)@
        }),
        mac matches Some(m) ==> final(histogram)@ == (HistogramModel {
            device: SeriesModel {
                completed: hours_added(
                    old(histogram)@.device.completed,
                    (ifindex, m@),
                    records@,
                    old(histogram)@.capacity,
                ),
                ..old(histogram)@.device
            },
            ..old(histogram)@
        }),
{
    let ghost h = histogram@;
    let mut i: usize = 0;
    assert(records@.take(0) =~= Seq::empty());
    while i < records.len()
        invariant
            i <= records@.len(),
            histogram.wf(),
            mac is None ==> histogram@ == (HistogramModel {
                iface: SeriesModel {
                    completed: hours_added(
                        h.iface.completed,
                        ifindex,
                        records@.take(i as int),
                        h.capacity,
                    ),
                    ..h.iface
                },
                ..h
            }),
            mac matches Some(m) ==> histogram@ == (HistogramModel {
                device: SeriesModel {
                    completed: hours_added(
                        h.device.completed,
                        (ifindex, m@),
                        records@.take(i as int),
                        h.capacity,
                    ),
                    ..h.device
                },
                ..h
            }),
        decreases records@.len() - i,
    {
        assert(records@.take(i + 1).drop_last() =~= records@.take(i as int));
        match mac {
            Some(m) => {
                histogram.restore_device_bucket(ifindex, copy_text(m), records[i]);
            },
            None => {
                histogram.restore_iface_bucket(ifindex, records[i]);
            },
        }
        i += 1;
    }
    assert(records@.take(i as int) =~= records@);
}

/// The interface with a number is found under its name, and no other is.
pub open spec fn named_uniquely(topology: Seq<InterfaceModel>, ifindex: u32) -> bool {
    &&& find_index(topology, ifindex) matches Some(x) && named_index(topology, x.name) == Some(
        ifindex,
    )
    &&& forall|other: u32|
        (#[trigger] find_index(topology, other)) matches Some(y) && named_index(topology, y.name)
            == Some(ifindex) ==> other == ifindex
}

proof fn lemma_iface_comes_back(
    v: Seq<CurrentHourIfaceState>,
    m: Map<u32, AggregatedBucket>,
    topology: Seq<InterfaceModel>,
    start: u64,
    i: int,
)
    requires
        0 <= i < v.len(),
        forall|a: int, b: int|
            0 <= a < b < v.len() ==> (#[trigger] v[a]).ifindex < (#[trigger] v[b]).ifindex,
        v[i].bucket.start_ts_ms == start,
        named_uniquely(topology, v[i].ifindex),
    ensures
        ({
            let r = ifaces_restored(m, ifaces_kept(v, topology), topology, start);
            r.dom().contains(v[i].ifindex) && r[v[i].ifindex] == v[i].bucket
        }),
    decreases v.len(),
{
    let before = v.drop_last();
    let kept = ifaces_kept(before, topology);
    if i < before.len() {
        assert(before[i] == v[i]);
        assert forall|a: int, b: int| 0 <= a < b < before.len() implies (#[trigger] before[a]).ifindex
            < (#[trigger] before[b]).ifindex by {
            assert(before[a] == v[a] && before[b] == v[b]);
        }
        lemma_iface_comes_back(before, m, topology, start, i);
        assert(v[i].ifindex < v[v.len() - 1].ifindex);
    }
    match find_index(topology, v.last().ifindex) {
        Some(x) => {
            let item = (x.name, v.last().bucket);
            assert(kept.push(item).drop_last() =~= kept);
            assert(kept.push(item).last() == item);
        },
        None => {},
    }
}

proof fn lemma_device_comes_back(
    v: Seq<CurrentHourDeviceState>,
    m: Map<(u32, Seq<char>), AggregatedBucket>,
    topology: Seq<InterfaceModel>,
    start: u64,
    i: int,
)
    requires
        0 <= i < v.len(),
        forall|a: int, b: int|
            0 <= a < b < v.len() ==> (#[trigger] v[a]).precedes(#[trigger] v[b]),
        v[i].bucket.start_ts_ms == start,
        named_uniquely(topology, v[i].ifindex),
    ensures
        ({
            let r = devices_restored(m, devices_kept(v, topology), topology, start);
            let k = (v[i].ifindex, v[i].mac@);
            r.dom().contains(k) && r[k] == v[i].bucket
        }),
    decreases v.len(),
{
    let before = v.drop_last();
    let kept = devices_kept(before, topology);
    if i < before.len() {
        assert(before[i] == v[i]);
        assert forall|a: int, b: int| 0 <= a < b < before.len() implies (#[trigger] before[a]).precedes(
            #[trigger] before[b],
        ) by {
            assert(before[a] == v[a] && before[b] == v[b]);
        }
        lemma_device_comes_back(before, m, topology, start, i);
        assert(v[i].precedes(v[v.len() - 1]));
        lemma_not_before_itself(v[i], v.last());
    }
    match find_index(topology, v.last().ifindex) {
        Some(x) => {
            let item = (x.name, v.last().mac@, v.last().bucket);
            assert(kept.push(item).drop_last() =~= kept);
            assert(kept.push(item).last() == item);
        },
        None => {},
    }
}

proof fn lemma_not_before_itself(a: CurrentHourDeviceState, b: CurrentHourDeviceState)
    requires
        a.precedes(b),
    ensures
        (a.ifindex, a.mac@) != (b.ifindex, b.mac@),
{
    CurrentHourDeviceState::asymmetric(a, b);
}

proof fn lemma_iface_listed(v: Seq<CurrentHourIfaceState>, m: Map<u32, AggregatedBucket>, k: u32) -> (n:
    int)
    requires
        lists_ifaces(v, m),
        m.dom().finite(),
        m.dom().contains(k),
    ensures
        0 <= n < v.len(),
        v[n].ifindex == k,
{
    let keys = Seq::new(v.len(), |j: int| v[j].ifindex);
    assert(keys.no_duplicates()) by {
        assert forall|a: int, b: int| 0 <= a < b < keys.len() implies keys[a] != keys[b] by {
            assert(v[a].ifindex < v[b].ifindex);
        }
    }
    keys.unique_seq_to_set();
    assert(keys.to_set().subset_of(m.dom()));
    vstd::set_lib::lemma_subset_equality(keys.to_set(), m.dom());
    assert(keys.contains(k));
    choose|n: int| 0 <= n < keys.len() && keys[n] == k
}

proof fn lemma_device_listed(
    v: Seq<CurrentHourDeviceState>,
    m: Map<(u32, Seq<char>), AggregatedBucket>,
    k: (u32, Seq<char>),
) -> (n: int)
    requires
        lists_devices(v, m),
        m.dom().finite(),
        m.dom().contains(k),
    ensures
        0 <= n < v.len(),
        (v[n].ifindex, v[n].mac@) == k,
{
    let keys = Seq::new(v.len(), |j: int| (v[j].ifindex, v[j].mac@));
    assert(keys.no_duplicates()) by {
        assert forall|a: int, b: int| 0 <= a < b < keys.len() implies keys[a] != keys[b] by {
            assert(v[a].precedes(v[b]));
            lemma_not_before_itself(v[a], v[b]);
        }
    }
    keys.unique_seq_to_set();
    assert(keys.to_set().subset_of(m.dom()));
    vstd::set_lib::lemma_subset_equality(keys.to_set(), m.dom());
    assert(keys.contains(k));
    choose|n: int| 0 <= n < keys.len() && keys[n] == k
}

/// What is kept of the current hour comes back within the hour: the hour of every
/// interface that alone is found under its name, and that of every device on such an
/// interface.
pub proof fn law_current_hour_comes_back(
    ifaces: Seq<CurrentHourIfaceState>,
    devices: Seq<CurrentHourDeviceState>,
    h: HistogramModel,
    fresh: HistogramModel,
    topology: Seq<InterfaceModel>,
    start: u64,
    i: u32,
    d: (u32, Seq<char>),
)
    requires
        lists_ifaces(ifaces, h.iface.current),
        lists_devices(devices, h.device.current),
        h.iface.current.dom().finite(),
        h.device.current.dom().finite(),
        h.iface.current.dom().contains(i),
        h.iface.current[i].start_ts_ms == start,
        named_uniquely(topology, i),
        h.device.current.dom().contains(d),
        h.device.current[d].start_ts_ms == start,
        named_uniquely(topology, d.0),
    ensures
        ({
            let r = ifaces_restored(
                fresh.iface.current,
                ifaces_kept(ifaces, topology),
                topology,
                start,
            );
            r.dom().contains(i) && r[i] == h.iface.current[i]
        }),
        ({
            let r = devices_restored(
                fresh.device.current,
                devices_kept(devices, topology),
                topology,
                start,
            );
            r.dom().contains(d) && r[d] == h.device.current[d]
        }),
{
    let n = lemma_iface_listed(ifaces, h.iface.current, i);
    lemma_iface_comes_back(ifaces, fresh.iface.current, topology, start, n);
    let p = lemma_device_listed(devices, h.device.current, d);
    lemma_device_comes_back(devices, fresh.device.current, topology, start, p);
}

/// Every interface has a name of its own, which is not blank and has no white space
/// around it.
pub open spec fn plainly_named(topology: Seq<InterfaceModel>) -> bool {
    &&& forall|i: int|
        0 <= i < topology.len() ==> (#[trigger] topology[i]).name.len() > 0 && trimmed(
            topology[i].name,
        ) == topology[i].name
    &&& forall|i: int, j: int|
        0 <= i < j < topology.len() ==> (#[trigger] topology[i]).name != (
        #[trigger] topology[j]).name
}

proof fn lemma_index_place(topology: Seq<InterfaceModel>, ifindex: u32) -> (p: int)
    requires
        find_index(topology, ifindex) is Some,
    ensures
        0 <= p < topology.len(),
        find_index(topology, ifindex) == Some(topology[p]),
        topology[p].ifindex == ifindex,
    decreases topology.len(),
{
    if topology.last().ifindex == ifindex {
        topology.len() - 1
    } else {
        lemma_index_place(topology.drop_last(), ifindex)
    }
}

proof fn lemma_name_place(topology: Seq<InterfaceModel>, p: int)
    requires
        0 <= p < topology.len(),
        forall|i: int, j: int|
            0 <= i < j < topology.len() ==> (#[trigger] topology[i]).name != (
            #[trigger] topology[j]).name,
    ensures
        find_name(topology, topology[p].name) == Some(topology[p]),
    decreases topology.len(),
{
    let front = topology.drop_last();
    if p < front.len() {
        assert forall|i: int, j: int| 0 <= i < j < front.len() implies (#[trigger] front[i]).name != (
        #[trigger] front[j]).name by {
            assert(topology[i].name != topology[j].name);
        }
        lemma_name_place(front, p);
    } else if find_name(front, topology[p].name) is Some {
        let q = lemma_found_name(front, topology[p].name);
        assert(topology[q].name != topology[p].name);
    }
}

proof fn lemma_found_name(topology: Seq<InterfaceModel>, name: Seq<char>) -> (q: int)
    requires
        find_name(topology, name) is Some,
    ensures
        0 <= q < topology.len(),
        topology[q].name == name,
    decreases topology.len(),
{
    if find_name(topology.drop_last(), name) is Some {
        lemma_found_name(topology.drop_last(), name)
    } else {
        topology.len() - 1
    }
}

proof fn lemma_plain_name_finds(topology: Seq<InterfaceModel>, ifindex: u32)
    requires
        plainly_named(topology),
        find_index(topology, ifindex) is Some,
    ensures
        named_index(topology, find_index(topology, ifindex)->0.name) == Some(ifindex),
{
    let p = lemma_index_place(topology, ifindex);
    lemma_name_place(topology, p);
}

proof fn lemma_plain_names_unique(topology: Seq<InterfaceModel>, ifindex: u32)
    requires
        plainly_named(topology),
        find_index(topology, ifindex) is Some,
    ensures
        named_uniquely(topology, ifindex),
{
    lemma_plain_name_finds(topology, ifindex);
    assert forall|other: u32|
        (#[trigger] find_index(topology, other)) matches Some(y) && named_index(topology, y.name)
            == Some(ifindex) implies other == ifindex by {
        lemma_plain_name_finds(topology, other);
    }
}

proof fn lemma_iface_was_there(
    v: Seq<CurrentHourIfaceState>,
    topology: Seq<InterfaceModel>,
    start: u64,
    k: u32,
) -> (n: int)
    requires
        plainly_named(topology),
        ifaces_restored(Map::empty(), ifaces_kept(v, topology), topology, start).dom().contains(k),
    ensures
        0 <= n < v.len(),
        v[n].ifindex == k,
        v[n].bucket.start_ts_ms == start,
        find_index(topology, k) is Some,
    decreases v.len(),
{
    let kept = ifaces_kept(v.drop_last(), topology);
    let last = v.last();
    if let Some(x) = find_index(topology, last.ifindex) {
        let item = (x.name, last.bucket);
        assert(kept.push(item).drop_last() =~= kept);
        assert(kept.push(item).last() == item);
        lemma_plain_name_finds(topology, last.ifindex);
        if last.bucket.start_ts_ms == start && last.ifindex == k {
            v.len() - 1
        } else {
            lemma_iface_was_there(v.drop_last(), topology, start, k)
        }
    } else {
        lemma_iface_was_there(v.drop_last(), topology, start, k)
    }
}

proof fn lemma_device_was_there(
    v: Seq<CurrentHourDeviceState>,
    topology: Seq<InterfaceModel>,
    start: u64,
    k: (u32, Seq<char>),
) -> (n: int)
    requires
        plainly_named(topology),
        devices_restored(Map::empty(), devices_kept(v, topology), topology, start).dom().contains(k),
    ensures
        0 <= n < v.len(),
        (v[n].ifindex, v[n].mac@) == k,
        v[n].bucket.start_ts_ms == start,
        find_index(topology, k.0) is Some,
    decreases v.len(),
{
    let kept = devices_kept(v.drop_last(), topology);
    let last = v.last();
    if let Some(x) = find_index(topology, last.ifindex) {
        let item = (x.name, last.mac@, last.bucket);
        assert(kept.push(item).drop_last() =~= kept);
        assert(kept.push(item).last() == item);
        lemma_plain_name_finds(topology, last.ifindex);
        if last.bucket.start_ts_ms == start && (last.ifindex, last.mac@) == k {
            v.len() - 1
        } else {
            lemma_device_was_there(v.drop_last(), topology, start, k)
        }
    } else {
        lemma_device_was_there(v.drop_last(), topology, start, k)
    }
}

/// The hours of interfaces that exist, of those that start at a time.
pub open spec fn ifaces_of_hour(
    m: Map<u32, AggregatedBucket>,
    topology: Seq<InterfaceModel>,
    start: u64,
) -> Map<u32, AggregatedBucket> {
    m.restrict(
        Set::new(|k: u32| find_index(topology, k) is Some && m[k].start_ts_ms == start),
    )
}

/// The hours of devices on interfaces that exist, of those that start at a time.
pub open spec fn devices_of_hour(
    m: Map<(u32, Seq<char>), AggregatedBucket>,
    topology: Seq<InterfaceModel>,
    start: u64,
) -> Map<(u32, Seq<char>), AggregatedBucket> {
    m.restrict(
        Set::new(
            |k: (u32, Seq<char>)| find_index(topology, k.0) is Some && m[k].start_ts_ms == start,
        ),
    )
}

/// What was kept of the current hour and is taken over by a new histogram is the hour
/// and nothing else: the hours of interfaces that exist and of devices on them that
/// start at the start of the current one. Those of another hour and of other interfaces
/// stay out, and the complete hours stay as they are. Every interface has to have a
/// plain name of its own.
pub proof fn law_current_hour_is_restored(
    state: PersistedCurrentHourState,
    h: HistogramModel,
    fresh: HistogramModel,
    topology: Seq<InterfaceModel>,
    start: u64,
)
    requires
        exists|ifaces: Seq<CurrentHourIfaceState>| #[trigger]
            lists_ifaces(ifaces, h.iface.current) && iface_hours(state.iface@) == ifaces_kept(
                ifaces,
                topology,
            ),
        exists|devices: Seq<CurrentHourDeviceState>| #[trigger]
            lists_devices(devices, h.device.current) && device_hours(state.device@)
                == devices_kept(devices, topology),
        h.iface.current.dom().finite(),
        h.device.current.dom().finite(),
        fresh.iface.current == Map::<u32, AggregatedBucket>::empty(),
        fresh.device.current == Map::<(u32, Seq<char>), AggregatedBucket>::empty(),
        plainly_named(topology),
    ensures
        hour_restored(fresh, state, topology, start) == (HistogramModel {
            iface: SeriesModel {
                current: ifaces_of_hour(h.iface.current, topology, start),
                ..fresh.iface
            },
            device: SeriesModel {
                current: devices_of_hour(h.device.current, topology, start),
                ..fresh.device
            },
            ..fresh
        }),
{
    let ifaces = choose|ifaces: Seq<CurrentHourIfaceState>| #[trigger]
        lists_ifaces(ifaces, h.iface.current) && iface_hours(state.iface@) == ifaces_kept(
            ifaces,
            topology,
        );
    let devices = choose|devices: Seq<CurrentHourDeviceState>| #[trigger]
        lists_devices(devices, h.device.current) && device_hours(state.device@) == devices_kept(
            devices,
            topology,
        );
    let r = hour_restored(fresh, state, topology, start);
    let xs = ifaces_of_hour(h.iface.current, topology, start);
    assert forall|k: u32| #[trigger] xs.dom().contains(k) implies r.iface.current.dom().contains(k)
        && r.iface.current[k] == xs[k] by {
        let n = lemma_iface_listed(ifaces, h.iface.current, k);
        lemma_plain_names_unique(topology, k);
        lemma_iface_comes_back(ifaces, fresh.iface.current, topology, start, n);
    }
    assert forall|k: u32| #[trigger] r.iface.current.dom().contains(k) implies xs.dom().contains(
        k,
    ) by {
        let n = lemma_iface_was_there(ifaces, topology, start, k);
        assert(h.iface.current.dom().contains(ifaces[n].ifindex));
    }
    assert(r.iface.current =~= xs);
    let ds = devices_of_hour(h.device.current, topology, start);
    assert forall|k: (u32, Seq<char>)| #[trigger] ds.dom().contains(k) implies r.device.current.dom().contains(
        k,
    ) && r.device.current[k] == ds[k] by {
        let n = lemma_device_listed(devices, h.device.current, k);
        lemma_plain_names_unique(topology, k.0);
        lemma_device_comes_back(devices, fresh.device.current, topology, start, n);
    }
    assert forall|k: (u32, Seq<char>)| #[trigger] r.device.current.dom().contains(
        k,
    ) implies ds.dom().contains(k) by {
        let n = lemma_device_was_there(devices, topology, start, k);
        assert(h.device.current.dom().contains((devices[n].ifindex, devices[n].mac@)));
    }
    assert(r.device.current =~= ds);
}

} // verus!
