//! DNS queries on disk, and the devices that queries are put down to.
use crate::dns::{settle, settled, DeviceIdentity};
use crate::dnsrec::{record_views, DnsQueryRecord, RecordModel};
use crate::ip::{ip_text, IpAddr};
use crate::keys::DnsPacketHeader;
use crate::mac;
use crate::mac::mac_text;
use crate::persistence::{join_path, joined_path};
use crate::runtime::{known_by, DeviceRegistry, KnownDevice, KnownModel};
use crate::series::newest;
use crate::system::has_text;
use crate::topology::{find_index, InterfaceModel, TopologySnapshot};
use vstd::prelude::*;

verus! {

/// The file of the DNS queries.
pub fn dns_queries_file(data_dir: &str) -> (r: String)
    ensures
        r@ == joined_path(joined_path(data_dir@, "dns"@), "queries.jsonl"@),
{
    join_path(join_path(data_dir, "dns").as_str(), "queries.jsonl")
}

/// The stored records that are taken over: the newest so many.
pub fn newest_records(records: Vec<DnsQueryRecord>, max_records: usize) -> (r: Vec<DnsQueryRecord>)
    ensures
        record_views(r@) == newest(record_views(records@), max_records as nat).map_values(
            |x: RecordModel| settled(x),
        ),
{
    let ghost all = record_views(records@);
    let ghost want = newest(all, max_records as nat).map_values(|x: RecordModel| settled(x));
    let skip: usize = if records.len() > max_records {
        records.len() - max_records
    } else {
        0
    };
    let mut r: Vec<DnsQueryRecord> = Vec::new();
    let mut i: usize = skip;
    assert(record_views(r@) =~= want.take(0));
    while i < records.len()
        invariant
            skip <= i <= records@.len(),
            all == record_views(records@),
            want == newest(all, max_records as nat).map_values(|x: RecordModel| settled(x)),
            skip == if all.len() > max_records {
                all.len() - max_records
            } else {
                0
            },
            record_views(r@) == want.take(i - skip),
        decreases records@.len() - i,
    {
        let ghost before = record_views(r@);
        let x = settle(records[i].clone());
        let ghost xv = x@;
        r.push(x);
        assert(xv == want[i - skip]);
        assert(record_views(r@) =~= before.push(xv));
        assert(want.take(i + 1 - skip) =~= want.take(i - skip).push(want[i - skip]));
        i += 1;
    }
    assert(want.take(i - skip) =~= want);
    r
}

/// Whether a device has an address.
pub open spec fn owns(k: KnownModel, ip: Seq<char>) -> bool {
    k.ipv4.contains(ip) || k.ipv6.contains(ip)
}

/// Whether no address of a device is known.
pub open spec fn has_no_address(k: KnownModel) -> bool {
    k.ipv4.len() == 0 && k.ipv6.len() == 0
}

/// The devices that have an address.
pub open spec fn owners(s: Seq<KnownModel>, ip: Seq<char>) -> Seq<KnownModel>
    decreases s.len(),
{
    if s.len() == 0 {
        s
    } else if owns(s.last(), ip) {
        owners(s.drop_last(), ip).push(s.last())
    } else {
        owners(s.drop_last(), ip)
    }
}

/// The known devices in the order in which they came to be known.
pub open spec fn known_seq(es: Seq<((u32, [u8; 6]), KnownDevice)>) -> Seq<KnownModel> {
    es.map_values(|e: ((u32, [u8; 6]), KnownDevice)| e.1@)
}

/// The device that a client is: the one with the hardware address, unless that one
/// is known to have other addresses; or else the only one with the address.
pub open spec fn client_device(
    known: Map<(u32, Seq<u8>), KnownModel>,
    all: Seq<KnownModel>,
    hardware: Option<(u32, Seq<u8>)>,
    ip: Seq<char>,
) -> Option<KnownModel> {
    let by_ip = owners(all, ip);
    let unique = if by_ip.len() == 1 {
        Some(by_ip[0])
    } else {
        None
    };
    match hardware {
        Some(k) => if known.dom().contains(k) && (has_no_address(known[k]) || owns(known[k], ip)) {
            Some(known[k])
        } else {
            unique
        },
        None => unique,
    }
}

/// What is told of the device of a client: the address, the name and the
/// interface. Of an unknown device the hardware address is told, unless it belongs
/// to a device with other addresses, and the interface of the capture.
pub open spec fn identity(
    known: Map<(u32, Seq<u8>), KnownModel>,
    all: Seq<KnownModel>,
    topology: Seq<InterfaceModel>,
    ifindex: u32,
    mac: Option<Seq<u8>>,
    ip: Seq<char>,
) -> (Seq<char>, Seq<char>, Seq<char>) {
    let hardware = match mac {
        Some(m) => Some((ifindex, m)),
        None => None,
    };
    match client_device(known, all, hardware, ip) {
        Some(k) => (mac_text(k.mac), k.hostname, k.logical_iface),
        None => (
            match hardware {
                Some(k) => if known.dom().contains(k) && !owns(known[k], ip) && !has_no_address(
                    known[k],
                ) {
                    Seq::empty()
                } else {
                    mac_text(k.1)
                },
                None => Seq::empty(),
            },
            Seq::empty(),
            match find_index(topology, ifindex) {
                Some(x) => x.name,
                None => Seq::empty(),
            },
        ),
    }
}

fn owns_text(k: &KnownDevice, ip: &str) -> (r: bool)
    ensures
        r == owns(k@, ip@),
{
    has_text(&k.ipv4, ip) || has_text(&k.ipv6, ip)
}

fn only_owner(registry: &DeviceRegistry, ip: &str) -> (r: Option<usize>)
    ensures
        match r {
            Some(i) => i < registry.entries.entries@.len() && owners(
                known_seq(registry.entries.entries@),
                ip@,
            ) == seq![registry.entries.entries@[i as int].1@],
            None => owners(known_seq(registry.entries.entries@), ip@).len() != 1,
        },
{
    let entries = &registry.entries.entries;
    let ghost s = known_seq(entries@);
    let mut first: Option<usize> = None;
    let mut count: usize = 0;
    let mut i: usize = 0;
    assert(s.take(0) =~= Seq::empty());
    while i < entries.len()
        invariant
            i <= entries@.len(),
            s == known_seq(entries@),
            count <= i,
            count == owners(s.take(i as int), ip@).len(),
            match first {
                Some(k) => k < i && count > 0 && owners(s.take(i as int), ip@)[0] == s[k as int],
                None => count == 0,
            },
        decreases entries@.len() - i,
    {
        assert(s.take(i + 1).drop_last() =~= s.take(i as int));
        assert(s.take(i + 1).last() == entries@[i as int].1@);
        if owns_text(&entries[i].1, ip) {
            count += 1;
            if first.is_none() {
                first = Some(i);
            }
        }
        i += 1;
    }
    assert(s.take(i as int) =~= s);
    if count == 1 {
        assert(owners(s, ip@) =~= seq![entries@[first->0 as int].1@]);
        first
    } else {
        None
    }
}

/// Finds the device that a client is.
pub fn resolve_device(
    registry: &DeviceRegistry,
    topology: &TopologySnapshot,
    header: &DnsPacketHeader,
    client_ip: &IpAddr,
) -> (r: DeviceIdentity)
    requires
        registry.entries.wf(),
    ensures
        (r.mac@, r.name@, r.iface@) == identity(
            known_by(registry.entries@),
            known_seq(registry.entries.entries@),
            topology@,
            header.ifindex,
            if header.has_mac != 0 {
                Some(header.mac@)
            } else {
                None
            },
            ip_text(client_ip@),
        ),
{
    let ip = client_ip.to_text();
    let ghost known = known_by(registry.entries@);
    let key = (header.ifindex, header.mac);
    assert(key@ == (header.ifindex, header.mac@));
    let mut tell_mac = header.has_mac != 0;
    let mut at: Option<usize> = None;
    if header.has_mac != 0 {
        if let Some(i) = registry.entries.find(&key) {
            let k = &registry.entries.entries[i].1;
            assert(known[(header.ifindex, header.mac@)] == k@);
            let bare = k.ipv4.len() == 0 && k.ipv6.len() == 0;
            if bare || owns_text(k, ip.as_str()) {
                at = Some(i);
            } else {
                tell_mac = false;
            }
        }
    }
    let chosen = match at {
        Some(i) => Some(i),
        None => only_owner(registry, ip.as_str()),
    };
    if let Some(i) = chosen {
        let k = &registry.entries.entries[i].1;
        return DeviceIdentity {
            mac: mac::to_string(&k.mac),
            name: k.hostname.clone(),
            iface: k.logical_iface.clone(),
        };
    }
    let iface = match topology.by_ifindex(header.ifindex) {
        Some(x) => x.name.clone(),
        None => String::new(),
    };
    let mac = if tell_mac {
        mac::to_string(&header.mac)
    } else {
        String::new()
    };
    let r = DeviceIdentity { mac, name: String::new(), iface };
    assert(r.name@ =~= Seq::empty());
    assert(!tell_mac ==> r.mac@ =~= Seq::empty());
    assert(find_index(topology@, header.ifindex) is None ==> r.iface@ =~= Seq::empty());
    r
}

proof fn lemma_owners(s: Seq<KnownModel>, ip: Seq<char>, i: int, j: int)
    requires
        0 <= i < j < s.len(),
        owns(s[i], ip),
        owns(s[j], ip),
    ensures
        owners(s, ip).len() >= 2,
    decreases s.len(),
{
    if j < s.len() - 1 {
        lemma_owners(s.drop_last(), ip, i, j);
    } else {
        lemma_one_owner(s.drop_last(), ip, i);
    }
}

proof fn lemma_one_owner(s: Seq<KnownModel>, ip: Seq<char>, i: int)
    requires
        0 <= i < s.len(),
        owns(s[i], ip),
    ensures
        owners(s, ip).len() >= 1,
    decreases s.len(),
{
    if i < s.len() - 1 {
        lemma_one_owner(s.drop_last(), ip, i);
    }
}

/// An address that two devices share is put down to neither, unless it is to the
/// device with the hardware address.
pub proof fn law_shared_address_is_not_guessed(
    known: Map<(u32, Seq<u8>), KnownModel>,
    all: Seq<KnownModel>,
    hardware: Option<(u32, Seq<u8>)>,
    ip: Seq<char>,
    i: int,
    j: int,
)
    requires
        0 <= i < j < all.len(),
        owns(all[i], ip),
        owns(all[j], ip),
    ensures
        client_device(known, all, hardware, ip) matches Some(d) ==> hardware matches Some(k)
            && known.dom().contains(k) && d == known[k],
{
    lemma_owners(all, ip, i, j);
}

/// Stored queries that are taken over have a response or are marked as without
/// one, and storing and taking them over again changes nothing.
pub proof fn law_taken_over_once(s: Seq<RecordModel>, max: nat)
    ensures
        ({
            let t = newest(s, max).map_values(|x: RecordModel| settled(x));
            &&& t.len() <= max
            &&& forall|i: int|
                0 <= i < t.len() ==> (#[trigger] t[i]).response_time_ms is Some
                    || t[i].response_code is Some
            &&& newest(t, max).map_values(|x: RecordModel| settled(x)) == t
        }),
{
    let t = newest(s, max).map_values(|x: RecordModel| settled(x));
    assert(newest(t, max).map_values(|x: RecordModel| settled(x)) =~= t);
}

} // verus!
