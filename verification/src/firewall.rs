//! Firewall zones by network device.
use crate::interfaces::texts_by;
use crate::json::{
    field, json_model, json_read, lemma_list_model, lemma_members_model, list_model, members_model,
    read_json, text_value, Json, JsonModel,
};
use crate::system::has_text;
use crate::table::Table;
use crate::text::{text_eq, trim, trimmed, views};
use vstd::prelude::*;

verus! {

/// Why zones could not be had.
#[derive(Clone, Copy, Debug, PartialEq, Eq, Structural)]
pub enum ZoneError {
    /// The firewall's configuration is not JSON.
    FirewallSyntax,
    /// The list of networks is not JSON.
    NetworkSyntax,
    /// The list of networks has no array of interfaces.
    NoInterfaces,
    /// The firewall's configuration has no object of values.
    NoValues,
}

/// A list with a text, without white space around it, at its end, unless the text
/// is empty or in the list already.
pub open spec fn pushed_unique(s: Seq<Seq<char>>, t: Seq<char>) -> Seq<Seq<char>> {
    if trimmed(t).len() == 0 || s.contains(trimmed(t)) {
        s
    } else {
        s.push(trimmed(t))
    }
}

fn push_unique(v: &mut Vec<String>, value: &str)
    ensures
        views(final(v)@) == pushed_unique(views(old(v)@), value@),
{
    let ghost before = views(v@);
    let t = trim(value);
    if !t.as_str().is_empty() && !has_text(v, t.as_str()) {
        let ghost tv = t@;
        v.push(t);
        assert(views(v@) =~= before.push(tv));
    }
}

/// The texts of an optional value that is a text or a list, without white space
/// around them and without empty ones.
pub open spec fn texts_in(j: Option<JsonModel>) -> Seq<Seq<char>> {
    match j {
        Some(JsonModel::Text(t)) => filled_texts(seq![JsonModel::Text(t)]),
        Some(JsonModel::List(s)) => filled_texts(s),
        _ => Seq::empty(),
    }
}

/// The texts of a list of values that are not empty.
pub open spec fn filled_texts(s: Seq<JsonModel>) -> Seq<Seq<char>>
    decreases s.len(),
{
    if s.len() == 0 {
        Seq::empty()
    } else {
        let before = filled_texts(s.drop_last());
        match s.last() {
            JsonModel::Text(t) => if trimmed(t).len() == 0 {
                before
            } else {
                before.push(trimmed(t))
            },
            _ => before,
        }
    }
}

fn json_string_values(value: Option<&Json>) -> (r: Vec<String>)
    ensures
        views(r@) == texts_in(
            match value {
                Some(j) => Some(j@),
                None => None,
            },
        ),
{
    let mut r: Vec<String> = Vec::new();
    assert(views(r@) =~= Seq::empty());
    match value {
        Some(Json::Text(t)) => {
            let word = trim(t.as_str());
            let ghost one = seq![JsonModel::Text(t@)];
            assert(one.drop_last() =~= Seq::empty());
            assert(filled_texts(one.drop_last()) =~= Seq::empty());
            if !word.as_str().is_empty() {
                let ghost w = word@;
                r.push(word);
                assert(views(r@) =~= Seq::<Seq<char>>::empty().push(w));
            }
        },
        Some(Json::List(v)) => {
            let ghost s = list_model(v@);
            proof {
                lemma_list_model(v@);
            }
            let mut i: usize = 0;
            assert(s.take(0) =~= Seq::empty());
            while i < v.len()
                invariant
                    i <= v@.len(),
                    s.len() == v@.len(),
                    forall|j: int| 0 <= j < s.len() ==> #[trigger] s[j] == json_model(v@[j]),
                    views(r@) == filled_texts(s.take(i as int)),
                decreases v@.len() - i,
            {
                assert(s.take(i + 1).drop_last() =~= s.take(i as int));
                assert(s.take(i + 1).last() == json_model(v@[i as int]));
                let ghost before = views(r@);
                if let Json::Text(t) = &v[i] {
                    let word = trim(t.as_str());
                    if !word.as_str().is_empty() {
                        let ghost w = word@;
                        r.push(word);
                        assert(views(r@) =~= before.push(w));
                    }
                }
                i += 1;
            }
            assert(s.take(i as int) =~= s);
        },
        _ => {},
    }
    r
}

/// An optional text put at the end of a list.
pub open spec fn pushed_opt(s: Seq<Seq<char>>, t: Option<Seq<char>>) -> Seq<Seq<char>> {
    match t {
        Some(x) => pushed_unique(s, x),
        None => s,
    }
}

/// The devices of networks with those of one more network: its own name, its layer
/// 3 device and its device.
pub open spec fn with_network(
    m: Map<Seq<char>, Seq<Seq<char>>>,
    j: JsonModel,
) -> Map<Seq<char>, Seq<Seq<char>>> {
    match text_value(field(j, "interface"@)) {
        Some(t) => {
            let name = trimmed(t);
            if name.len() == 0 {
                m
            } else {
                let old = if m.dom().contains(name) {
                    m[name]
                } else {
                    Seq::empty()
                };
                m.insert(
                    name,
                    pushed_opt(
                        pushed_opt(
                            pushed_unique(old, name),
                            text_value(field(j, "l3_device"@)),
                        ),
                        text_value(field(j, "device"@)),
                    ),
                )
            }
        },
        None => m,
    }
}

/// The devices of all networks.
pub open spec fn networks_of(s: Seq<JsonModel>) -> Map<Seq<char>, Seq<Seq<char>>>
    decreases s.len(),
{
    if s.len() == 0 {
        Map::empty()
    } else {
        with_network(networks_of(s.drop_last()), s.last())
    }
}

fn add_network(t: &mut Table<String, Vec<String>>, j: &Json)
    requires
        old(t).wf(),
    ensures
        final(t).wf(),
        texts_by(final(t)@) == with_network(texts_by(old(t)@), j@),
{
    let ghost m = t@;
    if let Some(text) = j.text_field("interface") {
        let name = trim(text.as_str());
        if !name.as_str().is_empty() {
            let ghost kv = name@;
            let mut devices = match t.remove(&name) {
                Some(v) => v,
                None => Vec::new(),
            };
            let ghost old_list = if m.dom().contains(kv) {
                texts_by(m)[kv]
            } else {
                Seq::empty()
            };
            assert(views(devices@) =~= old_list);
            push_unique(&mut devices, name.as_str());
            if let Some(d) = j.text_field("l3_device") {
                push_unique(&mut devices, d.as_str());
            }
            if let Some(d) = j.text_field("device") {
                push_unique(&mut devices, d.as_str());
            }
            let ghost list = views(devices@);
            t.insert(name, devices);
            assert(texts_by(t@) =~= texts_by(m).insert(kv, list));
        }
    }
}

/// Texts by key, over plain values.
pub open spec fn text_by(m: Map<Seq<char>, String>) -> Map<Seq<char>, Seq<char>> {
    Map::new(|k: Seq<char>| m.dom().contains(k), |k: Seq<char>| m[k]@)
}

/// The map with a zone for a device that had none.
pub open spec fn with_zone(
    m: Map<Seq<char>, Seq<char>>,
    device: Seq<char>,
    zone: Seq<char>,
) -> Map<Seq<char>, Seq<char>> {
    if m.dom().contains(device) {
        m
    } else {
        m.insert(device, zone)
    }
}

/// The map with a zone for the devices of a list that had none.
pub open spec fn with_zones(
    m: Map<Seq<char>, Seq<char>>,
    devices: Seq<Seq<char>>,
    zone: Seq<char>,
) -> Map<Seq<char>, Seq<char>>
    decreases devices.len(),
{
    if devices.len() == 0 {
        m
    } else {
        with_zone(with_zones(m, devices.drop_last(), zone), devices.last(), zone)
    }
}

/// The map with a zone for the devices of networks; a network without devices
/// counts as a device itself.
pub open spec fn with_networks(
    m: Map<Seq<char>, Seq<char>>,
    names: Seq<Seq<char>>,
    networks: Map<Seq<char>, Seq<Seq<char>>>,
    zone: Seq<char>,
) -> Map<Seq<char>, Seq<char>>
    decreases names.len(),
{
    if names.len() == 0 {
        m
    } else {
        let before = with_networks(m, names.drop_last(), networks, zone);
        if networks.dom().contains(names.last()) {
            with_zones(before, networks[names.last()], zone)
        } else {
            with_zone(before, names.last(), zone)
        }
    }
}

/// The map with the devices of one entry of the firewall's configuration, which
/// counts only where it is a zone with a name.
pub open spec fn with_entry(
    m: Map<Seq<char>, Seq<char>>,
    j: JsonModel,
    networks: Map<Seq<char>, Seq<Seq<char>>>,
) -> Map<Seq<char>, Seq<char>> {
    match (text_value(field(j, ".type"@)), text_value(field(j, "name"@))) {
        (Some(kind), Some(name)) => if kind == "zone"@ && trimmed(name).len() > 0 {
            with_zones(
                with_networks(m, texts_in(field(j, "network"@)), networks, trimmed(name)),
                texts_in(field(j, "device"@)),
                trimmed(name),
            )
        } else {
            m
        },
        _ => m,
    }
}

/// The zones that entries of the firewall's configuration give.
pub open spec fn zones_of(
    s: Seq<(Seq<char>, JsonModel)>,
    networks: Map<Seq<char>, Seq<Seq<char>>>,
) -> Map<Seq<char>, Seq<char>>
    decreases s.len(),
{
    if s.len() == 0 {
        Map::empty()
    } else {
        with_entry(zones_of(s.drop_last(), networks), s.last().1, networks)
    }
}

fn add_zone(t: &mut Table<String, String>, device: &String, zone: &String)
    requires
        old(t).wf(),
    ensures
        final(t).wf(),
        text_by(final(t)@) == with_zone(text_by(old(t)@), device@, zone@),
{
    let ghost m = t@;
    if !t.contains(device) {
        t.insert(device.clone(), zone.clone());
        assert(text_by(t@) =~= text_by(m).insert(device@, zone@));
    }
}

fn add_zones(t: &mut Table<String, String>, devices: &Vec<String>, zone: &String)
    requires
        old(t).wf(),
    ensures
        final(t).wf(),
        text_by(final(t)@) == with_zones(text_by(old(t)@), views(devices@), zone@),
{
    let ghost m = text_by(t@);
    let ghost ds = views(devices@);
    let mut i: usize = 0;
    assert(ds.take(0) =~= Seq::empty());
    while i < devices.len()
        invariant
            i <= devices@.len(),
            ds == views(devices@),
            t.wf(),
            text_by(t@) == with_zones(m, ds.take(i as int), zone@),
        decreases devices@.len() - i,
    {
        assert(ds.take(i + 1).drop_last() =~= ds.take(i as int));
        assert(ds.take(i + 1).last() == devices@[i as int]@);
        add_zone(t, &devices[i], zone);
        i += 1;
    }
    assert(ds.take(i as int) =~= ds);
}

fn add_entry(t: &mut Table<String, String>, j: &Json, networks: &Table<String, Vec<String>>)
    requires
        old(t).wf(),
        networks.wf(),
    ensures
        final(t).wf(),
        text_by(final(t)@) == with_entry(text_by(old(t)@), j@, texts_by(networks@)),
{
    let ghost m = text_by(t@);
    let ghost ns = texts_by(networks@);
    let kind = match j.text_field(".type") {
        Some(k) => k,
        None => {
            return;
        },
    };
    let name = match j.text_field("name") {
        Some(n) => trim(n.as_str()),
        None => {
            return;
        },
    };
    if !text_eq(kind.as_str(), "zone") || name.as_str().is_empty() {
        return;
    }
    let names = json_string_values(j.get("network"));
    let ghost nv = views(names@);
    assert(nv == texts_in(field(j@, "network"@)));
    let mut i: usize = 0;
    assert(nv.take(0) =~= Seq::empty());
    while i < names.len()
        invariant
            i <= names@.len(),
            nv == views(names@),
            t.wf(),
            networks.wf(),
            ns == texts_by(networks@),
            text_by(t@) == with_networks(m, nv.take(i as int), ns, name@),
        decreases names@.len() - i,
    {
        assert(nv.take(i + 1).drop_last() =~= nv.take(i as int));
        assert(nv.take(i + 1).last() == names@[i as int]@);
        match networks.get(&names[i]) {
            Some(devices) => {
                add_zones(t, devices, &name);
            },
            None => {
                add_zone(t, &names[i], &name);
            },
        }
        i += 1;
    }
    assert(nv.take(i as int) =~= nv);
    let devices = json_string_values(j.get("device"));
    assert(views(devices@) == texts_in(field(j@, "device"@)));
    add_zones(t, &devices, &name);
}

/// The zones by device, or why there are none.
pub open spec fn zones_by_device(firewall: JsonModel, network: JsonModel) -> Result<
    Map<Seq<char>, Seq<char>>,
    ZoneError,
> {
    match (field(network, "interface"@), field(firewall, "values"@)) {
        (Some(JsonModel::List(s)), Some(JsonModel::Object(v))) => Ok(zones_of(v, networks_of(s))),
        (Some(JsonModel::List(_)), _) => Err(ZoneError::NoValues),
        _ => Err(ZoneError::NoInterfaces),
    }
}

/// The firewall zones by device: those of networks are given to the devices of the
/// networks. A device keeps the first zone that it gets.
pub fn parse_firewall_zones_by_device(firewall: &Json, network: &Json) -> (r: Result<
    Table<String, String>,
    ZoneError,
>)
    ensures
        match r {
            Ok(t) => t.wf() && zones_by_device(firewall@, network@) == Ok::<
                Map<Seq<char>, Seq<char>>,
                ZoneError,
            >(text_by(t@)),
            Err(e) => zones_by_device(firewall@, network@) == Err::<
                Map<Seq<char>, Seq<char>>,
                ZoneError,
            >(e),
        },
{
    let mut networks: Table<String, Vec<String>> = Table::new();
    assert(texts_by(networks@) =~= Map::empty());
    let list = match network.get("interface") {
        Some(Json::List(v)) => v,
        _ => {
            return Err(ZoneError::NoInterfaces);
        },
    };
    let ghost s = list_model(list@);
    proof {
        lemma_list_model(list@);
    }
    let mut i: usize = 0;
    assert(s.take(0) =~= Seq::empty());
    while i < list.len()
        invariant
            i <= list@.len(),
            s.len() == list@.len(),
            forall|j: int| 0 <= j < s.len() ==> #[trigger] s[j] == json_model(list@[j]),
            networks.wf(),
            texts_by(networks@) == networks_of(s.take(i as int)),
        decreases list@.len() - i,
    {
        assert(s.take(i + 1).drop_last() =~= s.take(i as int));
        assert(s.take(i + 1).last() == json_model(list@[i as int]));
        add_network(&mut networks, &list[i]);
        i += 1;
    }
    assert(s.take(i as int) =~= s);
    let values = match firewall.get("values") {
        Some(Json::Object(v)) => v,
        _ => {
            return Err(ZoneError::NoValues);
        },
    };
    let ghost ms = members_model(values@);
    let ghost ns = texts_by(networks@);
    proof {
        lemma_members_model(values@);
    }
    let mut zones: Table<String, String> = Table::new();
    assert(text_by(zones@) =~= Map::empty());
    let mut i: usize = 0;
    assert(ms.take(0) =~= Seq::empty());
    while i < values.len()
        invariant
            i <= values@.len(),
            ms.len() == values@.len(),
            forall|j: int|
                0 <= j < ms.len() ==> #[trigger] ms[j] == (values@[j].0@, json_model(values@[j].1)),
            networks.wf(),
            ns == texts_by(networks@),
            zones.wf(),
            text_by(zones@) == zones_of(ms.take(i as int), ns),
        decreases values@.len() - i,
    {
        assert(ms.take(i + 1).drop_last() =~= ms.take(i as int));
        assert(ms.take(i + 1).last() == ms[i as int]);
        add_entry(&mut zones, &values[i].1, &networks);
        i += 1;
    }
    assert(ms.take(i as int) =~= ms);
    Ok(zones)
}

/// The zones that two texts of JSON give.
pub open spec fn zones_read(firewall: Seq<u8>, network: Seq<u8>) -> Result<
    Map<Seq<char>, Seq<char>>,
    ZoneError,
> {
    match (json_read(firewall), json_read(network)) {
        (Some(f), Some(n)) => zones_by_device(f, n),
        (Some(_), None) => Err(ZoneError::NetworkSyntax),
        (None, _) => Err(ZoneError::FirewallSyntax),
    }
}

/// The firewall zones by device, from the firewall's configuration and the list of
/// networks as they were printed.
pub fn list_firewall_zones_by_device(firewall: &[u8], network: &[u8]) -> (r: Result<
    Table<String, String>,
    ZoneError,
>)
    ensures
        match r {
            Ok(t) => t.wf() && zones_read(firewall@, network@) == Ok::<
                Map<Seq<char>, Seq<char>>,
                ZoneError,
            >(text_by(t@)),
            Err(e) => zones_read(firewall@, network@) == Err::<
                Map<Seq<char>, Seq<char>>,
                ZoneError,
            >(e),
        },
{
    let f = match read_json(firewall) {
        Ok(j) => j,
        Err(_) => {
            return Err(ZoneError::FirewallSyntax);
        },
    };
    let n = match read_json(network) {
        Ok(j) => j,
        Err(_) => {
            return Err(ZoneError::NetworkSyntax);
        },
    };
    parse_firewall_zones_by_device(&f, &n)
}

/// A device keeps the first zone that it gets, whatever entries follow.
pub proof fn law_first_zone_stays(
    s: Seq<(Seq<char>, JsonModel)>,
    networks: Map<Seq<char>, Seq<Seq<char>>>,
    n: int,
    device: Seq<char>,
)
    requires
        0 <= n <= s.len(),
        zones_of(s.take(n), networks).dom().contains(device),
    ensures
        zones_of(s, networks).dom().contains(device),
        zones_of(s, networks)[device] == zones_of(s.take(n), networks)[device],
    decreases s.len() - n,
{
    if n < s.len() {
        assert(s.take(n + 1).drop_last() =~= s.take(n));
        lemma_entry_keeps(zones_of(s.take(n), networks), s.take(n + 1).last().1, networks, device);
        law_first_zone_stays(s, networks, n + 1, device);
    } else {
        assert(s.take(n) =~= s);
    }
}

proof fn lemma_zones_keep(
    m: Map<Seq<char>, Seq<char>>,
    devices: Seq<Seq<char>>,
    zone: Seq<char>,
    device: Seq<char>,
)
    requires
        m.dom().contains(device),
    ensures
        with_zones(m, devices, zone).dom().contains(device),
        with_zones(m, devices, zone)[device] == m[device],
    decreases devices.len(),
{
    if devices.len() > 0 {
        lemma_zones_keep(m, devices.drop_last(), zone, device);
    }
}

proof fn lemma_networks_keep(
    m: Map<Seq<char>, Seq<char>>,
    names: Seq<Seq<char>>,
    networks: Map<Seq<char>, Seq<Seq<char>>>,
    zone: Seq<char>,
    device: Seq<char>,
)
    requires
        m.dom().contains(device),
    ensures
        with_networks(m, names, networks, zone).dom().contains(device),
        with_networks(m, names, networks, zone)[device] == m[device],
    decreases names.len(),
{
    if names.len() > 0 {
        lemma_networks_keep(m, names.drop_last(), networks, zone, device);
        let before = with_networks(m, names.drop_last(), networks, zone);
        if networks.dom().contains(names.last()) {
            lemma_zones_keep(before, networks[names.last()], zone, device);
        }
    }
}

proof fn lemma_entry_keeps(
    m: Map<Seq<char>, Seq<char>>,
    j: JsonModel,
    networks: Map<Seq<char>, Seq<Seq<char>>>,
    device: Seq<char>,
)
    requires
        m.dom().contains(device),
    ensures
        with_entry(m, j, networks).dom().contains(device),
        with_entry(m, j, networks)[device] == m[device],
{
    if let Some(name) = text_value(field(j, "name"@)) {
        let zone = trimmed(name);
        let names = texts_in(field(j, "network"@));
        lemma_networks_keep(m, names, networks, zone, device);
        lemma_zones_keep(
            with_networks(m, names, networks, zone),
            texts_in(field(j, "device"@)),
            zone,
            device,
        );
    }
}

} // verus!
