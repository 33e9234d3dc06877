//! The names of devices by hardware address, from the leases and the configuration
//! of the DHCP server.
use crate::dnsrec::{copy_text_opt, text_opt};
use crate::mac::{from_str, parsed_mac};
use crate::table::Table;
use crate::text::{
    chars_of, join, joined, line_seq, lines, split_whitespace, starts_with, text_eq, text_range,
    trim, trimmed, views, word_seq,
};
use vstd::prelude::*;

verus! {

/// Names by address, over plain values.
pub open spec fn names_by(m: Map<Seq<u8>, String>) -> Map<Seq<u8>, Seq<char>> {
    Map::new(|k: Seq<u8>| m.dom().contains(k), |k: Seq<u8>| m[k]@)
}

/// The lease that a line names: an address and a host name.
pub open spec fn lease_of(line: Seq<char>) -> Option<(Seq<u8>, Seq<char>)> {
    let t = trimmed(line);
    let p = word_seq(t);
    if t.len() == 0 || t[0] == '#' || p.len() < 4 || p[3] == "*"@ {
        None
    } else {
        match parsed_mac(p[1]) {
            Some(mac) => Some((mac, p[3])),
            None => None,
        }
    }
}

/// The names that lines of leases give; a later line counts.
pub open spec fn leases_of(lines: Seq<Seq<char>>) -> Map<Seq<u8>, Seq<char>>
    decreases lines.len(),
{
    if lines.len() == 0 {
        Map::empty()
    } else {
        let m = leases_of(lines.drop_last());
        match lease_of(lines.last()) {
            Some((mac, name)) => m.insert(mac, name),
            None => m,
        }
    }
}

fn read_lease(line: &str) -> (r: Option<([u8; 6], String)>)
    ensures
        match r {
            Some((mac, name)) => lease_of(line@) == Some((mac@, name@)),
            None => lease_of(line@) is None,
        },
{
    let t = trim(line);
    if t.as_str().is_empty() || starts_with(t.as_str(), "#") {
        proof {
            reveal_strlit("#");
            if t@.len() > 0 {
                assert(t@[0] == t@.subrange(0, 1)[0]);
                assert("#"@[0] == '#');
            }
        }
        return None;
    }
    assert(t@[0] != '#') by {
        reveal_strlit("#");
        if t@[0] == '#' {
            assert("#"@.is_prefix_of(t@));
        }
    }
    let parts = split_whitespace(t.as_str());
    let ghost p = word_seq(t@);
    assert(views(parts@) == p);
    if parts.len() < 4 {
        return None;
    }
    assert(p[1] == parts@[1]@);
    assert(p[3] == parts@[3]@);
    if text_eq(parts[3].as_str(), "*") {
        return None;
    }
    match from_str(parts[1].as_str()) {
        Ok(mac) => Some((mac, parts[3].clone())),
        Err(_) => None,
    }
}

/// The names of the DHCP server's leases.
pub fn parse_dnsmasq_leases(content: &str) -> (r: Table<[u8; 6], String>)
    ensures
        r.wf(),
        names_by(r@) == leases_of(line_seq(content@)),
{
    let all = lines(content);
    let ghost ls = line_seq(content@);
    let mut t: Table<[u8; 6], String> = Table::new();
    let mut i: usize = 0;
    assert(ls.take(0) =~= Seq::empty());
    assert(names_by(t@) =~= Map::empty());
    while i < all.len()
        invariant
            i <= all@.len(),
            views(all@) == ls,
            t.wf(),
            names_by(t@) == leases_of(ls.take(i as int)),
        decreases all@.len() - i,
    {
        assert(ls.take(i + 1).drop_last() =~= ls.take(i as int));
        assert(ls.take(i + 1).last() == all@[i as int]@);
        if let Some((mac, name)) = read_lease(all[i].as_str()) {
            let ghost m = t@;
            let ghost nv = name@;
            t.insert(mac, name);
            assert(names_by(t@) =~= names_by(m).insert(mac@, nv));
        }
        i += 1;
    }
    assert(ls.take(i as int) =~= ls);
    t
}

/// Where the reading of a configuration stands: whether it is in a host's section,
/// the addresses and the name of that section, and the names so far.
pub struct HostModel {
    pub in_host: bool,
    pub macs: Seq<Seq<u8>>,
    pub name: Option<Seq<char>>,
    pub names: Map<Seq<u8>, Seq<char>>,
}

/// A name for all addresses of a list.
pub open spec fn named(
    m: Map<Seq<u8>, Seq<char>>,
    macs: Seq<Seq<u8>>,
    name: Seq<char>,
) -> Map<Seq<u8>, Seq<char>>
    decreases macs.len(),
{
    if macs.len() == 0 {
        m
    } else {
        named(m, macs.drop_last(), name).insert(macs.last(), name)
    }
}

/// The names with those of the section that ends.
pub open spec fn flushed(h: HostModel) -> Map<Seq<u8>, Seq<char>> {
    match h.name {
        Some(n) => if h.in_host {
            named(h.names, h.macs, n)
        } else {
            h.names
        },
        None => h.names,
    }
}

/// A value without the quotes around it.
pub open spec fn unquoted(s: Seq<char>) -> Seq<char> {
    if s.len() >= 2 && ((s[0] == '\'' && s.last() == '\'') || (s[0] == '"' && s.last() == '"')) {
        s.subrange(1, s.len() - 1)
    } else {
        s
    }
}

/// The addresses that words name.
pub open spec fn macs_in(words: Seq<Seq<char>>) -> Seq<Seq<u8>>
    decreases words.len(),
{
    if words.len() == 0 {
        Seq::empty()
    } else {
        let before = macs_in(words.drop_last());
        match parsed_mac(words.last()) {
            Some(m) => before.push(m),
            None => before,
        }
    }
}

/// Where the reading stands after an option of a host's section.
pub open spec fn after_option(h: HostModel, p: Seq<Seq<char>>) -> HostModel {
    let value = unquoted(joined(p.skip(2), " "@));
    if p.len() < 3 {
        h
    } else if p[1] == "mac"@ {
        HostModel { macs: h.macs + macs_in(word_seq(value)), ..h }
    } else if p[1] == "name"@ {
        HostModel { name: Some(value), ..h }
    } else {
        h
    }
}

/// Where the reading stands after a line.
pub open spec fn after_line(h: HostModel, line: Seq<char>) -> HostModel {
    let t = trimmed(line);
    if "config host"@.is_prefix_of(t) {
        HostModel { in_host: true, macs: Seq::empty(), name: None, names: flushed(h) }
    } else if "config "@.is_prefix_of(t) || "package "@.is_prefix_of(t) {
        HostModel { in_host: false, macs: Seq::empty(), name: None, names: flushed(h) }
    } else if h.in_host && ("option "@.is_prefix_of(t) || "list "@.is_prefix_of(t)) {
        after_option(h, word_seq(t))
    } else {
        h
    }
}

/// Where the reading stands after lines.
pub open spec fn after_lines(lines: Seq<Seq<char>>) -> HostModel
    decreases lines.len(),
{
    if lines.len() == 0 {
        HostModel { in_host: false, macs: Seq::empty(), name: None, names: Map::empty() }
    } else {
        after_line(after_lines(lines.drop_last()), lines.last())
    }
}

struct HostReader {
    in_host: bool,
    macs: Vec<[u8; 6]>,
    name: Option<String>,
    names: Table<[u8; 6], String>,
}

/// Addresses over plain values.
pub open spec fn mac_views(v: Seq<[u8; 6]>) -> Seq<Seq<u8>> {
    Seq::new(v.len(), |i: int| v[i]@)
}

impl View for HostReader {
    type V = HostModel;

    closed spec fn view(&self) -> HostModel {
        HostModel {
            in_host: self.in_host,
            macs: mac_views(self.macs@),
            name: text_opt(self.name),
            names: names_by(self.names@),
        }
    }
}

impl HostReader {
    fn flush(&mut self)
        requires
            old(self).names.wf(),
        ensures
            final(self).names.wf(),
            final(self)@ == (HostModel {
                in_host: old(self)@.in_host,
                macs: Seq::empty(),
                name: None,
                names: flushed(old(self)@),
            }),
    {
        let ghost h = self@;
        if self.in_host {
            if let Some(name) = copy_text_opt(&self.name) {
                let mut i: usize = 0;
                assert(h.macs.take(0) =~= Seq::empty());
                while i < self.macs.len()
                    invariant
                        i <= self.macs@.len(),
                        self.names.wf(),
                        self@.in_host == h.in_host,
                        self@.macs == h.macs,
                        self@.names == named(h.names, h.macs.take(i as int), name@),
                    decreases self.macs@.len() - i,
                {
                    assert(h.macs.take(i + 1).drop_last() =~= h.macs.take(i as int));
                    assert(h.macs.take(i + 1).last() == self.macs@[i as int]@);
                    let ghost m = self.names@;
                    self.names.insert(self.macs[i], name.clone());
                    assert(names_by(self.names@) =~= names_by(m).insert(self.macs@[i as int]@, name@));
                    i += 1;
                }
                assert(h.macs.take(i as int) =~= h.macs);
            }
        }
        self.macs = Vec::new();
        self.name = None;
        assert(self@.macs =~= Seq::empty());
    }

    fn read_option(&mut self, line: &str)
        requires
            old(self).names.wf(),
        ensures
            final(self).names.wf(),
            final(self)@ == after_option(old(self)@, word_seq(line@)),
    {
        let ghost h = self@;
        let parts = split_whitespace(line);
        let ghost p = word_seq(line@);
        assert(views(parts@) == p);
        if parts.len() < 3 {
            return;
        }
        let mut rest: Vec<String> = Vec::new();
        let mut i: usize = 2;
        while i < parts.len()
            invariant
                2 <= i <= parts@.len(),
                views(parts@) == p,
                views(rest@) == p.subrange(2, i as int),
            decreases parts@.len() - i,
        {
            let ghost before = views(rest@);
            rest.push(parts[i].clone());
            assert(p[i as int] == parts@[i as int]@);
            assert(views(rest@) =~= before.push(p[i as int]));
            assert(before.push(p[i as int]) =~= p.subrange(2, i + 1));
            i += 1;
        }
        assert(p.subrange(2, i as int) =~= p.skip(2));
        let whole = join(&rest, " ");
        let value = unquote(whole.as_str());
        assert(p[1] == parts@[1]@);
        if text_eq(parts[1].as_str(), "mac") {
            let words = split_whitespace(value.as_str());
            let ghost ws = word_seq(value@);
            let mut i: usize = 0;
            assert(h.macs + macs_in(ws.take(0)) =~= h.macs);
            while i < words.len()
                invariant
                    i <= words@.len(),
                    views(words@) == ws,
                    self.names.wf(),
                    self@ == (HostModel { macs: h.macs + macs_in(ws.take(i as int)), ..h }),
                decreases words@.len() - i,
            {
                assert(ws.take(i + 1).drop_last() =~= ws.take(i as int));
                assert(ws.take(i + 1).last() == words@[i as int]@);
                if let Ok(mac) = from_str(words[i].as_str()) {
                    let ghost before = self@.macs;
                    self.macs.push(mac);
                    assert(self@.macs =~= before.push(mac@));
                    assert(before.push(mac@) =~= h.macs + macs_in(ws.take(i as int)).push(mac@));
                }
                i += 1;
            }
            assert(ws.take(i as int) =~= ws);
        } else if text_eq(parts[1].as_str(), "name") {
            self.name = Some(value);
        }
    }

    fn read_line(&mut self, line: &str)
        requires
            old(self).names.wf(),
        ensures
            final(self).names.wf(),
            final(self)@ == after_line(old(self)@, line@),
    {
        let t = trim(line);
        let s = t.as_str();
        if starts_with(s, "config host") {
            self.flush();
            self.in_host = true;
        } else if starts_with(s, "config ") || starts_with(s, "package ") {
            self.flush();
            self.in_host = false;
        } else if self.in_host && (starts_with(s, "option ") || starts_with(s, "list ")) {
            self.read_option(s);
        }
    }
}

fn unquote(s: &str) -> (r: String)
    ensures
        r@ == unquoted(s@),
{
    let cs = chars_of(s);
    let n = cs.len();
    if n >= 2 && ((cs[0] == '\'' && cs[n - 1] == '\'') || (cs[0] == '"' && cs[n - 1] == '"')) {
        text_range(&cs, 1, n - 1)
    } else {
        text_range(&cs, 0, n)
    }
}

/// The names of the hosts' sections of the DHCP server's configuration. A section
/// may give several addresses, as words of an option or in several lines.
pub fn parse_dhcp_hosts(content: &str) -> (r: Table<[u8; 6], String>)
    ensures
        r.wf(),
        names_by(r@) == flushed(after_lines(line_seq(content@))),
{
    let all = lines(content);
    let ghost ls = line_seq(content@);
    let mut h = HostReader { in_host: false, macs: Vec::new(), name: None, names: Table::new() };
    assert(ls.take(0) =~= Seq::empty());
    assert(h@.macs =~= Seq::empty());
    assert(h@.names =~= Map::empty());
    let mut i: usize = 0;
    while i < all.len()
        invariant
            i <= all@.len(),
            views(all@) == ls,
            h.names.wf(),
            h@ == after_lines(ls.take(i as int)),
        decreases all@.len() - i,
    {
        assert(ls.take(i + 1).drop_last() =~= ls.take(i as int));
        assert(ls.take(i + 1).last() == all@[i as int]@);
        h.read_line(all[i].as_str());
        i += 1;
    }
    assert(ls.take(i as int) =~= ls);
    h.flush();
    h.names
}

/// The names of both sources; where both name an address the configuration counts.
pub open spec fn merged_names(
    leases: Map<Seq<u8>, Seq<char>>,
    hosts: Map<Seq<u8>, Seq<char>>,
) -> Map<Seq<u8>, Seq<char>> {
    leases.union_prefer_right(hosts)
}

/// The names of devices by address, from the text of the leases and from the text
/// of the configuration, as far as these could be had.
pub fn list_hostname_by_mac(leases: Option<&str>, config: Option<&str>) -> (r: Table<
    [u8; 6],
    String,
>)
    ensures
        r.wf(),
        names_by(r@) == merged_names(
            match leases {
                Some(t) => leases_of(line_seq(t@)),
                None => Map::empty(),
            },
            match config {
                Some(t) => flushed(after_lines(line_seq(t@))),
                None => Map::empty(),
            },
        ),
{
    let mut result: Table<[u8; 6], String> = match leases {
        Some(t) => parse_dnsmasq_leases(t),
        None => Table::new(),
    };
    let ghost l = names_by(result@);
    assert(leases is None ==> l =~= Map::empty());
    match config {
        Some(t) => {
            let hosts = parse_dhcp_hosts(t);
            let ghost hm = hosts@;
            let mut i: usize = 0;
            while i < hosts.entries.len()
                invariant
                    i <= hosts.entries@.len(),
                    hosts.wf(),
                    hm == hosts@,
                    result.wf(),
                    forall|k: Seq<u8>| #[trigger]
                        result@.dom().contains(k) <==> l.dom().contains(k) || exists|j: int|
                            0 <= j < i && (#[trigger] hosts.entries@[j]).0@ == k,
                    forall|j: int|
                        0 <= j < i ==> result@[(#[trigger] hosts.entries@[j]).0@]@
                            == hosts.entries@[j].1@,
                    forall|k: Seq<u8>|
                        l.dom().contains(k) && (forall|j: int|
                            0 <= j < i ==> (#[trigger] hosts.entries@[j]).0@ != k) ==> (
                        #[trigger] result@[k])@ == l[k],
                decreases hosts.entries@.len() - i,
            {
                let e = &hosts.entries[i];
                assert(forall|j: int|
                    0 <= j < i ==> (#[trigger] hosts.entries@[j]).0@ != hosts.entries@[i as int].0@);
                result.insert(e.0, e.1.clone());
                i += 1;
            }
            assert(names_by(result@) =~= merged_names(l, names_by(hm))) by {
                assert forall|k: Seq<u8>| result@.dom().contains(k) <==> (l.dom().contains(k)
                    || hm.dom().contains(k)) by {
                    if hm.dom().contains(k) {
                        let p = hosts.place(k);
                        assert(hosts.entries@[p].0@ == k);
                    }
                    if exists|j: int| 0 <= j < i && (#[trigger] hosts.entries@[j]).0@ == k {
                        let j = choose|j: int| 0 <= j < i && (#[trigger] hosts.entries@[j]).0@ == k;
                        hosts.lemma_entry(j);
                    }
                }
                assert forall|k: Seq<u8>| result@.dom().contains(k) implies result@[k]@
                    == merged_names(l, names_by(hm))[k] by {
                    if hm.dom().contains(k) {
                        let p = hosts.place(k);
                        assert(hosts.entries@[p].0@ == k);
                        hosts.lemma_entry(p);
                    } else {
                        assert forall|j: int| 0 <= j < i implies (
                        #[trigger] hosts.entries@[j]).0@ != k by {
                            hosts.lemma_entry(j);
                        }
                    }
                }
            }
        },
        None => {
            assert(names_by(result@) =~= merged_names(l, Map::empty()));
        },
    }
    result
}

} // verus!
