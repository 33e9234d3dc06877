//! What the system says of its interfaces, networks and hosts.
use crate::hosts::{
    after_line, after_lines, flushed, lease_of, leases_of, macs_in, merged_names,
    named, unquoted, HostModel,
};
use crate::interfaces::{
    addressed, byte_ones, ones, subnet_of, subnets_of, with_address, with_addresses, InfoModel,
    InterfaceAddress,
};
use crate::ip::{ip_text, IpAddr};
use crate::mac::{law_mac_roundtrip, mac_text};
use crate::neighbors::{
    are_words, is_word, law_line_is_read_by_its_words, lemma_mac_word, spaced,
};
use crate::number::dec;
use crate::text::{drop_white, is_white, joined, skip_white, trimmed, word_seq};
use vstd::prelude::*;

verus! {

pub(crate) proof fn lemma_trimmed(s: Seq<char>)
    requires
        s.len() > 0,
        !is_white(s[0]),
        !is_white(s.last()),
    ensures
        trimmed(s) == s,
{
    assert(skip_white(s) == s);
    assert(drop_white(s) == s);
}

proof fn lemma_spaced_ends(ws: Seq<Seq<char>>)
    requires
        are_words(ws),
        ws.len() > 0,
    ensures
        spaced(ws).len() > 0,
        spaced(ws)[0] == ws[0][0],
        spaced(ws).last() == ws.last().last(),
        trimmed(spaced(ws)) == spaced(ws),
    decreases ws.len(),
{
    let s = spaced(ws);
    assert(is_word(ws[0]));
    assert(is_word(ws[ws.len() - 1]));
    assert(!is_white(ws[0][0]));
    let l = ws[ws.len() - 1];
    assert(!is_white(l[l.len() - 1]));
    if ws.len() > 1 {
        let rest = ws.drop_first();
        assert forall|i: int| 0 <= i < rest.len() implies is_word(#[trigger] rest[i]) by {
            assert(rest[i] == ws[i + 1]);
        }
        lemma_spaced_ends(rest);
        assert(s.last() == spaced(rest).last());
        assert(rest.last() == ws.last());
    }
    lemma_trimmed(s);
}

proof fn lemma_mac_is_word(m: Seq<u8>)
    requires
        m.len() == 6,
    ensures
        is_word(mac_text(m)),
{
    lemma_mac_word(m, 0);
}

/// A line of the lease file names the device with its hardware address, unless the name is a
/// star.
pub proof fn law_lease_line_is_read(
    expiry: Seq<char>,
    m: Seq<u8>,
    ip: Seq<char>,
    name: Seq<char>,
    id: Seq<char>,
)
    requires
        is_word(expiry),
        is_word(ip),
        is_word(name),
        is_word(id),
        expiry[0] != '#',
        m.len() == 6,
    ensures
        lease_of(spaced(seq![expiry, mac_text(m), ip, name, id])) == if name == "*"@ {
            None
        } else {
            Some((m, name))
        },
{
    let ws = seq![expiry, mac_text(m), ip, name, id];
    lemma_mac_is_word(m);
    assert(are_words(ws));
    lemma_spaced_ends(ws);
    law_line_is_read_by_its_words(ws);
    law_mac_roundtrip(m);
}

/// The name of a device is that of the last line which names it.
pub proof fn law_last_lease_names_its_device(
    lines: Seq<Seq<char>>,
    i: int,
    m: Seq<u8>,
    name: Seq<char>,
)
    requires
        0 <= i < lines.len(),
        lease_of(lines[i]) == Some((m, name)),
        forall|j: int|
            i < j < lines.len() ==> (lease_of(#[trigger] lines[j]) matches Some(l) ==> l.0 != m),
    ensures
        leases_of(lines).dom().contains(m),
        leases_of(lines)[m] == name,
    decreases lines.len(),
{
    if i < lines.len() - 1 {
        let front = lines.drop_last();
        assert(front[i] == lines[i]);
        assert forall|j: int| i < j < front.len() implies (lease_of(
            #[trigger] front[j],
        ) matches Some(l) ==> l.0 != m) by {
            assert(front[j] == lines[j]);
        }
        law_last_lease_names_its_device(front, i, m, name);
        assert(lease_of(lines[lines.len() - 1]) matches Some(l) ==> l.0 != m);
    }
}

/// A word in quotes.
pub open spec fn quoted(w: Seq<char>) -> Seq<char> {
    seq!['\''] + w + seq!['\'']
}

proof fn lemma_quoted(w: Seq<char>)
    requires
        is_word(w),
    ensures
        is_word(quoted(w)),
        unquoted(quoted(w)) == w,
{
    let q = quoted(w);
    assert forall|i: int| 0 <= i < q.len() implies !is_white(#[trigger] q[i]) by {
        if 0 < i < q.len() - 1 {
            assert(q[i] == w[i - 1]);
        }
    }
    assert(q.subrange(1, q.len() - 1) =~= w);
}

/// The line of an option of a host.
pub open spec fn option_line(key: Seq<char>, value: Seq<char>) -> Seq<char> {
    spaced(seq!["option"@, key, quoted(value)])
}

proof fn lemma_option_line(h: HostModel, key: Seq<char>, value: Seq<char>)
    requires
        h.in_host,
        is_word(key),
        is_word(value),
    ensures
        after_line(h, option_line(key, value)) == if key == "mac"@ {
            HostModel { macs: h.macs + macs_in(word_seq(value)), ..h }
        } else if key == "name"@ {
            HostModel { name: Some(value), ..h }
        } else {
            h
        },
{
    let q = quoted(value);
    let ws = seq!["option"@, key, q];
    reveal_strlit("option");
    reveal_strlit("option ");
    reveal_strlit("config ");
    reveal_strlit("config host");
    reveal_strlit("package ");
    reveal_strlit(" ");
    lemma_quoted(value);
    assert(is_word("option"@));
    assert(are_words(ws));
    lemma_spaced_ends(ws);
    law_line_is_read_by_its_words(ws);
    let t = spaced(ws);
    reveal_with_fuel(spaced, 3);
    let rest = ws.drop_first();
    assert(t == "option"@ + seq![' '] + spaced(rest));
    assert("option "@ =~= t.subrange(0, 7));
    assert(t[0] == 'o');
    assert(!"config host"@.is_prefix_of(t)) by {
        assert("config host"@[0] == 'c');
        if "config host"@.is_prefix_of(t) {
            assert(t.subrange(0, 11)[0] == t[0]);
        }
    }
    assert(!"config "@.is_prefix_of(t)) by {
        assert("config "@[0] == 'c');
        if "config "@.is_prefix_of(t) {
            assert(t.subrange(0, 7)[0] == t[0]);
        }
    }
    assert(!"package "@.is_prefix_of(t)) by {
        assert("package "@[0] == 'p');
        if "package "@.is_prefix_of(t) {
            assert(t.subrange(0, 8)[0] == t[0]);
        }
    }
    assert(ws.skip(2) =~= seq![q]);
    assert(joined(seq![q], " "@) == q);
    reveal_strlit("mac");
    reveal_strlit("name");
}

/// A host of the configuration is named by its section: its name and its hardware address
/// follow the line that begins it, and what was configured before stays.
pub proof fn law_configured_host_is_named(before: Seq<Seq<char>>, name: Seq<char>, m: Seq<u8>)
    requires
        is_word(name),
        m.len() == 6,
    ensures
        flushed(
            after_lines(
                before + seq![
                    "config host"@,
                    option_line("name"@, name),
                    option_line("mac"@, mac_text(m)),
                ],
            ),
        ) == flushed(after_lines(before)).insert(m, name),
{
    let a = before.push("config host"@);
    let b = a.push(option_line("name"@, name));
    let c = b.push(option_line("mac"@, mac_text(m)));
    assert(before + seq![
        "config host"@,
        option_line("name"@, name),
        option_line("mac"@, mac_text(m)),
    ] =~= c);
    assert(a.drop_last() =~= before && b.drop_last() =~= a && c.drop_last() =~= b);
    reveal_strlit("config host");
    lemma_trimmed("config host"@);
    assert("config host"@.subrange(0, 11) =~= "config host"@);
    let h = after_lines(a);
    assert(h.in_host && h.names == flushed(after_lines(before)));
    reveal_strlit("name");
    reveal_strlit("mac");
    assert("name"@.len() != "mac"@.len());
    assert(is_word("name"@));
    assert(is_word("mac"@));
    lemma_option_line(h, "name"@, name);
    let g = after_lines(b);
    assert(g.name == Some(name));
    let t = mac_text(m);
    lemma_mac_is_word(m);
    lemma_option_line(g, "mac"@, t);
    let one = seq![t];
    assert(are_words(one));
    law_line_is_read_by_its_words(one);
    assert(spaced(one) == t);
    law_mac_roundtrip(m);
    reveal_with_fuel(macs_in, 2);
    assert(one.drop_last() =~= Seq::empty());
    assert(macs_in(one) =~= seq![m]);
    let f = after_lines(c);
    assert(f.macs =~= seq![m]);
    reveal_with_fuel(named, 2);
    assert(f.macs.drop_last() =~= Seq::empty());
}

/// A configured name goes before a leased one.
pub proof fn law_configured_name_goes_first(
    leases: Map<Seq<u8>, Seq<char>>,
    hosts: Map<Seq<u8>, Seq<char>>,
    m: Seq<u8>,
)
    ensures
        ({
            let all = merged_names(leases, hosts);
            &&& hosts.dom().contains(m) ==> all.dom().contains(m) && all[m] == hosts[m]
            &&& !hosts.dom().contains(m) && leases.dom().contains(m) ==> all.dom().contains(m)
                && all[m] == leases[m]
            &&& all.dom().contains(m) ==> hosts.dom().contains(m) || leases.dom().contains(m)
        }),
{
}

/// Whether interfaces have different names.
pub open spec fn names_differ(s: Seq<InfoModel>) -> bool {
    forall|i: int, j: int| 0 <= i < j < s.len() ==> (#[trigger] s[i]).name != (#[trigger] s[j]).name
}

/// Whether an interface has an address.
pub open spec fn has_address(x: InfoModel, a: IpAddr) -> bool {
    match a {
        IpAddr::V4(b) => x.ipv4.contains(ip_text(b@)),
        IpAddr::V6(b) => exists|i: int|
            0 <= i < x.ipv6.len() && (#[trigger] x.ipv6[i]).0 == ip_text(b@),
    }
}

/// Whether two views of an interface differ at most by its addresses and flags.
pub open spec fn same_but_addresses(x: InfoModel, y: InfoModel) -> bool {
    y == InfoModel { flags: y.flags, ipv4: y.ipv4, ipv6: y.ipv6, ..x }
}

proof fn lemma_addressed(x: InfoModel, a: InterfaceAddress, b: IpAddr)
    ensures
        same_but_addresses(x, addressed(x, a)),
        has_address(x, b) ==> has_address(addressed(x, a), b),
        a.address matches Some(c) ==> has_address(addressed(x, a), c),
        has_address(addressed(x, a), b) ==> has_address(x, b) || (a.address matches Some(c) && ip_text(
            c@,
        ) == ip_text(b@)),
{
    let y = addressed(x, a);
    match a.address {
        Some(IpAddr::V4(c)) => {
            let t = ip_text(c@);
            assert(x.ipv4.push(t)[x.ipv4.len() as int] == t);
        },
        Some(IpAddr::V6(c)) => {
            let t = ip_text(c@);
            if !(exists|i: int| 0 <= i < x.ipv6.len() && (#[trigger] x.ipv6[i]).0 == t) {
                assert(y.ipv6[x.ipv6.len() as int].0 == t);
            }
        },
        None => {},
    }
    match b {
        IpAddr::V4(c) => {
            let t = ip_text(c@);
            if x.ipv4.contains(t) {
                let i = choose|i: int| 0 <= i < x.ipv4.len() && x.ipv4[i] == t;
                assert(y.ipv4[i] == t);
            }
            if y.ipv4.contains(t) {
                let i = choose|i: int| 0 <= i < y.ipv4.len() && y.ipv4[i] == t;
                if i < x.ipv4.len() {
                    assert(x.ipv4[i] == t);
                }
            }
        },
        IpAddr::V6(c) => {
            let t = ip_text(c@);
            if has_address(x, b) {
                let i = choose|i: int| 0 <= i < x.ipv6.len() && (#[trigger] x.ipv6[i]).0 == t;
                assert(y.ipv6[i].0 == t);
            }
            if has_address(y, b) {
                let i = choose|i: int| 0 <= i < y.ipv6.len() && (#[trigger] y.ipv6[i]).0 == t;
                if i < x.ipv6.len() {
                    assert(x.ipv6[i].0 == t);
                }
            }
        },
    }
}

proof fn lemma_with_address(s: Seq<InfoModel>, a: InterfaceAddress, i: int)
    requires
        names_differ(s),
        0 <= i < s.len(),
    ensures
        with_address(s, a).len() == s.len(),
        with_address(s, a)[i] == if s[i].name == a.name@ {
            addressed(s[i], a)
        } else {
            s[i]
        },
    decreases s.len(),
{
    let rest = s.drop_first();
    assert(names_differ(rest)) by {
        assert forall|x: int, y: int| 0 <= x < y < rest.len() implies (#[trigger] rest[x]).name != (
        #[trigger] rest[y]).name by {
            assert(rest[x] == s[x + 1] && rest[y] == s[y + 1]);
        }
    }
    if i > 0 {
        assert(s[0].name != s[i].name);
        lemma_with_address(rest, a, i - 1);
        assert(rest[i - 1] == s[i]);
    } else if rest.len() > 0 {
        lemma_with_address(rest, a, 0);
    } else {
        assert(with_address(rest, a).len() == 0);
    }
}

proof fn lemma_with_addresses(s: Seq<InfoModel>, addrs: Seq<InterfaceAddress>, i: int)
    requires
        names_differ(s),
        0 <= i < s.len(),
    ensures
        with_addresses(s, addrs).len() == s.len(),
        names_differ(with_addresses(s, addrs)),
        same_but_addresses(s[i], with_addresses(s, addrs)[i]),
    decreases addrs.len(),
{
    if addrs.len() > 0 {
        let front = addrs.drop_last();
        let t = with_addresses(s, front);
        lemma_with_addresses(s, front, i);
        lemma_with_address(t, addrs.last(), i);
        assert(same_but_addresses(t[i], addressed(t[i], addrs.last())));
        let r = with_addresses(s, addrs);
        assert forall|x: int, y: int| 0 <= x < y < r.len() implies (#[trigger] r[x]).name != (
        #[trigger] r[y]).name by {
            lemma_with_address(t, addrs.last(), x);
            lemma_with_address(t, addrs.last(), y);
            assert(same_but_addresses(t[x], addressed(t[x], addrs.last())));
            assert(same_but_addresses(t[y], addressed(t[y], addrs.last())));
            assert(t[x].name != t[y].name);
        }
    }
}

/// An interface has every address that is listed under its name and, besides those that it
/// had, no other. Nothing else of it but its flags changes.
pub proof fn law_interface_has_its_addresses(
    s: Seq<InfoModel>,
    addrs: Seq<InterfaceAddress>,
    i: int,
    b: IpAddr,
)
    requires
        names_differ(s),
        0 <= i < s.len(),
    ensures
        ({
            let r = with_addresses(s, addrs);
            &&& r.len() == s.len()
            &&& same_but_addresses(s[i], r[i])
            &&& forall|j: int|
                0 <= j < addrs.len() && (#[trigger] addrs[j]).name@ == s[i].name ==> (
                addrs[j].address matches Some(c) ==> has_address(r[i], c))
            &&& has_address(s[i], b) ==> has_address(r[i], b)
            &&& has_address(r[i], b) && !has_address(s[i], b) ==> exists|j: int|
                0 <= j < addrs.len() && (#[trigger] addrs[j]).name@ == s[i].name && (
                addrs[j].address matches Some(c) && ip_text(c@) == ip_text(b@))
        }),
    decreases addrs.len(),
{
    lemma_with_addresses(s, addrs, i);
    if addrs.len() > 0 {
        let front = addrs.drop_last();
        let a = addrs.last();
        let n = addrs.len() - 1;
        let t = with_addresses(s, front);
        let r = with_addresses(s, addrs);
        lemma_with_addresses(s, front, i);
        law_interface_has_its_addresses(s, front, i, b);
        lemma_with_address(t, a, i);
        lemma_addressed(t[i], a, b);
        assert(addrs[n] == a);
        assert forall|j: int|
            0 <= j < addrs.len() && (#[trigger] addrs[j]).name@ == s[i].name implies (
        addrs[j].address matches Some(c) ==> has_address(r[i], c)) by {
            if let Some(c) = addrs[j].address {
                if j < n {
                    assert(front[j] == addrs[j]);
                    lemma_addressed(t[i], a, c);
                }
            }
        }
        if has_address(r[i], b) && !has_address(s[i], b) {
            if has_address(t[i], b) {
                let j = choose|j: int|
                    0 <= j < front.len() && (#[trigger] front[j]).name@ == s[i].name && (
                    front[j].address matches Some(c) && ip_text(c@) == ip_text(b@));
                assert(addrs[j] == front[j]);
            } else {
                assert(addrs[n].name@ == s[i].name);
            }
        }
    }
}

/// The length of the prefix that a byte of a mask adds: so many ones and then zeros.
pub open spec fn mask_byte(bits: int) -> u8 {
    if bits <= 0 {
        0
    } else if bits == 1 {
        0x80
    } else if bits == 2 {
        0xc0
    } else if bits == 3 {
        0xe0
    } else if bits == 4 {
        0xf0
    } else if bits == 5 {
        0xf8
    } else if bits == 6 {
        0xfc
    } else if bits == 7 {
        0xfe
    } else {
        0xff
    }
}

/// The network of an address is written with the length of the prefix that its mask has.
pub proof fn law_subnet_has_the_length_of_its_mask(a: InterfaceAddress, n: int)
    requires
        0 <= n <= 32,
        a.address matches Some(IpAddr::V4(_)),
        a.netmask matches Some(IpAddr::V4(m)) && m@ == seq![
            mask_byte(n),
            mask_byte(n - 8),
            mask_byte(n - 16),
            mask_byte(n - 24),
        ],
    ensures
        a.address matches Some(x) && subnet_of(a) == Some(ip_text(x@) + "/"@ + dec(n as nat)),
{
    reveal_strlit("/");
    assert("/"@ =~= seq!['/']);
    let m = match a.netmask {
        Some(IpAddr::V4(m)) => m@,
        _ => Seq::empty(),
    };
    reveal_with_fuel(ones, 5);
    let m3 = m.drop_last();
    let m2 = m3.drop_last();
    let m1 = m2.drop_last();
    assert(m.last() == mask_byte(n - 24) && m3.last() == mask_byte(n - 16) && m2.last() == mask_byte(
        n - 8,
    ) && m1.last() == mask_byte(n));
    lemma_mask_byte(n);
    lemma_mask_byte(n - 8);
    lemma_mask_byte(n - 16);
    lemma_mask_byte(n - 24);
    assert(m1.drop_last().len() == 0);
    assert(ones(m) == n);
}

proof fn lemma_mask_byte(bits: int)
    ensures
        byte_ones(mask_byte(bits)) == if bits <= 0 {
            0
        } else if bits >= 8 {
            8
        } else {
            bits
        },
{
    assert(byte_ones(0x80) == 1 && byte_ones(0xc0) == 2 && byte_ones(0xe0) == 3 && byte_ones(0xf0)
        == 4 && byte_ones(0xf8) == 5 && byte_ones(0xfc) == 6 && byte_ones(0xfe) == 7 && byte_ones(
        0xff,
    ) == 8 && byte_ones(0) == 0);
}

/// An interface has the networks of all its addresses, each under its own name.
pub proof fn law_subnets_are_listed_by_name(addrs: Seq<InterfaceAddress>, i: int)
    requires
        0 <= i < addrs.len(),
    ensures
        subnet_of(addrs[i]) matches Some(t) ==> subnets_of(addrs).dom().contains(addrs[i].name@)
            && subnets_of(addrs)[addrs[i].name@].contains(t),
    decreases addrs.len(),
{
    let front = addrs.drop_last();
    let a = addrs.last();
    let m = subnets_of(front);
    if let Some(t) = subnet_of(addrs[i]) {
        let name = addrs[i].name@;
        if i < front.len() {
            assert(front[i] == addrs[i]);
            law_subnets_are_listed_by_name(front, i);
            if let Some(u) = subnet_of(a) {
                if a.name@ == name {
                    let j = choose|j: int| 0 <= j < m[name].len() && m[name][j] == t;
                    assert(m[name].push(u)[j] == t);
                }
            }
        } else if m.dom().contains(name) {
            assert(m[name].push(t)[m[name].len() as int] == t);
        } else {
            assert(seq![t][0] == t);
        }
    }
}

} // verus!
