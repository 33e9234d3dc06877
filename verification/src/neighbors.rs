//! What the neighbor tables say of the devices that are there.
use crate::cidr::in_network;
use crate::mac::{law_mac_roundtrip, mac_tail, mac_text};
use crate::number::{digit_char, hex2};
use crate::rows::{group_with, grouped, groups_with, GroupModel};
use crate::system::{
    arp_neighbor, arp_neighbors, behind_header, drop_signs, ipv6_neighbor, is_letter, neighbors_of,
    normalized, place_of, skip_signs, state_in, NeighborModel,
};
use crate::text::{
    is_white, lemma_find_char, lemma_find_white, line_seq, skip_white, uppered, word_seq,
};
use vstd::prelude::*;

verus! {

/// Whether a text is one word.
pub open spec fn is_word(w: Seq<char>) -> bool {
    w.len() > 0 && forall|i: int| 0 <= i < w.len() ==> !is_white(#[trigger] w[i])
}

/// Whether each text is one word.
pub open spec fn are_words(ws: Seq<Seq<char>>) -> bool {
    forall|i: int| 0 <= i < ws.len() ==> is_word(#[trigger] ws[i])
}

/// A line of words with a space between them.
pub open spec fn spaced(ws: Seq<Seq<char>>) -> Seq<char>
    decreases ws.len(),
{
    if ws.len() == 0 {
        Seq::empty()
    } else if ws.len() == 1 {
        ws[0]
    } else {
        ws[0] + seq![' '] + spaced(ws.drop_first())
    }
}

proof fn lemma_space(s: Seq<char>)
    ensures
        word_seq(seq![' '] + s) == word_seq(s),
{
    let t = seq![' '] + s;
    assert(t.drop_first() =~= s);
    assert(is_white(t[0]));
    assert(skip_white(t) == skip_white(s));
}

/// The words of a line are those that it is made of.
pub proof fn law_line_is_read_by_its_words(ws: Seq<Seq<char>>)
    requires
        are_words(ws),
    ensures
        word_seq(spaced(ws)) == ws,
    decreases ws.len(),
{
    let s = spaced(ws);
    if ws.len() == 0 {
        assert(word_seq(s) =~= ws);
    } else {
        let w = ws[0];
        let n = w.len() as int;
        let rest = ws.drop_first();
        assert(is_word(w));
        assert(s.take(n) =~= w);
        assert(forall|j: int| 0 <= j < n ==> s[j] == w[j]);
        assert(!is_white(s[0]));
        assert(skip_white(s) == s);
        lemma_find_white(s, n);
        assert forall|i: int| 0 <= i < rest.len() implies is_word(#[trigger] rest[i]) by {
            assert(rest[i] == ws[i + 1]);
        }
        if ws.len() == 1 {
            assert(s.skip(n) =~= Seq::empty());
            assert(word_seq(s.skip(n)) =~= Seq::empty());
            assert(word_seq(s) =~= ws);
        } else {
            law_line_is_read_by_its_words(rest);
            assert(s.skip(n) =~= seq![' '] + spaced(rest));
            lemma_space(spaced(rest));
            assert(word_seq(s) =~= ws);
        }
    }
}

/// Lines that end in a line feed each.
pub open spec fn ended(ls: Seq<Seq<char>>) -> Seq<char>
    decreases ls.len(),
{
    if ls.len() == 0 {
        Seq::empty()
    } else {
        ls[0] + seq!['\n'] + ended(ls.drop_first())
    }
}

/// Whether each text is one line.
pub open spec fn are_lines(ls: Seq<Seq<char>>) -> bool {
    forall|i: int|
        0 <= i < ls.len() ==> !(#[trigger] ls[i]).contains('\n') && (ls[i].len() > 0
            ==> ls[i].last() != '\r')
}

/// The lines of a text are those that it is made of.
pub proof fn law_text_is_read_by_its_lines(ls: Seq<Seq<char>>)
    requires
        are_lines(ls),
    ensures
        line_seq(ended(ls)) == ls,
    decreases ls.len(),
{
    let s = ended(ls);
    if ls.len() == 0 {
        assert(line_seq(s) =~= ls);
    } else {
        let l = ls[0];
        let n = l.len() as int;
        let rest = ls.drop_first();
        assert(!l.contains('\n'));
        assert forall|j: int| 0 <= j < n implies s[j] != '\n' by {
            assert(s[j] == l[j]);
            assert(l.contains(l[j]));
        }
        assert(s[n] == '\n');
        lemma_find_char(s, '\n', n);
        assert(s.take(n) =~= l);
        assert(s.skip(n + 1) =~= ended(rest));
        assert forall|i: int| 0 <= i < rest.len() implies !(#[trigger] rest[i]).contains('\n') && (
        rest[i].len() > 0 ==> rest[i].last() != '\r') by {
            assert(rest[i] == ls[i + 1]);
        }
        law_text_is_read_by_its_lines(rest);
        assert(line_seq(s) =~= ls);
    }
}

pub(crate) proof fn lemma_mac_word(m: Seq<u8>, i: int)
    requires
        0 <= i < m.len(),
    ensures
        is_word(mac_tail(m, i)),
    decreases m.len() - i,
{
    let h = hex2(m[i]);
    assert(!is_white(h[0]) && !is_white(h[1]));
    if i < m.len() - 1 {
        lemma_mac_word(m, i + 1);
        let t = mac_tail(m, i + 1);
        let s = mac_tail(m, i);
        assert forall|j: int| 0 <= j < s.len() implies !is_white(#[trigger] s[j]) by {
            if j >= 3 {
                assert(s[j] == t[j - 3]);
            }
        }
    }
}

proof fn lemma_zero_mac(m: Seq<u8>)
    requires
        m.len() == 6,
        mac_text(m) == "00:00:00:00:00:00"@,
    ensures
        m == seq![0u8, 0u8, 0u8, 0u8, 0u8, 0u8],
{
    let z = seq![0u8, 0u8, 0u8, 0u8, 0u8, 0u8];
    reveal_strlit("00:00:00:00:00:00");
    reveal_with_fuel(mac_tail, 7);
    assert(digit_char(0) == '0');
    assert(hex2(0u8) =~= seq!['0', '0']);
    assert(mac_text(z) =~= "00:00:00:00:00:00"@);
    law_mac_roundtrip(m);
    law_mac_roundtrip(z);
}

/// Whether one of the networks is an IPv4 network that holds an address.
pub open spec fn held_by_one(ip: Seq<char>, nets: Seq<Seq<char>>) -> bool {
    exists|i: int| 0 <= i < nets.len() && !(#[trigger] nets[i]).contains(':') && in_network(ip, nets[i])
}

/// Whether a hardware address is that of one device: not of a group, and not zero.
pub open spec fn of_one_device(m: Seq<u8>) -> bool {
    m[0] % 2 == 0 && m != seq![0u8, 0u8, 0u8, 0u8, 0u8, 0u8]
}

/// A line of the IPv4 neighbor table tells of a neighbor, with the address, the hardware
/// address and the interface that stand in it, unless its flags say that there is none, the
/// interface is not watched, or the interface has networks and none of them holds the address.
pub proof fn law_arp_line_is_read(
    ip: Seq<char>,
    kind: Seq<char>,
    flags: Seq<char>,
    m: Seq<u8>,
    mask: Seq<char>,
    dev: Seq<char>,
    watched: Seq<Seq<char>>,
    subnets: Map<Seq<char>, Seq<Seq<char>>>,
)
    requires
        is_word(ip),
        is_word(kind),
        is_word(flags),
        is_word(mask),
        is_word(dev),
        m.len() == 6,
    ensures
        ({
            let line = spaced(seq![ip, kind, flags, mac_text(m), mask, dev]);
            if flags != "0x0"@ && flags != "0x8"@ && of_one_device(m) && watched.contains(dev) && (
            subnets.dom().contains(dev) ==> held_by_one(ip, subnets[dev])) {
                arp_neighbor(line, watched, subnets) == Some(
                    NeighborModel { dev, mac: m, ip, state: "REACHABLE"@ },
                )
            } else {
                arp_neighbor(line, watched, subnets) is None
            }
        }),
{
    let ws = seq![ip, kind, flags, mac_text(m), mask, dev];
    lemma_mac_word(m, 0);
    assert(are_words(ws));
    law_line_is_read_by_its_words(ws);
    law_mac_roundtrip(m);
    if mac_text(m) == "00:00:00:00:00:00"@ {
        lemma_zero_mac(m);
    }
}

proof fn lemma_arp_members(
    lines: Seq<Seq<char>>,
    watched: Seq<Seq<char>>,
    subnets: Map<Seq<char>, Seq<Seq<char>>>,
    n: NeighborModel,
)
    ensures
        arp_neighbors(lines, watched, subnets).contains(n) <==> exists|i: int|
            0 <= i < lines.len() && arp_neighbor(#[trigger] lines[i], watched, subnets) == Some(n),
    decreases lines.len(),
{
    let all = arp_neighbors(lines, watched, subnets);
    if lines.len() > 0 {
        let front = lines.drop_last();
        let before = arp_neighbors(front, watched, subnets);
        lemma_arp_members(front, watched, subnets, n);
        assert(lines[lines.len() - 1] == lines.last());
        if before.contains(n) {
            let i = choose|i: int|
                0 <= i < front.len() && arp_neighbor(#[trigger] front[i], watched, subnets) == Some(
                    n,
                );
            assert(lines[i] == front[i]);
            let j = choose|j: int| 0 <= j < before.len() && before[j] == n;
            assert(all[j] == n);
        }
        if all.contains(n) && !before.contains(n) {
            let j = choose|j: int| 0 <= j < all.len() && all[j] == n;
            if j < before.len() {
                assert(before[j] == n);
            }
        }
        if exists|i: int|
            0 <= i < lines.len() && arp_neighbor(#[trigger] lines[i], watched, subnets) == Some(n) {
            let i = choose|i: int|
                0 <= i < lines.len() && arp_neighbor(#[trigger] lines[i], watched, subnets) == Some(
                    n,
                );
            if i < front.len() {
                assert(front[i] == lines[i]);
            } else {
                assert(all[all.len() - 1] == n);
            }
        }
    }
}

/// The neighbors of the IPv4 table are those that a line behind its heading tells of, on
/// whichever line.
pub proof fn law_every_line_of_the_table_is_read(
    head: Seq<char>,
    lines: Seq<Seq<char>>,
    watched: Seq<Seq<char>>,
    subnets: Map<Seq<char>, Seq<Seq<char>>>,
    n: NeighborModel,
)
    requires
        are_lines(seq![head] + lines),
    ensures
        neighbors_of(Some(ended(seq![head] + lines)), None, watched, subnets).contains(n)
            <==> exists|i: int|
            0 <= i < lines.len() && arp_neighbor(#[trigger] lines[i], watched, subnets) == Some(n),
{
    law_text_is_read_by_its_lines(seq![head] + lines);
    assert(behind_header(seq![head] + lines) =~= lines);
    lemma_arp_members(lines, watched, subnets, n);
}

/// Whether a text is made of capitals.
pub open spec fn all_capitals(s: Seq<char>) -> bool {
    s.len() > 0 && forall|i: int| 0 <= i < s.len() ==> 'A' <= #[trigger] s[i] <= 'Z'
}

proof fn lemma_normalized(s: Seq<char>)
    requires
        all_capitals(s),
    ensures
        normalized(s) == s,
{
    assert(is_letter(s[0]));
    assert(is_letter(s.last()));
    assert(skip_signs(s) == s);
    assert(drop_signs(s) == s);
    assert(uppered(s) =~= s);
}

proof fn lemma_states()
    ensures
        all_capitals("REACHABLE"@),
        all_capitals("STALE"@),
        all_capitals("DELAY"@),
        all_capitals("PROBE"@),
        all_capitals("FAILED"@),
        all_capitals("NOARP"@),
        all_capitals("INCOMPLETE"@),
        all_capitals("INVALID"@),
        "FAILED"@ != "REACHABLE"@,
        "FAILED"@ != "STALE"@,
        "FAILED"@ != "DELAY"@,
        "FAILED"@ != "PROBE"@,
        "NOARP"@ != "REACHABLE"@,
        "NOARP"@ != "STALE"@,
        "NOARP"@ != "DELAY"@,
        "NOARP"@ != "PROBE"@,
        "INCOMPLETE"@ != "REACHABLE"@,
        "INCOMPLETE"@ != "STALE"@,
        "INCOMPLETE"@ != "DELAY"@,
        "INCOMPLETE"@ != "PROBE"@,
        "INVALID"@ != "REACHABLE"@,
        "INVALID"@ != "STALE"@,
        "INVALID"@ != "DELAY"@,
        "INVALID"@ != "PROBE"@,
{
    reveal_strlit("REACHABLE");
    reveal_strlit("STALE");
    reveal_strlit("DELAY");
    reveal_strlit("PROBE");
    reveal_strlit("FAILED");
    reveal_strlit("NOARP");
    reveal_strlit("INCOMPLETE");
    reveal_strlit("INVALID");
    assert("FAILED"@[0] != "REACHABLE"@[0] && "FAILED"@[0] != "STALE"@[0] && "FAILED"@[0]
        != "DELAY"@[0] && "FAILED"@[0] != "PROBE"@[0]);
    assert("NOARP"@[0] != "REACHABLE"@[0] && "NOARP"@[0] != "STALE"@[0] && "NOARP"@[0]
        != "DELAY"@[0] && "NOARP"@[0] != "PROBE"@[0]);
    assert("INCOMPLETE"@[0] != "REACHABLE"@[0] && "INCOMPLETE"@[0] != "STALE"@[0]
        && "INCOMPLETE"@[0] != "DELAY"@[0] && "INCOMPLETE"@[0] != "PROBE"@[0]);
    assert("INVALID"@[0] != "REACHABLE"@[0] && "INVALID"@[0] != "STALE"@[0] && "INVALID"@[0]
        != "DELAY"@[0] && "INVALID"@[0] != "PROBE"@[0]);
}

/// Whether a state is that of a neighbor that is there.
pub open spec fn is_there(state: Seq<char>) -> bool {
    state == "REACHABLE"@ || state == "STALE"@ || state == "DELAY"@ || state == "PROBE"@
}

/// Whether a state is that of a neighbor that is not there.
pub open spec fn is_gone(state: Seq<char>) -> bool {
    state == "FAILED"@ || state == "NOARP"@ || state == "INCOMPLETE"@ || state == "INVALID"@
}

/// A line of the IPv6 neighbor table tells of a neighbor, with the address, the interface, the
/// hardware address and the state that stand in it, if the interface is watched and the state
/// says that the neighbor is there.
pub proof fn law_ipv6_neighbor_line_is_read(
    ip: Seq<char>,
    dev: Seq<char>,
    m: Seq<u8>,
    state: Seq<char>,
    watched: Seq<Seq<char>>,
)
    requires
        is_word(ip),
        is_word(dev),
        ip != "dev"@,
        ip != "lladdr"@,
        dev != "lladdr"@,
        m.len() == 6,
        is_there(state) || is_gone(state),
    ensures
        ({
            let line = spaced(seq![ip, "dev"@, dev, "lladdr"@, mac_text(m), state]);
            if is_there(state) && of_one_device(m) && watched.contains(dev) {
                ipv6_neighbor(line, watched) == Some(NeighborModel { dev, mac: m, ip, state })
            } else {
                ipv6_neighbor(line, watched) is None
            }
        }),
{
    let ws = seq![ip, "dev"@, dev, "lladdr"@, mac_text(m), state];
    reveal_strlit("dev");
    reveal_strlit("lladdr");
    lemma_mac_word(m, 0);
    lemma_states();
    assert(all_capitals(state));
    assert forall|i: int| 0 <= i < state.len() implies !is_white(#[trigger] state[i]) by {}
    assert(is_word("dev"@));
    assert(is_word("lladdr"@));
    assert(are_words(ws));
    law_line_is_read_by_its_words(ws);
    law_mac_roundtrip(m);
    lemma_normalized(state);
    assert(ws.last() == state);
    assert(state_in(ws) == Some(state));
    reveal_with_fuel(place_of, 7);
    let w5 = ws.drop_last();
    let w4 = w5.drop_last();
    let w3 = w4.drop_last();
    let w2 = w3.drop_last();
    let w1 = w2.drop_last();
    assert("dev"@.len() != "lladdr"@.len());
    assert(w1.last() == ip && w2.last() == "dev"@ && w3.last() == dev && w4.last() == "lladdr"@);
    assert(place_of(w1, "dev"@) == 1);
    assert(place_of(w2, "dev"@) == 1);
    assert(place_of(w3, "dev"@) == 1);
    assert(place_of(w4, "dev"@) == 1);
    assert(place_of(w5, "dev"@) == 1);
    assert(place_of(ws, "dev"@) == 1);
    assert(place_of(w1, "lladdr"@) == 1);
    assert(place_of(w2, "lladdr"@) == 2);
    assert(place_of(w3, "lladdr"@) == 3);
    assert(place_of(w4, "lladdr"@) == 3);
    assert(place_of(w5, "lladdr"@) == 3);
    assert(place_of(ws, "lladdr"@) == 3);
}

/// Whether a group tells of an address.
pub open spec fn tells(g: GroupModel, ip: Seq<char>) -> bool {
    if ip.contains(':') {
        g.ipv6.contains(ip)
    } else {
        g.ipv4.contains(ip)
    }
}

/// Whether one of the groups is that of a neighbor.
pub open spec fn told_in(gs: Seq<GroupModel>, n: NeighborModel) -> bool {
    exists|g: int|
        0 <= g < gs.len() && (#[trigger] gs[g]).dev == n.dev && gs[g].mac == n.mac && tells(
            gs[g],
            n.ip,
        ) && (n.state == "REACHABLE"@ ==> gs[g].state == "REACHABLE"@)
}

proof fn lemma_group_with(g: GroupModel, n: NeighborModel)
    requires
        n.state.len() > 0,
    ensures
        tells(group_with(g, n), n.ip),
        forall|ip: Seq<char>|
            #![trigger tells(g, ip)]
            tells(g, ip) ==> tells(group_with(g, n), ip),
        forall|ip: Seq<char>| #[trigger]
            tells(group_with(g, n), ip) ==> tells(g, ip) || ip == n.ip,
        n.state == "REACHABLE"@ || g.state == "REACHABLE"@ ==> group_with(g, n).state
            == "REACHABLE"@,
{
    let h = group_with(g, n);
    assert(g.ipv4.push(n.ip)[g.ipv4.len() as int] == n.ip);
    assert(g.ipv6.push(n.ip)[g.ipv6.len() as int] == n.ip);
    assert forall|ip: Seq<char>| #[trigger] tells(g, ip) implies tells(h, ip) by {
        if ip.contains(':') {
            let i = choose|i: int| 0 <= i < g.ipv6.len() && g.ipv6[i] == ip;
            assert(h.ipv6[i] == ip);
        } else {
            let i = choose|i: int| 0 <= i < g.ipv4.len() && g.ipv4[i] == ip;
            assert(h.ipv4[i] == ip);
        }
    }
    assert forall|ip: Seq<char>| #[trigger] tells(h, ip) implies tells(g, ip) || ip == n.ip by {
        if ip.contains(':') {
            let i = choose|i: int| 0 <= i < h.ipv6.len() && h.ipv6[i] == ip;
            if i < g.ipv6.len() {
                assert(g.ipv6[i] == ip);
            }
        } else {
            let i = choose|i: int| 0 <= i < h.ipv4.len() && h.ipv4[i] == ip;
            if i < g.ipv4.len() {
                assert(g.ipv4[i] == ip);
            }
        }
    }
    reveal_strlit("REACHABLE");
}

proof fn lemma_groups_with(gs: Seq<GroupModel>, n: NeighborModel, m: NeighborModel)
    requires
        n.state.len() > 0,
    ensures
        told_in(groups_with(gs, n), n),
        told_in(gs, m) ==> told_in(groups_with(gs, n), m),
    decreases gs.len(),
{
    let r = groups_with(gs, n);
    if gs.len() == 0 {
        let e = GroupModel {
            dev: n.dev,
            mac: n.mac,
            ipv4: Seq::empty(),
            ipv6: Seq::empty(),
            state: Seq::empty(),
        };
        lemma_group_with(e, n);
        assert(r[0] == group_with(e, n));
    } else if gs[0].dev == n.dev && gs[0].mac == n.mac {
        lemma_group_with(gs[0], n);
        assert(r[0] == group_with(gs[0], n));
        if told_in(gs, m) {
            let g = choose|g: int|
                0 <= g < gs.len() && (#[trigger] gs[g]).dev == m.dev && gs[g].mac == m.mac && tells(
                    gs[g],
                    m.ip,
                ) && (m.state == "REACHABLE"@ ==> gs[g].state == "REACHABLE"@);
            if g > 0 {
                assert(r[g] == gs[g]);
            } else {
                assert(tells(gs[0], m.ip));
            }
        }
    } else {
        let rest = gs.drop_first();
        lemma_groups_with(rest, n, m);
        let t = groups_with(rest, n);
        assert(r[0] == gs[0]);
        let g = choose|g: int|
            0 <= g < t.len() && (#[trigger] t[g]).dev == n.dev && t[g].mac == n.mac && tells(
                t[g],
                n.ip,
            ) && (n.state == "REACHABLE"@ ==> t[g].state == "REACHABLE"@);
        assert(r[g + 1] == t[g]);
        if told_in(gs, m) {
            let g = choose|g: int|
                0 <= g < gs.len() && (#[trigger] gs[g]).dev == m.dev && gs[g].mac == m.mac && tells(
                    gs[g],
                    m.ip,
                ) && (m.state == "REACHABLE"@ ==> gs[g].state == "REACHABLE"@);
            if g > 0 {
                assert(rest[g - 1] == gs[g]);
                assert(told_in(rest, m));
                let h = choose|h: int|
                    0 <= h < t.len() && (#[trigger] t[h]).dev == m.dev && t[h].mac == m.mac && tells(
                        t[h],
                        m.ip,
                    ) && (m.state == "REACHABLE"@ ==> t[h].state == "REACHABLE"@);
                assert(r[h + 1] == t[h]);
            }
        }
    }
}

proof fn lemma_grouped(ns: Seq<NeighborModel>, i: int)
    requires
        0 <= i < ns.len(),
        forall|j: int| 0 <= j < ns.len() ==> (#[trigger] ns[j]).state.len() > 0,
    ensures
        told_in(grouped(ns), ns[i]),
    decreases ns.len(),
{
    let front = ns.drop_last();
    assert forall|j: int| 0 <= j < front.len() implies (#[trigger] front[j]).state.len() > 0 by {
        assert(front[j] == ns[j]);
    }
    assert(ns[ns.len() - 1].state.len() > 0);
    lemma_groups_with(grouped(front), ns.last(), ns[i]);
    if i < front.len() {
        lemma_grouped(front, i);
        assert(front[i] == ns[i]);
    }
}

spec fn comes_from(g: GroupModel, ns: Seq<NeighborModel>, ip: Seq<char>) -> bool {
    exists|i: int|
        0 <= i < ns.len() && (#[trigger] ns[i]).dev == g.dev && ns[i].mac == g.mac && ns[i].ip == ip
}

proof fn lemma_groups_from(gs: Seq<GroupModel>, n: NeighborModel, g: int, ip: Seq<char>)
    requires
        n.state.len() > 0,
        0 <= g < groups_with(gs, n).len(),
        tells(groups_with(gs, n)[g], ip),
    ensures
        ({
            let h = groups_with(gs, n)[g];
            (h.dev == n.dev && h.mac == n.mac && ip == n.ip) || (g < gs.len() && gs[g].dev == h.dev
                && gs[g].mac == h.mac && tells(gs[g], ip))
        }),
    decreases gs.len(),
{
    let r = groups_with(gs, n);
    if gs.len() == 0 {
        let e = GroupModel {
            dev: n.dev,
            mac: n.mac,
            ipv4: Seq::empty(),
            ipv6: Seq::empty(),
            state: Seq::empty(),
        };
        lemma_group_with(e, n);
        assert(r[0] == group_with(e, n));
        assert(!tells(e, ip));
    } else if gs[0].dev == n.dev && gs[0].mac == n.mac {
        lemma_group_with(gs[0], n);
        if g > 0 {
            assert(r[g] == gs[g]);
        }
    } else if g > 0 {
        let rest = gs.drop_first();
        assert(r[g] == groups_with(rest, n)[g - 1]);
        lemma_groups_from(rest, n, g - 1, ip);
        if g < gs.len() {
            assert(rest[g - 1] == gs[g]);
        }
    }
}

proof fn lemma_grouped_from(ns: Seq<NeighborModel>, g: int, ip: Seq<char>)
    requires
        0 <= g < grouped(ns).len(),
        forall|j: int| 0 <= j < ns.len() ==> (#[trigger] ns[j]).state.len() > 0,
        tells(grouped(ns)[g], ip),
    ensures
        comes_from(grouped(ns)[g], ns, ip),
    decreases ns.len(),
{
    let front = ns.drop_last();
    assert forall|j: int| 0 <= j < front.len() implies (#[trigger] front[j]).state.len() > 0 by {
        assert(front[j] == ns[j]);
    }
    let n = ns[ns.len() - 1];
    assert(n == ns.last());
    lemma_groups_from(grouped(front), n, g, ip);
    let h = grouped(ns)[g];
    if !(h.dev == n.dev && h.mac == n.mac && ip == n.ip) {
        lemma_grouped_from(front, g, ip);
        let i = choose|i: int|
            0 <= i < front.len() && (#[trigger] front[i]).dev == h.dev && front[i].mac == h.mac
                && front[i].ip == ip;
        assert(ns[i] == front[i]);
    }
}

/// Each neighbor is told of with the others of its interface and hardware address: its
/// address among those of its version, and its state where it is the best one. A group tells
/// of no address but of one of its own neighbors.
pub proof fn law_neighbors_are_told_by_device(ns: Seq<NeighborModel>, i: int, g: int, ip: Seq<char>)
    requires
        forall|j: int| 0 <= j < ns.len() ==> (#[trigger] ns[j]).state.len() > 0,
        0 <= i < ns.len(),
        0 <= g < grouped(ns).len(),
    ensures
        told_in(grouped(ns), ns[i]),
        tells(grouped(ns)[g], ip) ==> exists|k: int|
            0 <= k < ns.len() && (#[trigger] ns[k]).dev == grouped(ns)[g].dev && ns[k].mac
                == grouped(ns)[g].mac && ns[k].ip == ip,
{
    lemma_grouped(ns, i);
    if tells(grouped(ns)[g], ip) {
        lemma_grouped_from(ns, g, ip);
    }
}

} // verus!
