//! The MAC address in a line of the kernel's neighbour table.
use vstd::prelude::*;
use crate::client_rule::{mac_parsed, mac_text, parse_mac, mac_string, split_on, split_pieces};
use crate::ip_text::{ip_value, parse_ip};
use crate::net::IpAddress;
use crate::odhcpd::{text_lines, words_of, lines_of, words};

verus! {

/// A word with each `-` written as `:` (MAC addresses appear in both
/// forms).
pub open spec fn dashes_to_colons(w: Seq<char>) -> Seq<char> {
    w.map_values(|c: char| if c == '-' { ':' } else { c })
}

/// Whether six octets are all zero.
pub open spec fn is_zero_mac(o: Seq<u8>) -> bool {
    forall|i: int| 0 <= i < o.len() ==> o[i] == 0
}

/// The MAC address a word holds, if it holds one that is not all zeros.
pub open spec fn word_mac(w: Seq<char>) -> Option<Seq<u8>> {
    match mac_parsed(dashes_to_colons(w)) {
        Some(o) => if is_zero_mac(o) { None } else { Some(o) },
        None => None,
    }
}

/// The first word of a line (from `k` on) that holds a MAC address, as text.
pub open spec fn first_mac(ws: Seq<Seq<char>>, k: int) -> Option<Seq<char>>
    decreases ws.len() - k,
{
    if k < 0 || k >= ws.len() {
        None
    } else {
        match word_mac(ws[k]) {
            Some(o) => Some(mac_text(o)),
            None => first_mac(ws, k + 1),
        }
    }
}

/// The words of a list, as text.
pub open spec fn word_views(ws: Seq<String>) -> Seq<Seq<char>> {
    ws.map_values(|w: String| w@)
}

fn colons(w: &str) -> (r: String)
    ensures
        r@ == dashes_to_colons(w@),
{
    let n = w.unicode_len();
    let mut r = String::new();
    let mut i: usize = 0;
    while i < n
        invariant
            n == w@.len(),
            i <= n,
            r@ == dashes_to_colons(w@.take(i as int)),
        decreases n - i,
    {
        let c = w.get_char(i);
        if c == '-' {
            r.append(":");
            proof {
                reveal_strlit(":");
            }
        } else {
            let one = w.substring_char(i, i + 1);
            r.append(one);
            assert(one@ =~= seq![c]);
        }
        i = i + 1;
        assert(r@ =~= dashes_to_colons(w@.take(i as int)));
    }
    assert(w@.take(n as int) =~= w@);
    r
}

/// The MAC address of a neighbour table line, given its words: the first
/// word that reads (with `-` as `:`) as a MAC address other than all
/// zeros, as lower-case colon-separated text.
pub fn line_mac(words: &Vec<String>) -> (r: Option<String>)
    ensures
        match r {
            Some(m) => first_mac(word_views(words@), 0) == Some(m@),
            None => first_mac(word_views(words@), 0) is None,
        },
{
    let ghost ws = word_views(words@);
    let mut i: usize = 0;
    while i < words.len()
        invariant
            ws == word_views(words@),
            i <= words@.len(),
            first_mac(ws, i as int) == first_mac(ws, 0),
        decreases words.len() - i,
    {
        let w = colons(words[i].as_str());
        assert(ws[i as int] == words@[i as int]@);
        match parse_mac(w.as_str()) {
            Some(o) => {
                let zero = o[0] == 0 && o[1] == 0 && o[2] == 0 && o[3] == 0 && o[4] == 0 && o[5] == 0;
                if !zero {
                    return Some(mac_string(o));
                }
                assert(is_zero_mac(o@));
            },
            None => {},
        }
        i = i + 1;
    }
    None
}


/// The address a word of the table names: the part before a `%` zone.
pub open spec fn token_ip(t: Seq<char>) -> Option<IpAddress> {
    ip_value(split_on(t, '%')[0])
}

/// Whether some word of a line names `ip`.
pub open spec fn names_ip(ws: Seq<Seq<char>>, ip: IpAddress) -> bool {
    exists|i: int| 0 <= i < ws.len() && #[trigger] token_ip(ws[i]) == Some(ip)
}

/// The MAC address of the first line (from `k` on) that names `ip` and
/// holds a MAC address.
pub open spec fn neighbor_mac(lines: Seq<Seq<char>>, ip: IpAddress, k: int) -> Option<Seq<char>>
    decreases lines.len() - k,
{
    if k < 0 || k >= lines.len() {
        None
    } else {
        let ws = words_of(lines[k]);
        if names_ip(ws, ip) && first_mac(ws, 0) is Some {
            first_mac(ws, 0)
        } else {
            neighbor_mac(lines, ip, k + 1)
        }
    }
}

fn line_names_ip(ws: &Vec<String>, ip: &IpAddress) -> (r: bool)
    ensures
        r == names_ip(word_views(ws@), *ip),
{
    let ghost v = word_views(ws@);
    let mut i: usize = 0;
    while i < ws.len()
        invariant
            v == word_views(ws@),
            i <= ws@.len(),
            forall|j: int| 0 <= j < i ==> #[trigger] token_ip(v[j]) != Some(*ip),
        decreases ws.len() - i,
    {
        let parts = split_pieces(ws[i].as_str(), '%');
        proof {
            crate::client_rule::lemma_pieces_len(ws@[i as int]@, '%', ws@[i as int]@.len() as int);
        }
        assert(v[i as int] == ws@[i as int]@);
        match parse_ip(parts[0].as_str()) {
            Some(a) => {
                if a.same(ip) {
                    assert(token_ip(v[i as int]) == Some(*ip));
                    return true;
                }
            },
            None => {},
        }
        i = i + 1;
    }
    false
}

/// The MAC address of `ip` in the output of the neighbour table.
pub fn parse_neighbor(text: &str, ip: &IpAddress) -> (r: Option<String>)
    ensures
        match r {
            Some(m) => neighbor_mac(text_lines(text@), *ip, 0) == Some(m@),
            None => neighbor_mac(text_lines(text@), *ip, 0) is None,
        },
{
    let lines = lines_of(text);
    let ghost ls = text_lines(text@);
    let mut k: usize = 0;
    while k < lines.len()
        invariant
            ls == text_lines(text@),
            lines@.len() == ls.len(),
            forall|j: int| 0 <= j < lines@.len() ==> (#[trigger] lines@[j])@ == ls[j],
            k <= lines@.len(),
            neighbor_mac(ls, *ip, k as int) == neighbor_mac(ls, *ip, 0),
        decreases lines.len() - k,
    {
        let ws = words(lines[k].as_str());
        assert(word_views(ws@) =~= words_of(ls[k as int]));
        if line_names_ip(&ws, ip) {
            match line_mac(&ws) {
                Some(m) => {
                    assert(names_ip(words_of(ls[k as int]), *ip));
                    assert(neighbor_mac(ls, *ip, k as int) == first_mac(words_of(ls[k as int]), 0));
                    return Some(m);
                },
                None => {},
            }
        }
        k = k + 1;
    }
    None
}

} // verus!
