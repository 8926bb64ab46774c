//! Client rules (`client-rules <client> [options]`): the client, an
//! address network or a MAC address, and the server options that apply to
//! its requests, with the kernel set values those options name.
use vstd::prelude::*;
use crate::net::IpAddress;
use crate::ns_select::IpNet;
use crate::config::{ServerOpts, ConfigForIP, KernelIpSet, NFTsetConfig};
use crate::txt::ErrorKind;
use crate::text::str_eq;

verus! {

/// A space or a tab.
pub open spec fn is_space(c: char) -> bool {
    c == ' ' || c == '\t'
}

/// The spans (start, end) of the words of the first `n` characters: the
/// longest runs without spaces or tabs.
pub open spec fn spans_upto(s: Seq<char>, n: int) -> Seq<(int, int)>
    decreases n,
{
    if n <= 0 {
        Seq::empty()
    } else {
        let prev = spans_upto(s, n - 1);
        if is_space(s[n - 1]) {
            prev
        } else if n >= 2 && !is_space(s[n - 2]) && prev.len() > 0 {
            prev.drop_last().push((prev.last().0, n))
        } else {
            prev.push((n - 1, n))
        }
    }
}

/// The characters of a span.
pub open spec fn span_text(s: Seq<char>, p: (int, int)) -> Seq<char> {
    s.subrange(p.0, p.1)
}

proof fn lemma_spans(s: Seq<char>, n: int)
    requires
        0 <= n <= s.len(),
    ensures
        forall|i: int| 0 <= i < spans_upto(s, n).len() ==> 0 <= (#[trigger] spans_upto(s, n)[i]).0 < spans_upto(s, n)[i].1 <= n,
        forall|i: int, j: int| 0 <= i < j < spans_upto(s, n).len() ==> (#[trigger] spans_upto(s, n)[i]).1 < (#[trigger] spans_upto(s, n)[j]).0,
        n >= 1 && !is_space(s[n - 1]) ==> spans_upto(s, n).len() > 0 && spans_upto(s, n).last().1 == n,
        n >= 1 && is_space(s[n - 1]) && spans_upto(s, n).len() > 0 ==> spans_upto(s, n).last().1 < n,
    decreases n,
{
    if n > 0 {
        lemma_spans(s, n - 1);
        let prev = spans_upto(s, n - 1);
        let cur = spans_upto(s, n);
        if is_space(s[n - 1]) {
            assert(cur == prev);
        } else if n >= 2 && !is_space(s[n - 2]) && prev.len() > 0 {
            assert(cur == prev.drop_last().push((prev.last().0, n)));
            assert forall|i: int, j: int| 0 <= i < j < cur.len() implies (#[trigger] cur[i]).1 < (#[trigger] cur[j]).0 by {
                if j == cur.len() - 1 {
                    assert(cur[j].0 == prev[j].0);
                    assert(cur[i] == prev[i]);
                } else {
                    assert(cur[i] == prev[i] && cur[j] == prev[j]);
                }
            }
        } else {
            assert(cur == prev.push((n - 1, n)));
            if n >= 2 && prev.len() > 0 {
                assert(is_space(s[n - 2]));
                assert(prev.last().1 < n - 1);
            }
            assert forall|i: int, j: int| 0 <= i < j < cur.len() implies (#[trigger] cur[i]).1 < (#[trigger] cur[j]).0 by {
                if j == cur.len() - 1 {
                    assert(cur[i] == prev[i]);
                    assert(prev[i].1 <= prev.last().1);
                } else {
                    assert(cur[i] == prev[i] && cur[j] == prev[j]);
                }
            }
        }
    }
}

/// The pieces of `w`'s first `n` characters between separators `sep` (one
/// piece more than there are separators).
pub open spec fn pieces(w: Seq<char>, sep: char, n: int) -> Seq<Seq<char>>
    decreases n,
{
    if n <= 0 {
        seq![Seq::empty()]
    } else {
        let p = pieces(w, sep, n - 1);
        if w[n - 1] == sep {
            p.push(Seq::empty())
        } else {
            p.drop_last().push(p.last().push(w[n - 1]))
        }
    }
}

/// The pieces of `w` between separators `sep`.
pub open spec fn split_on(w: Seq<char>, sep: char) -> Seq<Seq<char>> {
    pieces(w, sep, w.len() as int)
}

pub proof fn lemma_pieces_len(w: Seq<char>, sep: char, n: int)
    ensures
        pieces(w, sep, n).len() >= 1,
    decreases n,
{
    if n > 0 {
        lemma_pieces_len(w, sep, n - 1);
    }
}

/// The value of a list of spans.
pub open spec fn spans_view(r: Seq<(usize, usize)>) -> Seq<(int, int)> {
    r.map_values(|p: (usize, usize)| (p.0 as int, p.1 as int))
}

/// The spans of the words of `s`.
fn word_spans(s: &str) -> (r: Vec<(usize, usize)>)
    ensures
        spans_view(r@) == spans_upto(s@, s@.len() as int),
{
    let n = s.unicode_len();
    let mut r: Vec<(usize, usize)> = Vec::new();
    let mut prev_space = true;
    let mut i: usize = 0;
    while i < n
        invariant
            n == s@.len(),
            i <= n,
            spans_view(r@) == spans_upto(s@, i as int),
            prev_space == (i == 0 || is_space(s@[i - 1])),
            forall|k: int| 0 <= k < r@.len() ==> (#[trigger] r@[k]).1 <= i,
        decreases n - i,
    {
        proof {
            lemma_spans(s@, i as int);
        }
        let c = s.get_char(i);
        let ghost before = r@;
        if c == ' ' || c == '\t' {
            prev_space = true;
        } else if !prev_space && r.len() > 0 {
            let last = r.len() - 1;
            let start = r[last].0;
            r.set(last, (start, i + 1));
            prev_space = false;
            assert(spans_view(r@) =~= spans_view(before).drop_last().push((start as int, i + 1)));
        } else {
            r.push((i, i + 1));
            prev_space = false;
            assert(spans_view(r@) =~= spans_view(before).push((i as int, i + 1)));
        }
        i = i + 1;
    }
    r
}

/// `w` split at each `sep`.
pub fn split_pieces(w: &str, sep: char) -> (r: Vec<String>)
    ensures
        r@.len() == split_on(w@, sep).len(),
        forall|i: int| 0 <= i < r@.len() ==> (#[trigger] r@[i])@ == split_on(w@, sep)[i],
{
    let n = w.unicode_len();
    let mut done: Vec<String> = Vec::new();
    let mut cur = String::new();
    let mut i: usize = 0;
    while i < n
        invariant
            n == w@.len(),
            i <= n,
            pieces(w@, sep, i as int).len() == done@.len() + 1,
            forall|k: int| 0 <= k < done@.len() ==> (#[trigger] done@[k])@ == pieces(w@, sep, i as int)[k],
            cur@ == pieces(w@, sep, i as int).last(),
        decreases n - i,
    {
        proof {
            lemma_pieces_len(w@, sep, i as int);
        }
        let c = w.get_char(i);
        if c == sep {
            let finished = cur;
            done.push(finished);
            cur = String::new();
        } else {
            let one = w.substring_char(i, i + 1);
            cur.append(one);
            assert(one@ =~= seq![c]);
            assert(cur@ =~= pieces(w@, sep, i as int).last().push(c));
        }
        i = i + 1;
    }
    done.push(cur);
    done
}

/// What `mac-addr` reads from `s`: six octets (`None` when `s` is not six
/// colon-separated hex components of one octet each).
pub uninterp spec fn mac_parsed(s: Seq<char>) -> Option<Seq<u8>>;

/// `str::parse::<mac_addr::MacAddr>`: the six octets of the address, or
/// `None` on a parse error. Nothing more is claimed of the parser than that
/// it is a function of `s`.
#[verifier::external_body]
pub(crate) fn parse_mac(s: &str) -> (r: Option<[u8; 6]>)
    ensures
        match r {
            Some(o) => mac_parsed(s@) == Some(o@),
            None => mac_parsed(s@) is None,
        },
{
    match s.parse::<mac_addr::MacAddr>() {
        Ok(m) => Some(m.octets()),
        Err(_) => None,
    }
}

/// A hex digit in lower case.
pub open spec fn hex_char(d: int) -> char {
    if d < 10 {
        (48 + d) as char
    } else {
        (87 + d) as char
    }
}

/// The text `MacAddr` displays: six two-digit lower-case hex octets
/// separated by colons.
pub open spec fn mac_text(o: Seq<u8>) -> Seq<char> {
    Seq::new(17, |i: int| if i % 3 == 2 {
        ':'
    } else if i % 3 == 0 {
        hex_char(o[i / 3] as int / 16)
    } else {
        hex_char(o[i / 3] as int % 16)
    })
}

/// `MacAddr::to_string`: as its `Display` impl writes it, each octet as
/// `{:02x}`, separated by `:`.
#[verifier::external_body]
pub(crate) fn mac_string(o: [u8; 6]) -> (r: String)
    ensures
        r@ == mac_text(o@),
{
    mac_addr::MacAddr::from_octets(o).to_string()
}

/// What `ipnet` reads from `s` as an `IpNet`: the address and the prefix
/// length.
pub uninterp spec fn ipnet_parsed(s: Seq<char>) -> Option<(IpAddress, u8)>;

/// `str::parse::<ipnet::IpNet>`: the address and prefix length of the
/// network, or `None` on a parse error; the prefix length is at most 32 for
/// IPv4 and 128 for IPv6 (the parser reads no more).
#[verifier::external_body]
fn parse_ipnet(s: &str) -> (r: Option<(IpAddress, u8)>)
    ensures
        r == ipnet_parsed(s@),
        r matches Some((a, p)) ==> (a is V4 ==> p <= 32) && (a is V6 ==> p <= 128),
{
    match s.parse::<ipnet::IpNet>() {
        Ok(ipnet::IpNet::V4(n)) => Some((IpAddress::V4(n.addr().octets()), n.prefix_len())),
        Ok(ipnet::IpNet::V6(n)) => Some((IpAddress::V6(n.addr().octets()), n.prefix_len())),
        Err(_) => None,
    }
}

/// Whether a word starts an option (a leading `-`).
pub open spec fn is_option(w: Seq<char>) -> bool {
    w.len() > 0 && w[0] == '-'
}

/// The name of an option word, without its one or two leading dashes.
pub open spec fn option_name(w: Seq<char>) -> Seq<char> {
    if w.len() >= 2 && w[1] == '-' {
        w.subrange(2, w.len() as int)
    } else {
        w.subrange(1, w.len() as int)
    }
}

/// The options from word `k` on, each with the word that follows as its
/// value when that word is no option, and the word where they end.
pub open spec fn read_options(s: Seq<char>, sp: Seq<(int, int)>, k: int) -> (Seq<(Seq<char>, Option<Seq<char>>)>, int)
    decreases sp.len() - k,
{
    if k < 0 || k >= sp.len() || !is_option(span_text(s, sp[k])) {
        (Seq::empty(), k)
    } else {
        let name = option_name(span_text(s, sp[k]));
        if k + 1 < sp.len() && !is_option(span_text(s, sp[k + 1])) {
            let rest = read_options(s, sp, k + 2);
            (seq![(name, Some(span_text(s, sp[k + 1])))] + rest.0, rest.1)
        } else {
            let rest = read_options(s, sp, k + 1);
            (seq![(name, None)] + rest.0, rest.1)
        }
    }
}

/// The value of a list of options.
pub open spec fn option_views(os: Seq<(String, Option<String>)>) -> Seq<(Seq<char>, Option<Seq<char>>)> {
    os.map_values(|o: (String, Option<String>)| (o.0@, match o.1 {
        Some(v) => Some(v@),
        None => None,
    }))
}

fn text_of(s: &str, a: usize, b: usize) -> (r: String)
    requires
        a <= b <= s@.len(),
    ensures
        r@ == s@.subrange(a as int, b as int),
{
    s.substring_char(a, b).to_string()
}

fn starts_option(s: &str, p: (usize, usize)) -> (r: bool)
    requires
        p.0 <= p.1 <= s@.len(),
    ensures
        r == is_option(s@.subrange(p.0 as int, p.1 as int)),
{
    p.0 < p.1 && s.get_char(p.0) == '-'
}

fn name_of(s: &str, p: (usize, usize)) -> (r: String)
    requires
        p.0 < p.1 <= s@.len(),
    ensures
        r@ == option_name(s@.subrange(p.0 as int, p.1 as int)),
{
    if p.1 - p.0 >= 2 && s.get_char(p.0 + 1) == '-' {
        let r = text_of(s, p.0 + 2, p.1);
        assert(r@ =~= option_name(s@.subrange(p.0 as int, p.1 as int)));
        r
    } else {
        let r = text_of(s, p.0 + 1, p.1);
        assert(r@ =~= option_name(s@.subrange(p.0 as int, p.1 as int)));
        r
    }
}

/// Reads the options that follow the first word.
fn option_list(s: &str, sp: &Vec<(usize, usize)>) -> (r: (Vec<(String, Option<String>)>, usize))
    requires
        spans_view(sp@) == spans_upto(s@, s@.len() as int),
        sp@.len() >= 1,
    ensures
        option_views(r.0@) == read_options(s@, spans_view(sp@), 1).0,
        r.1 as int == read_options(s@, spans_view(sp@), 1).1,
        1 <= r.1 <= sp@.len(),
{
    let ghost spv = spans_view(sp@);
    proof {
        lemma_spans(s@, s@.len() as int);
    }
    let mut out: Vec<(String, Option<String>)> = Vec::new();
    let mut k: usize = 1;
    let n = sp.len();
    while k < n && starts_option(s, sp[k])
        invariant
            spv == spans_view(sp@),
            spv == spans_upto(s@, s@.len() as int),
            n == sp@.len(),
            1 <= k <= n,
            forall|i: int| 0 <= i < spv.len() ==> 0 <= (#[trigger] spv[i]).0 < spv[i].1 <= s@.len(),
            option_views(out@) + read_options(s@, spv, k as int).0 == read_options(s@, spv, 1).0,
            read_options(s@, spv, k as int).1 == read_options(s@, spv, 1).1,
        decreases n - k,
    {
        assert(spv[k as int] == (sp@[k as int].0 as int, sp@[k as int].1 as int));
        let name = name_of(s, sp[k]);
        let ghost prev = option_views(out@);
        if k + 1 < n && !starts_option(s, sp[k + 1]) {
            assert(spv[k + 1] == (sp@[k + 1].0 as int, sp@[k + 1].1 as int));
            let value = text_of(s, sp[k + 1].0, sp[k + 1].1);
            out.push((name, Some(value)));
            assert(option_views(out@) =~= prev.push((name@, Some(value@))));
            k = k + 2;
        } else {
            out.push((name, None));
            assert(option_views(out@) =~= prev.push((name@, None)));
            k = k + 1;
        }
        assert(option_views(out@) + read_options(s@, spv, k as int).0 =~= read_options(s@, spv, 1).0);
    }
    assert(read_options(s@, spv, k as int).0 =~= Seq::empty());
    assert(option_views(out@) =~= read_options(s@, spv, 1).0);
    (out, k)
}

/// The value of the last option named `name` that has one.
pub open spec fn last_value(os: Seq<(Seq<char>, Option<Seq<char>>)>, name: Seq<char>) -> Option<Seq<char>>
    decreases os.len(),
{
    if os.len() == 0 {
        None
    } else if os.last().0 == name && os.last().1 is Some {
        os.last().1
    } else {
        last_value(os.drop_last(), name)
    }
}

/// The value of the first option named `name`, if it has one.
pub open spec fn first_value(os: Seq<(Seq<char>, Option<Seq<char>>)>, name: Seq<char>) -> Option<Seq<char>>
    decreases os.len(),
{
    if os.len() == 0 {
        None
    } else if os[0].0 == name {
        os[0].1
    } else {
        first_value(os.subrange(1, os.len() as int), name)
    }
}

/// Whether some option is named `name`.
pub open spec fn has_option(os: Seq<(Seq<char>, Option<Seq<char>>)>, name: Seq<char>) -> bool {
    exists|i: int| 0 <= i < os.len() && (#[trigger] os[i]).0 == name
}

/// A flag option: set when given.
pub open spec fn flag_option(os: Seq<(Seq<char>, Option<Seq<char>>)>, name: Seq<char>) -> Option<bool> {
    if has_option(os, name) {
        Some(true)
    } else {
        None
    }
}

/// The family prefix of a set item (`#4:` or `#6:`; 0 for both) and the
/// rest.
pub open spec fn family_split(item: Seq<char>) -> (int, Seq<char>) {
    if item.len() >= 3 && item[0] == '#' && item[1] == '4' && item[2] == ':' {
        (4, item.subrange(3, item.len() as int))
    } else if item.len() >= 3 && item[0] == '#' && item[1] == '6' && item[2] == ':' {
        (6, item.subrange(3, item.len() as int))
    } else {
        (0, item)
    }
}

/// The rule for a family: a set, or (`None`) no set.
pub open spec fn rule_of<T>(fam: int, set: Option<T>) -> ConfigForIP<T> {
    match set {
        Some(x) => if fam == 4 {
            ConfigForIP::V4(x)
        } else if fam == 6 {
            ConfigForIP::V6(x)
        } else {
            ConfigForIP::All(x)
        },
        None => if fam == 4 {
            ConfigForIP::NoneV4
        } else if fam == 6 {
            ConfigForIP::NoneV6
        } else {
            ConfigForIP::NoneAll
        },
    }
}

/// An IPSet item: `-` for none, else the set's name.
pub open spec fn ipset_item(item: Seq<char>) -> Option<ConfigForIP<Seq<char>>> {
    let (f, body) = family_split(item);
    if body == seq!['-'] {
        Some(rule_of(f, None))
    } else if body.len() > 0 {
        Some(rule_of(f, Some(body)))
    } else {
        None
    }
}

/// An nftables item: `-` for none, else `family#table#set`.
pub open spec fn nft_item(item: Seq<char>) -> Option<ConfigForIP<(Seq<char>, Seq<char>, Seq<char>)>> {
    let (f, body) = family_split(item);
    if body == seq!['-'] {
        Some(rule_of(f, None))
    } else {
        let parts = split_on(body, '#');
        if parts.len() == 3 && parts[0].len() > 0 && parts[1].len() > 0 && parts[2].len() > 0 {
            Some(rule_of(f, Some((parts[0], parts[1], parts[2]))))
        } else {
            None
        }
    }
}

/// A comma-separated list of IPSet items; `None` when one is malformed.
pub open spec fn ipset_list(v: Seq<char>) -> Option<Seq<ConfigForIP<Seq<char>>>> {
    let items = split_on(v, ',');
    if forall|i: int| 0 <= i < items.len() ==> (#[trigger] ipset_item(items[i])) is Some {
        Some(items.map_values(|it: Seq<char>| match ipset_item(it) {
            Some(x) => x,
            None => ConfigForIP::NoneAll,
        }))
    } else {
        None
    }
}

/// A comma-separated list of nftables items; `None` when one is malformed.
pub open spec fn nft_list(v: Seq<char>) -> Option<Seq<ConfigForIP<(Seq<char>, Seq<char>, Seq<char>)>>> {
    let items = split_on(v, ',');
    if forall|i: int| 0 <= i < items.len() ==> (#[trigger] nft_item(items[i])) is Some {
        Some(items.map_values(|it: Seq<char>| match nft_item(it) {
            Some(x) => x,
            None => ConfigForIP::NoneAll,
        }))
    } else {
        None
    }
}

/// The value of an IPSet rule.
pub open spec fn ipset_rule_view(r: ConfigForIP<KernelIpSet>) -> ConfigForIP<Seq<char>> {
    match r {
        ConfigForIP::All(s) => ConfigForIP::All(s.0@),
        ConfigForIP::V4(s) => ConfigForIP::V4(s.0@),
        ConfigForIP::V6(s) => ConfigForIP::V6(s.0@),
        ConfigForIP::NoneAll => ConfigForIP::NoneAll,
        ConfigForIP::NoneV4 => ConfigForIP::NoneV4,
        ConfigForIP::NoneV6 => ConfigForIP::NoneV6,
    }
}

/// The value of an nftables rule.
pub open spec fn nft_rule_view(r: ConfigForIP<NFTsetConfig>) -> ConfigForIP<(Seq<char>, Seq<char>, Seq<char>)> {
    match r {
        ConfigForIP::All(s) => ConfigForIP::All((s.family@, s.table@, s.name@)),
        ConfigForIP::V4(s) => ConfigForIP::V4((s.family@, s.table@, s.name@)),
        ConfigForIP::V6(s) => ConfigForIP::V6((s.family@, s.table@, s.name@)),
        ConfigForIP::NoneAll => ConfigForIP::NoneAll,
        ConfigForIP::NoneV4 => ConfigForIP::NoneV4,
        ConfigForIP::NoneV6 => ConfigForIP::NoneV6,
    }
}

pub open spec fn ipset_views(o: Option<Vec<ConfigForIP<KernelIpSet>>>) -> Option<Seq<ConfigForIP<Seq<char>>>> {
    match o {
        Some(v) => Some(v@.map_values(|r: ConfigForIP<KernelIpSet>| ipset_rule_view(r))),
        None => None,
    }
}

pub open spec fn nft_views(o: Option<Vec<ConfigForIP<NFTsetConfig>>>) -> Option<Seq<ConfigForIP<(Seq<char>, Seq<char>, Seq<char>)>>> {
    match o {
        Some(v) => Some(v@.map_values(|r: ConfigForIP<NFTsetConfig>| nft_rule_view(r))),
        None => None,
    }
}

fn family_of(item: &str) -> (r: (u8, String))
    ensures
        (r.0 as int, r.1@) == family_split(item@),
{
    let n = item.unicode_len();
    if n >= 3 && item.get_char(0) == '#' && item.get_char(2) == ':' {
        let c = item.get_char(1);
        if c == '4' {
            return (4, text_of(item, 3, n));
        } else if c == '6' {
            return (6, text_of(item, 3, n));
        }
    }
    (0, text_of(item, 0, n))
}

fn is_dash(s: &String) -> (r: bool)
    ensures
        r == (s@ == seq!['-']),
{
    let n = s.as_str().unicode_len();
    let r = n == 1 && s.as_str().get_char(0) == '-';
    if n == 1 {
        assert(r ==> s@ =~= seq!['-']);
    }
    r
}

fn make_rule<T>(fam: u8, set: Option<T>) -> (r: ConfigForIP<T>)
    ensures
        r == rule_of(fam as int, set),
{
    match set {
        Some(x) => if fam == 4 {
            ConfigForIP::V4(x)
        } else if fam == 6 {
            ConfigForIP::V6(x)
        } else {
            ConfigForIP::All(x)
        },
        None => if fam == 4 {
            ConfigForIP::NoneV4
        } else if fam == 6 {
            ConfigForIP::NoneV6
        } else {
            ConfigForIP::NoneAll
        },
    }
}

fn ipset_item_of(item: &str) -> (r: Option<ConfigForIP<KernelIpSet>>)
    ensures
        match r {
            Some(x) => ipset_item(item@) == Some(ipset_rule_view(x)),
            None => ipset_item(item@) is None,
        },
{
    let (fam, body) = family_of(item);
    if is_dash(&body) {
        Some(make_rule(fam, None))
    } else if body.as_str().unicode_len() > 0 {
        let ghost b = body@;
        Some(make_rule(fam, Some(KernelIpSet(body))))
    } else {
        None
    }
}

fn nft_item_of(item: &str) -> (r: Option<ConfigForIP<NFTsetConfig>>)
    ensures
        match r {
            Some(x) => nft_item(item@) == Some(nft_rule_view(x)),
            None => nft_item(item@) is None,
        },
{
    let (fam, body) = family_of(item);
    if is_dash(&body) {
        return Some(make_rule(fam, None));
    }
    let parts = split_pieces(body.as_str(), '#');
    if parts.len() == 3 && parts[0].as_str().unicode_len() > 0 && parts[1].as_str().unicode_len() > 0
        && parts[2].as_str().unicode_len() > 0 {
        let set = NFTsetConfig { family: parts[0].clone(), table: parts[1].clone(), name: parts[2].clone() };
        Some(make_rule(fam, Some(set)))
    } else {
        None
    }
}

fn ipset_list_of(v: &str) -> (r: Option<Vec<ConfigForIP<KernelIpSet>>>)
    ensures
        ipset_views(r) == ipset_list(v@),
{
    let items = split_pieces(v, ',');
    let ghost its = split_on(v@, ',');
    let mut out: Vec<ConfigForIP<KernelIpSet>> = Vec::new();
    let mut i: usize = 0;
    while i < items.len()
        invariant
            its == split_on(v@, ','),
            items@.len() == its.len(),
            forall|k: int| 0 <= k < items@.len() ==> (#[trigger] items@[k])@ == its[k],
            i <= items@.len(),
            out@.len() == i,
            forall|k: int| 0 <= k < i ==> ipset_item(its[k]) == Some(ipset_rule_view(#[trigger] out@[k])),
        decreases items.len() - i,
    {
        match ipset_item_of(items[i].as_str()) {
            Some(x) => out.push(x),
            None => {
                assert(ipset_item(its[i as int]) is None);
                return None;
            },
        }
        i = i + 1;
    }
    assert forall|k: int| 0 <= k < its.len() implies (#[trigger] ipset_item(its[k])) is Some by {
        assert(ipset_item(its[k]) == Some(ipset_rule_view(out@[k])));
    }
    let r = Some(out);
    assert(ipset_views(r)->0 =~= its.map_values(|it: Seq<char>| match ipset_item(it) {
        Some(x) => x,
        None => ConfigForIP::NoneAll,
    }));
    r
}

fn nft_list_of(v: &str) -> (r: Option<Vec<ConfigForIP<NFTsetConfig>>>)
    ensures
        nft_views(r) == nft_list(v@),
{
    let items = split_pieces(v, ',');
    let ghost its = split_on(v@, ',');
    let mut out: Vec<ConfigForIP<NFTsetConfig>> = Vec::new();
    let mut i: usize = 0;
    while i < items.len()
        invariant
            its == split_on(v@, ','),
            items@.len() == its.len(),
            forall|k: int| 0 <= k < items@.len() ==> (#[trigger] items@[k])@ == its[k],
            i <= items@.len(),
            out@.len() == i,
            forall|k: int| 0 <= k < i ==> nft_item(its[k]) == Some(nft_rule_view(#[trigger] out@[k])),
        decreases items.len() - i,
    {
        match nft_item_of(items[i].as_str()) {
            Some(x) => out.push(x),
            None => {
                assert(nft_item(its[i as int]) is None);
                return None;
            },
        }
        i = i + 1;
    }
    assert forall|k: int| 0 <= k < its.len() implies (#[trigger] nft_item(its[k])) is Some by {
        assert(nft_item(its[k]) == Some(nft_rule_view(out@[k])));
    }
    let r = Some(out);
    assert(nft_views(r)->0 =~= its.map_values(|it: Seq<char>| match nft_item(it) {
        Some(x) => x,
        None => ConfigForIP::NoneAll,
    }));
    r
}

/// The text of an optional string.
pub open spec fn opt_text(o: Option<String>) -> Option<Seq<char>> {
    match o {
        Some(s) => Some(s@),
        None => None,
    }
}

/// Every set option has a well-formed value.
pub open spec fn options_ok(os: Seq<(Seq<char>, Option<Seq<char>>)>) -> bool {
    forall|i: int| 0 <= i < os.len() ==> {
        &&& (#[trigger] os[i]).0 == "ipset"@ ==> (os[i].1 matches Some(v) && ipset_list(v) is Some)
        &&& os[i].0 == "nftset"@ ==> (os[i].1 matches Some(v) && nft_list(v) is Some)
    }
}

/// The server options a list of options sets: the last `group` with a
/// value; each `no-*` flag given; the last `ipset` and `nftset` lists.
/// Other options are not server options and change nothing.
pub open spec fn opts_from(o: ServerOpts, os: Seq<(Seq<char>, Option<Seq<char>>)>) -> bool {
    &&& opt_text(o.group) == last_value(os, "group"@)
    &&& opts_rest(o, os)
}

/// The server options other than the group that a list of options sets.
pub open spec fn opts_rest(o: ServerOpts, os: Seq<(Seq<char>, Option<Seq<char>>)>) -> bool {
    &&& o.rule_group is None
    &&& !o.is_background
    &&& o.no_cache == flag_option(os, "no-cache"@)
    &&& o.no_speed_check == flag_option(os, "no-speed-check"@)
    &&& o.no_serve_expired == flag_option(os, "no-serve-expired"@)
    &&& o.no_dualstack_selection == flag_option(os, "no-dualstack-selection"@)
    &&& o.no_rule_nameserver == flag_option(os, "no-rule-nameserver"@)
    &&& o.no_rule_ipset == flag_option(os, "no-rule-ipset"@)
    &&& ipset_views(o.ipset) == match last_value(os, "ipset"@) {
        Some(v) => ipset_list(v),
        None => None,
    }
    &&& nft_views(o.nftset) == match last_value(os, "nftset"@) {
        Some(v) => nft_list(v),
        None => None,
    }
}

fn flag_step(cur: Option<bool>, hit: bool) -> (r: Option<bool>)
    ensures
        r == (if hit { Some(true) } else { cur }),
{
    if hit {
        Some(true)
    } else {
        cur
    }
}

/// The server options of a list of options; `Verify` when a set option has
/// no value or a malformed one.
pub fn server_opts_of(os: &Vec<(String, Option<String>)>) -> (r: Result<ServerOpts, ErrorKind>)
    ensures
        match r {
            Ok(o) => options_ok(option_views(os@)) && opts_from(o, option_views(os@)),
            Err(e) => !options_ok(option_views(os@)) && e == ErrorKind::Verify,
        },
{
    let ghost all = option_views(os@);
    let mut group: Option<String> = None;
    let mut no_cache: Option<bool> = None;
    let mut no_speed_check: Option<bool> = None;
    let mut no_serve_expired: Option<bool> = None;
    let mut no_dualstack_selection: Option<bool> = None;
    let mut no_rule_nameserver: Option<bool> = None;
    let mut no_rule_ipset: Option<bool> = None;
    let mut ipset: Option<Vec<ConfigForIP<KernelIpSet>>> = None;
    let mut nftset: Option<Vec<ConfigForIP<NFTsetConfig>>> = None;
    let mut i: usize = 0;
    while i < os.len()
        invariant
            all == option_views(os@),
            i <= os@.len(),
            options_ok(all.take(i as int)),
            opts_from(ServerOpts {
                group, rule_group: None, is_background: false, no_cache, no_speed_check, no_serve_expired,
                no_dualstack_selection, no_rule_nameserver, no_rule_ipset, ipset, nftset,
            }, all.take(i as int)),
        decreases os.len() - i,
    {
        let ghost pre = all.take(i as int);
        let ghost cur = all.take(i as int + 1);
        proof {
            assert(cur.drop_last() =~= pre);
            assert(cur.last() == all[i as int]);
            assert(forall|k: int| 0 <= k < i ==> #[trigger] cur[k] == pre[k]);
        }
        let name = os[i].0.as_str();
        let value = &os[i].1;
        let is_group = str_eq(name, "group");
        if is_group {
            if let Some(v) = value {
                group = Some(v.clone());
            }
        }
        let h1 = str_eq(name, "no-cache");
        no_cache = flag_step(no_cache, h1);
        let h2 = str_eq(name, "no-speed-check");
        no_speed_check = flag_step(no_speed_check, h2);
        let h3 = str_eq(name, "no-serve-expired");
        no_serve_expired = flag_step(no_serve_expired, h3);
        let h4 = str_eq(name, "no-dualstack-selection");
        no_dualstack_selection = flag_step(no_dualstack_selection, h4);
        let h5 = str_eq(name, "no-rule-nameserver");
        no_rule_nameserver = flag_step(no_rule_nameserver, h5);
        let h6 = str_eq(name, "no-rule-ipset");
        no_rule_ipset = flag_step(no_rule_ipset, h6);
        if str_eq(name, "ipset") {
            match value {
                Some(v) => match ipset_list_of(v.as_str()) {
                    Some(l) => ipset = Some(l),
                    None => return Err(ErrorKind::Verify),
                },
                None => return Err(ErrorKind::Verify),
            }
        }
        if str_eq(name, "nftset") {
            match value {
                Some(v) => match nft_list_of(v.as_str()) {
                    Some(l) => nftset = Some(l),
                    None => return Err(ErrorKind::Verify),
                },
                None => return Err(ErrorKind::Verify),
            }
        }
        proof {
            assert(forall|n: Seq<char>| has_option(cur, n) == (has_option(pre, n) || cur.last().0 == n)) by {
                assert forall|n: Seq<char>| has_option(cur, n) implies (has_option(pre, n) || cur.last().0 == n) by {
                    let k = choose|k: int| 0 <= k < cur.len() && (#[trigger] cur[k]).0 == n;
                    if k < i {
                        assert(pre[k] == cur[k]);
                    }
                }
                assert forall|n: Seq<char>| has_option(pre, n) implies has_option(cur, n) by {
                    let k = choose|k: int| 0 <= k < pre.len() && (#[trigger] pre[k]).0 == n;
                    assert(cur[k] == pre[k]);
                }
            }
        }
        i = i + 1;
    }
    assert(all.take(os@.len() as int) =~= all);
    Ok(ServerOpts {
        group,
        rule_group: None,
        is_background: false,
        no_cache,
        no_speed_check,
        no_serve_expired,
        no_dualstack_selection,
        no_rule_nameserver,
        no_rule_ipset,
        ipset,
        nftset,
    })
}

/// Who a client rule is for.
#[derive(Debug)]
pub enum Client {
    /// Addresses in a network.
    IpAddr(IpNet),
    /// A MAC address, as lower-case colon-separated text.
    MacAddr(String),
}

/// A client rule: the rule group of the client's requests, the client and
/// the server options for its requests.
#[derive(Debug)]
pub struct ClientRule {
    pub group: String,
    pub client: Client,
    pub options: ServerOpts,
}

/// The value of a client: a network, or a MAC address's text.
pub enum ClientV {
    IpAddr(IpNet),
    MacAddr(Seq<char>),
}

pub open spec fn client_view(c: Client) -> ClientV {
    match c {
        Client::IpAddr(n) => ClientV::IpAddr(n),
        Client::MacAddr(m) => ClientV::MacAddr(m@),
    }
}

/// The client a word names: a network as `ipnet` reads it, else a MAC
/// address as `mac-addr` reads it.
pub open spec fn client_of(w: Seq<char>) -> Option<ClientV> {
    match ipnet_parsed(w) {
        Some((a, p)) => Some(ClientV::IpAddr(IpNet { addr: a, prefix_len: p })),
        None => match mac_parsed(w) {
            Some(o) => Some(ClientV::MacAddr(mac_text(o))),
            None => None,
        },
    }
}

impl Client {
    /// The client a word names.
    pub fn parse(w: &str) -> (r: Option<Client>)
        ensures
            match r {
                Some(c) => client_of(w@) == Some(client_view(c)),
                None => client_of(w@) is None,
            },
    {
        match parse_ipnet(w) {
            Some((a, p)) => Some(Client::IpAddr(IpNet { addr: a, prefix_len: p })),
            None => match parse_mac(w) {
                Some(o) => Some(Client::MacAddr(mac_string(o))),
                None => None,
            },
        }
    }
}

/// The words of a line and their spans.
pub open spec fn line_spans(s: Seq<char>) -> Seq<(int, int)> {
    spans_upto(s, s.len() as int)
}

/// How a client rule line reads: the first word (at the start of the line)
/// is the client; the options after it, up to the first word that is
/// neither an option nor an option's value, set the server options; the
/// rule group is that of the `group` option, else the value of the first
/// `g` option, else empty. The rest of the line is what follows the last
/// word read. `Tag` when the line does not start with a client, `Verify`
/// when a set option is malformed.
pub open spec fn rule_parses(s: Seq<char>, r: Result<(String, ClientRule), ErrorKind>) -> bool {
    let sp = line_spans(s);
    if sp.len() == 0 || sp[0].0 != 0 || client_of(span_text(s, sp[0])) is None {
        r == Err::<(String, ClientRule), ErrorKind>(ErrorKind::Tag)
    } else {
        let (os, stop) = read_options(s, sp, 1);
        if !options_ok(os) {
            r == Err::<(String, ClientRule), ErrorKind>(ErrorKind::Verify)
        } else {
            r matches Ok((rest, rule)) && {
                &&& rest@ == s.subrange(sp[stop - 1].1, s.len() as int)
                &&& Some(client_view(rule.client)) == client_of(span_text(s, sp[0]))
                &&& rule.group@ == match last_value(os, "group"@) {
                    Some(g) => g,
                    None => match first_value(os, "g"@) {
                        Some(g) => g,
                        None => Seq::empty(),
                    },
                }
                &&& rule.options.group is None
                &&& opts_rest(rule.options, os)
            }
        }
    }
}

fn first_g(os: &Vec<(String, Option<String>)>) -> (r: Option<String>)
    ensures
        opt_text(r) == first_value(option_views(os@), "g"@),
{
    let ghost all = option_views(os@);
    assert(all.subrange(0, all.len() as int) =~= all);
    let mut i: usize = 0;
    while i < os.len()
        invariant
            all == option_views(os@),
            i <= os@.len(),
            first_value(all.subrange(i as int, all.len() as int), "g"@) == first_value(all, "g"@),
        decreases os.len() - i,
    {
        let ghost tail = all.subrange(i as int, all.len() as int);
        assert(tail.subrange(1, tail.len() as int) =~= all.subrange(i as int + 1, all.len() as int));
        assert(tail[0] == all[i as int]);
        if str_eq(os[i].0.as_str(), "g") {
            return match &os[i].1 {
                Some(v) => Some(v.clone()),
                None => None,
            };
        }
        i = i + 1;
    }
    None
}

impl ClientRule {
    /// Reads a client rule line.
    pub fn parse(input: &str) -> (r: Result<(String, ClientRule), ErrorKind>)
        ensures
            rule_parses(input@, r),
    {
        let sp = word_spans(input);
        proof {
            lemma_spans(input@, input@.len() as int);
        }
        let ghost spv = spans_view(sp@);
        if sp.len() == 0 || sp[0].0 != 0 {
            return Err(ErrorKind::Tag);
        }
        assert(spv[0] == (sp@[0].0 as int, sp@[0].1 as int));
        let first = input.substring_char(sp[0].0, sp[0].1);
        let client = match Client::parse(first) {
            Some(c) => c,
            None => return Err(ErrorKind::Tag),
        };
        let (os, stop) = option_list(input, &sp);
        let opts = match server_opts_of(&os) {
            Ok(o) => o,
            Err(e) => return Err(e),
        };
        let mut options = opts;
        let group = match options.group {
            Some(g) => g,
            None => match first_g(&os) {
                Some(g) => g,
                None => String::new(),
            },
        };
        options.group = None;
        assert(spv[stop - 1] == (sp@[stop - 1].0 as int, sp@[stop - 1].1 as int));
        let n = input.unicode_len();
        let rest = text_of(input, sp[stop - 1].1, n);
        Ok((rest, ClientRule { group, client, options }))
    }
}

} // verus!
