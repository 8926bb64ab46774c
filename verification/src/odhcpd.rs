//! Host names from odhcpd's lease file (and hosts-style lines in it): the
//! names of DHCP clients answer A, AAAA and PTR queries.
use vstd::prelude::*;
use crate::client_rule::{split_on, split_pieces};
use crate::ip_text::{ip_value, parse_ip, array16};
use crate::prefetch::{all_digits, digits_value};
use crate::response::{DnsResponse, answer_message};
use crate::codec::{labels_ok, enc_name};
use crate::message::{Name, Query, RData, RDataV, Record, RecordType, label_seqs};
use crate::net::IpAddress;
use crate::cache::name_key;
use crate::dns_rule::lower_name;

verus! {

// ---------------------------------------------------------------------------
// Lines and words

/// The characters the standard library counts as white space.
pub open spec fn is_ws(c: char) -> bool {
    ||| '\t' <= c && c <= '\r'
    ||| c == ' '
    ||| c == '\u{85}'
    ||| c == '\u{a0}'
    ||| c == '\u{1680}'
    ||| '\u{2000}' <= c && c <= '\u{200a}'
    ||| c == '\u{2028}'
    ||| c == '\u{2029}'
    ||| c == '\u{202f}'
    ||| c == '\u{205f}'
    ||| c == '\u{3000}'
}

fn ws(c: char) -> (r: bool)
    ensures
        r == is_ws(c),
{
    ('\t' <= c && c <= '\r') || c == ' ' || c == '\u{85}' || c == '\u{a0}' || c == '\u{1680}' || ('\u{2000}' <= c && c
        <= '\u{200a}') || c == '\u{2028}' || c == '\u{2029}' || c == '\u{202f}' || c == '\u{205f}' || c == '\u{3000}'
}

/// A line without one trailing carriage return.
pub open spec fn strip_cr(l: Seq<char>) -> Seq<char> {
    if l.len() > 0 && l.last() == '\r' {
        l.drop_last()
    } else {
        l
    }
}

/// The lines of a text as `str::lines` gives them: split at line feeds, no
/// line after a final line feed, a carriage return before a line feed
/// dropped.
pub open spec fn text_lines(s: Seq<char>) -> Seq<Seq<char>> {
    let p = split_on(s, '\n');
    let kept = if s.len() == 0 || s.last() == '\n' { p.drop_last() } else { p };
    kept.map_values(|l: Seq<char>| strip_cr(l))
}

/// The text without white space at either end.
pub open spec fn trimmed(s: Seq<char>) -> Seq<char>
    decreases s.len(),
{
    if s.len() == 0 {
        s
    } else if is_ws(s[0]) {
        trimmed(s.drop_first())
    } else if is_ws(s.last()) {
        trimmed(s.drop_last())
    } else {
        s
    }
}

/// The words of the first `n` characters and whether the last of them
/// is part of a word.
pub open spec fn words_upto(s: Seq<char>, n: int) -> (Seq<Seq<char>>, bool)
    decreases n,
{
    if n <= 0 {
        (Seq::empty(), false)
    } else {
        let (w, inside) = words_upto(s, n - 1);
        let c = s[n - 1];
        if is_ws(c) {
            (w, false)
        } else if inside {
            (w.drop_last().push(w.last().push(c)), true)
        } else {
            (w.push(seq![c]), true)
        }
    }
}

/// The words of a text: the longest runs without white space.
pub open spec fn words_of(s: Seq<char>) -> Seq<Seq<char>> {
    words_upto(s, s.len() as int).0
}

proof fn lemma_words_inside(s: Seq<char>, n: int)
    ensures
        words_upto(s, n).1 ==> words_upto(s, n).0.len() > 0,
    decreases n,
{
    if n > 0 {
        lemma_words_inside(s, n - 1);
    }
}

/// The lines of a text.
pub fn lines_of(text: &str) -> (r: Vec<String>)
    ensures
        r@.len() == text_lines(text@).len(),
        forall|i: int| 0 <= i < r@.len() ==> (#[trigger] r@[i])@ == text_lines(text@)[i],
{
    let pieces = split_pieces(text, '\n');
    let n = text.unicode_len();
    let ghost p = split_on(text@, '\n');
    let keep = if n == 0 || text.get_char(n - 1) == '\n' { pieces.len() - 1 } else { pieces.len() };
    proof {
        crate::client_rule::lemma_pieces_len(text@, '\n', text@.len() as int);
    }
    let ghost kept = if text@.len() == 0 || text@.last() == '\n' { p.drop_last() } else { p };
    let mut out: Vec<String> = Vec::new();
    let mut i: usize = 0;
    while i < keep
        invariant
            keep == kept.len(),
            kept.len() <= p.len(),
            pieces@.len() == p.len(),
            forall|k: int| 0 <= k < pieces@.len() ==> (#[trigger] pieces@[k])@ == p[k],
            forall|k: int| 0 <= k < kept.len() ==> kept[k] == p[k],
            i <= keep,
            out@.len() == i,
            forall|k: int| 0 <= k < i ==> (#[trigger] out@[k])@ == strip_cr(kept[k]),
        decreases keep - i,
    {
        let l = pieces[i].as_str();
        let m = l.unicode_len();
        if m > 0 && l.get_char(m - 1) == '\r' {
            let s = l.substring_char(0, m - 1);
            assert(s@ =~= l@.drop_last());
            out.push(s.to_string());
        } else {
            out.push(pieces[i].clone());
        }
        i = i + 1;
    }
    out
}

/// The text without white space at either end.
pub fn trim_ws(s: &str) -> (r: String)
    ensures
        r@ == trimmed(s@),
{
    let n = s.unicode_len();
    let mut a: usize = 0;
    let mut b: usize = n;
    assert(s@.subrange(0, n as int) =~= s@);
    while a < b && ws(s.get_char(a))
        invariant
            n == s@.len(),
            a <= b <= n,
            b == n,
            trimmed(s@) == trimmed(s@.subrange(a as int, b as int)),
        decreases b - a,
    {
        assert(s@.subrange(a as int, b as int).drop_first() =~= s@.subrange(a + 1, b as int));
        a = a + 1;
    }
    while a < b && ws(s.get_char(b - 1))
        invariant
            n == s@.len(),
            a <= b <= n,
            a == b || !is_ws(s@[a as int]),
            trimmed(s@) == trimmed(s@.subrange(a as int, b as int)),
        decreases b - a,
    {
        let ghost t = s@.subrange(a as int, b as int);
        assert(t.drop_last() =~= s@.subrange(a as int, b - 1));
        b = b - 1;
    }
    let r = s.substring_char(a, b);
    proof {
        let t = s@.subrange(a as int, b as int);
        if a < b {
            assert(t[0] == s@[a as int]);
            assert(t.last() == s@[b - 1]);
        }
        assert(trimmed(t) == t);
    }
    r.to_string()
}

/// The words of a text.
pub fn words(s: &str) -> (r: Vec<String>)
    ensures
        r@.len() == words_of(s@).len(),
        forall|i: int| 0 <= i < r@.len() ==> (#[trigger] r@[i])@ == words_of(s@)[i],
{
    let n = s.unicode_len();
    let mut done: Vec<String> = Vec::new();
    let mut cur = String::new();
    let mut inside = false;
    let mut i: usize = 0;
    while i < n
        invariant
            n == s@.len(),
            i <= n,
            inside == words_upto(s@, i as int).1,
            inside ==> done@.len() + 1 == words_upto(s@, i as int).0.len() && cur@ == words_upto(s@, i as int).0.last(),
            !inside ==> done@.len() == words_upto(s@, i as int).0.len(),
            forall|k: int| 0 <= k < done@.len() ==> (#[trigger] done@[k])@ == words_upto(s@, i as int).0[k],
        decreases n - i,
    {
        proof {
            lemma_words_inside(s@, i as int);
        }
        let c = s.get_char(i);
        if ws(c) {
            if inside {
                let w = cur;
                done.push(w);
                cur = String::new();
                inside = false;
            }
        } else {
            let one = s.substring_char(i, i + 1);
            assert(one@ =~= seq![c]);
            if inside {
                cur.append(one);
            } else {
                cur = one.to_string();
                inside = true;
            }
        }
        i = i + 1;
    }
    if inside {
        done.push(cur);
    }
    done
}


// ---------------------------------------------------------------------------
// Host names

/// The bytes of ASCII characters.
pub open spec fn ascii_bytes(s: Seq<char>) -> Seq<u8> {
    s.map_values(|c: char| c as u8)
}

pub open spec fn is_ascii_text(s: Seq<char>) -> bool {
    forall|i: int| 0 <= i < s.len() ==> (#[trigger] s[i]) as u32 <= 127
}

/// Whether each label holds 1 to 63 ASCII characters.
pub open spec fn host_label_ok(l: Seq<char>) -> bool {
    1 <= l.len() <= 63 && is_ascii_text(l)
}

/// A host name without its final dot.
pub open spec fn host_text(s: Seq<char>) -> Seq<char> {
    if s.len() > 0 && s.last() == '.' {
        s.drop_last()
    } else {
        s
    }
}

/// The labels as bytes.
pub open spec fn labels_of(p: Seq<Seq<char>>) -> Seq<Seq<u8>> {
    p.map_values(|l: Seq<char>| ascii_bytes(l))
}

pub open spec fn all_labels_ok(p: Seq<Seq<char>>) -> bool {
    forall|i: int| 0 <= i < p.len() ==> #[trigger] host_label_ok(p[i])
}

/// The labels of a host name written with dots (a final dot allowed):
/// ASCII labels of 1 to 63 characters whose wire form fits 255 bytes;
/// `.` is the root.
pub open spec fn host_labels(s: Seq<char>) -> Option<Seq<Seq<u8>>> {
    if s == seq!['.'] {
        Some(Seq::empty())
    } else {
        let p = split_on(host_text(s), '.');
        if all_labels_ok(p) && crate::codec::enc_name(labels_of(p)).len() <= 255 {
            Some(labels_of(p))
        } else {
            None
        }
    }
}

/// The wire form of a suffix of labels is no longer than that of the whole.
proof fn lemma_enc_suffix(l: Seq<Seq<u8>>, i: int)
    requires
        0 <= i <= l.len(),
    ensures
        crate::codec::enc_name(l.skip(i)).len() <= crate::codec::enc_name(l).len(),
    decreases i,
{
    if i > 0 {
        lemma_enc_suffix(l.drop_first(), i - 1);
        assert(l.drop_first().skip(i - 1) =~= l.skip(i));
    } else {
        assert(l.skip(0) =~= l);
    }
}

/// Whether the wire form of the labels fits 255 bytes.
pub fn wire_fits(labels: &Vec<Vec<u8>>) -> (r: bool)
    ensures
        r == (crate::codec::enc_name(label_seqs(labels@)).len() <= 255),
{
    let ghost ls = label_seqs(labels@);
    let mut total: usize = 1;
    let mut i: usize = labels.len();
    assert(ls.skip(i as int) =~= Seq::<Seq<u8>>::empty());
    while i > 0
        invariant
            i <= labels@.len(),
            ls == label_seqs(labels@),
            total == crate::codec::enc_name(ls.skip(i as int)).len(),
            total <= 255,
        decreases i,
    {
        i = i - 1;
        assert(ls.skip(i as int).drop_first() =~= ls.skip(i + 1));
        assert(ls.skip(i as int)[0] == ls[i as int]);
        assert(ls[i as int] == labels@[i as int]@);
        let l = labels[i].len();
        if l > 255 || total + l + 1 > 255 {
            proof {
                lemma_enc_suffix(ls, i as int);
            }
            return false;
        }
        total = total + l + 1;
    }
    assert(ls.skip(0) =~= ls);
    true
}

/// Reads a host name.
pub fn host_name(s: &str) -> (r: Option<Name>)
    ensures
        match host_labels(s@) {
            Some(l) => r matches Some(n) && n@ == l,
            None => r is None,
        },
{
    let n = s.unicode_len();
    if n == 1 && s.get_char(0) == '.' {
        assert(s@ =~= seq!['.']);
        return Some(Name { labels: Vec::new() });
    }
    assert(s@ != seq!['.']) by {
        if s@ == seq!['.'] {
            assert(s@.len() == 1 && s@[0] == '.');
        }
    }
    let t = if n > 0 && s.get_char(n - 1) == '.' { s.substring_char(0, n - 1) } else { s.substring_char(0, n) };
    let ghost tv = host_text(s@);
    assert(t@ =~= tv);
    let parts = split_pieces(t, '.');
    let ghost p = split_on(tv, '.');
    let mut labels: Vec<Vec<u8>> = Vec::new();
    let mut i: usize = 0;
    while i < parts.len()
        invariant
            s@ != seq!['.'],
            tv == host_text(s@),
            p == split_on(tv, '.'),
            parts@.len() == p.len(),
            forall|k: int| 0 <= k < parts@.len() ==> (#[trigger] parts@[k])@ == p[k],
            i <= parts@.len(),
            labels@.len() == i,
            forall|k: int| 0 <= k < i ==> #[trigger] host_label_ok(p[k]),
            forall|k: int| 0 <= k < i ==> (#[trigger] labels@[k])@ == ascii_bytes(p[k]),
        decreases parts.len() - i,
    {
        let part = parts[i].as_str();
        let m = part.unicode_len();
        if m < 1 || m > 63 {
            assert(!host_label_ok(p[i as int]));
            assert(!all_labels_ok(p));
            return None;
        }
        let mut bytes: Vec<u8> = Vec::new();
        let mut j: usize = 0;
        while j < m
            invariant
                s@ != seq!['.'],
                tv == host_text(s@),
                p == split_on(tv, '.'),
                i < p.len(),
                m == part@.len(),
                part@ == p[i as int],
                j <= m,
                bytes@ == ascii_bytes(part@.take(j as int)),
                is_ascii_text(part@.take(j as int)),
            decreases m - j,
        {
            let c = part.get_char(j);
            if c as u32 > 127 {
                assert(!is_ascii_text(part@));
                assert(!host_label_ok(p[i as int]));
                assert(!all_labels_ok(p));
                return None;
            }
            bytes.push(c as u8);
            j = j + 1;
            assert(bytes@ =~= ascii_bytes(part@.take(j as int)));
            assert forall|k: int| 0 <= k < j implies (#[trigger] part@.take(j as int)[k]) as u32 <= 127 by {
                if k < j - 1 {
                    assert(part@.take(j as int)[k] == part@.take(j - 1)[k]);
                }
            }
        }
        assert(part@.take(m as int) =~= part@);
        labels.push(bytes);
        i = i + 1;
    }
    let ghost lv = labels_of(p);
    assert(label_seqs(labels@) =~= lv);
    if !wire_fits(&labels) {
        return None;
    }
    Some(Name { labels })
}

// ---------------------------------------------------------------------------
// The records

/// Addresses by host name (the key: labels in lower case) and host names
/// by address, each key once.
pub struct LeaseRecords {
    forward: Vec<(Vec<Vec<u8>>, Vec<IpAddress>)>,
    reverse: Vec<(IpAddress, Name)>,
}

/// The value of the records: both lists in the order their keys came.
pub struct RecordsV {
    pub forward: Seq<(Seq<Seq<u8>>, Seq<IpAddress>)>,
    pub reverse: Seq<(IpAddress, Seq<Seq<u8>>)>,
}

pub open spec fn forward_views(f: Seq<(Vec<Vec<u8>>, Vec<IpAddress>)>) -> Seq<(Seq<Seq<u8>>, Seq<IpAddress>)> {
    f.map_values(|e: (Vec<Vec<u8>>, Vec<IpAddress>)| (label_seqs(e.0@), e.1@))
}

pub open spec fn reverse_views(r: Seq<(IpAddress, Name)>) -> Seq<(IpAddress, Seq<Seq<u8>>)> {
    r.map_values(|e: (IpAddress, Name)| (e.0, e.1@))
}

impl View for LeaseRecords {
    type V = RecordsV;

    closed spec fn view(&self) -> RecordsV {
        RecordsV { forward: forward_views(self.forward@), reverse: reverse_views(self.reverse@) }
    }
}

/// The first entry of `k`.
pub open spec fn find_forward(f: Seq<(Seq<Seq<u8>>, Seq<IpAddress>)>, k: Seq<Seq<u8>>) -> Option<int>
    decreases f.len(),
{
    if f.len() == 0 {
        None
    } else {
        match find_forward(f.drop_last(), k) {
            Some(j) => Some(j),
            None => if f.last().0 == k {
                Some(f.len() - 1)
            } else {
                None
            },
        }
    }
}

pub open spec fn find_reverse(r: Seq<(IpAddress, Seq<Seq<u8>>)>, ip: IpAddress) -> Option<int>
    decreases r.len(),
{
    if r.len() == 0 {
        None
    } else {
        match find_reverse(r.drop_last(), ip) {
            Some(j) => Some(j),
            None => if r.last().0 == ip {
                Some(r.len() - 1)
            } else {
                None
            },
        }
    }
}

/// `ip` added to the addresses of key `k` (once).
pub open spec fn forward_add(f: Seq<(Seq<Seq<u8>>, Seq<IpAddress>)>, k: Seq<Seq<u8>>, ip: IpAddress) -> Seq<(
    Seq<Seq<u8>>,
    Seq<IpAddress>,
)> {
    match find_forward(f, k) {
        Some(j) => if f[j].1.contains(ip) {
            f
        } else {
            f.update(j, (k, f[j].1.push(ip)))
        },
        None => f.push((k, seq![ip])),
    }
}

/// The name of `ip`, unless it has one already.
pub open spec fn reverse_add(r: Seq<(IpAddress, Seq<Seq<u8>>)>, ip: IpAddress, name: Seq<Seq<u8>>) -> Seq<(
    IpAddress,
    Seq<Seq<u8>>,
)> {
    if find_reverse(r, ip) is Some {
        r
    } else {
        r.push((ip, name))
    }
}

/// The full name of a host: a one-label name in the zone (when the result
/// fits), else the name itself.
pub open spec fn canonical(n: Seq<Seq<u8>>, zone: Option<Seq<Seq<u8>>>) -> Seq<Seq<u8>> {
    match zone {
        Some(z) => if n.len() == 1 && crate::codec::enc_name(n + z).len() <= 255 {
            n + z
        } else {
            n
        },
        None => n,
    }
}

/// The records after `host` is given `ip`: `*`, `-` and `0` name no host;
/// the name and its full name get the address, and the address gets the
/// full name unless it has one.
pub open spec fn add_host(r: RecordsV, host: Seq<char>, ip: IpAddress, zone: Option<Seq<Seq<u8>>>) -> RecordsV {
    if host == seq!['*'] || host == seq!['-'] || host == seq!['0'] {
        r
    } else {
        match host_labels(host) {
            None => r,
            Some(n) => {
                let c = canonical(n, zone);
                RecordsV {
                    forward: forward_add(forward_add(r.forward, name_key(n), ip), name_key(c), ip),
                    reverse: reverse_add(r.reverse, ip, c),
                }
            },
        }
    }
}


/// The labels of an optional zone.
pub open spec fn zone_view(zone: Option<&Name>) -> Option<Seq<Seq<u8>>> {
    match zone {
        Some(z) => Some(z@),
        None => None,
    }
}

fn copy_name(n: &Name) -> (r: Name)
    ensures
        r@ == n@,
{
    Name { labels: crate::message::copy_byte_lists(&n.labels) }
}

/// The full name of a host (see [`canonical`]).
fn canonical_name(n: &Name, zone: Option<&Name>) -> (r: Name)
    ensures
        r@ == canonical(n@, zone_view(zone)),
{
    match zone {
        Some(z) => {
            if n.labels.len() == 1 {
                let mut labels = crate::message::copy_byte_lists(&n.labels);
                let mut rest = crate::message::copy_byte_lists(&z.labels);
                let ghost a = label_seqs(labels@);
                let ghost b = label_seqs(rest@);
                labels.append(&mut rest);
                assert(label_seqs(labels@) =~= a + b);
                if wire_fits(&labels) {
                    return Name { labels };
                }
            }
            copy_name(n)
        },
        None => copy_name(n),
    }
}

fn bytes_same(a: &[u8], b: &[u8]) -> (r: bool)
    ensures
        r == (a@ == b@),
{
    if a.len() != b.len() {
        return false;
    }
    let mut i: usize = 0;
    while i < a.len()
        invariant
            a@.len() == b@.len(),
            i <= a@.len(),
            forall|k: int| 0 <= k < i ==> a@[k] == b@[k],
        decreases a.len() - i,
    {
        if a[i] != b[i] {
            return false;
        }
        i = i + 1;
    }
    assert(a@ =~= b@);
    true
}

fn same_labels(a: &Vec<Vec<u8>>, b: &Vec<Vec<u8>>) -> (r: bool)
    ensures
        r == (label_seqs(a@) == label_seqs(b@)),
{
    assert(label_seqs(a@).len() == a@.len() && label_seqs(b@).len() == b@.len());
    if a.len() != b.len() {
        return false;
    }
    let mut i: usize = 0;
    while i < a.len()
        invariant
            a@.len() == b@.len(),
            i <= a@.len(),
            forall|k: int| 0 <= k < i ==> a@[k]@ == b@[k]@,
        decreases a.len() - i,
    {
        if !bytes_same(a[i].as_slice(), b[i].as_slice()) {
            assert(label_seqs(a@)[i as int] != label_seqs(b@)[i as int]);
            return false;
        }
        i = i + 1;
    }
    assert(label_seqs(a@) =~= label_seqs(b@));
    true
}

fn has_ip(v: &Vec<IpAddress>, ip: &IpAddress) -> (r: bool)
    ensures
        r == v@.contains(*ip),
{
    let mut i: usize = 0;
    while i < v.len()
        invariant
            i <= v@.len(),
            forall|k: int| 0 <= k < i ==> v@[k] != *ip,
        decreases v.len() - i,
    {
        if v[i].same(ip) {
            return true;
        }
        i = i + 1;
    }
    false
}

impl LeaseRecords {
    /// No records.
    pub fn new() -> (r: LeaseRecords)
        ensures
            r@.forward.len() == 0,
            r@.reverse.len() == 0,
    {
        let r = LeaseRecords { forward: Vec::new(), reverse: Vec::new() };
        assert(r@.forward =~= Seq::<(Seq<Seq<u8>>, Seq<IpAddress>)>::empty());
        assert(r@.reverse =~= Seq::<(IpAddress, Seq<Seq<u8>>)>::empty());
        r
    }

    /// Where key `k` is among the forward records.
    fn forward_index(&self, k: &Vec<Vec<u8>>) -> (r: Option<usize>)
        ensures
            match find_forward(self@.forward, label_seqs(k@)) {
                Some(j) => r == Some(j as usize),
                None => r is None,
            },
            r matches Some(i) ==> find_forward(self@.forward, label_seqs(k@)) == Some(i as int) && i < self@.forward.len(),
    {
        let ghost f = self@.forward;
        let mut i: usize = 0;
        while i < self.forward.len()
            invariant
                f == self@.forward,
                f == forward_views(self.forward@),
                i <= f.len(),
                find_forward(f.take(i as int), label_seqs(k@)) is None,
            decreases self.forward.len() - i,
        {
            assert(f.take(i + 1).drop_last() =~= f.take(i as int));
            assert(f.take(i + 1).last() == f[i as int]);
            if same_labels(&self.forward[i].0, k) {
                proof {
                    lemma_find_forward_prefix(f, i as int + 1);
                }
                return Some(i);
            }
            i = i + 1;
        }
        assert(f.take(i as int) =~= f);
        None
    }

    fn forward_insert(&mut self, k: Vec<Vec<u8>>, ip: IpAddress)
        ensures
            final(self)@.forward == forward_add(old(self)@.forward, label_seqs(k@), ip),
            final(self)@.reverse == old(self)@.reverse,
    {
        let ghost f = self@.forward;
        match self.forward_index(&k) {
            Some(j) => {
                proof {
                    lemma_find_forward_range(f, label_seqs(k@));
                }
                assert(f[j as int].1 == self.forward@[j as int].1@);
                if !has_ip(&self.forward[j].1, &ip) {
                    let mut ips = self.forward[j].1.clone();
                    assert(ips@ =~= self.forward@[j as int].1@);
                    ips.push(ip);
                    let key = crate::message::copy_byte_lists(&self.forward[j].0);
                    let ghost before = self.forward@;
                    let ghost kv = label_seqs(key@);
                    let ghost iv = ips@;
                    self.forward.set(j, (key, ips));
                    proof {
                        lemma_find_forward_key(f, label_seqs(k@));
                        lemma_find_forward_range(f, label_seqs(k@));
                        assert(find_forward(f, label_seqs(k@)) == Some(j as int));
                        assert(f[j as int].0 == label_seqs(k@));
                        assert(kv == f[j as int].0);
                        assert(iv == f[j as int].1.push(ip));
                        assert(label_seqs(self.forward@[j as int].0@) == kv);
                        assert(self.forward@[j as int].1@ == iv);
                        assert(forward_views(self.forward@)[j as int] == (kv, iv));
                        assert(f == forward_views(before));
                        let nf = forward_views(self.forward@);
                        let target = f.update(j as int, (label_seqs(k@), f[j as int].1.push(ip)));
                        assert(nf.len() == target.len());
                        assert forall|m: int| 0 <= m < f.len() implies nf[m] == target[m] by {
                            if m == j {
                                assert(nf[m] == (kv, iv));
                                assert(target[m] == (label_seqs(k@), f[j as int].1.push(ip)));
                                assert(kv == label_seqs(k@));
                            } else {
                                assert(self.forward@[m] == before[m]);
                                assert(nf[m] == forward_views(before)[m]);
                            }
                        }
                        assert(nf =~= target);
                        assert(self@.forward =~= f.update(j as int, (label_seqs(k@), f[j as int].1.push(ip))));
                    }
                }
            },
            None => {
                let mut ips: Vec<IpAddress> = Vec::new();
                ips.push(ip);
                self.forward.push((k, ips));
                assert(self@.forward =~= f.push((label_seqs(k@), seq![ip])));
            },
        }
    }

    fn reverse_insert(&mut self, ip: IpAddress, name: Name)
        ensures
            final(self)@.reverse == reverse_add(old(self)@.reverse, ip, name@),
            final(self)@.forward == old(self)@.forward,
    {
        let ghost r = self@.reverse;
        let mut i: usize = 0;
        while i < self.reverse.len()
            invariant
                r == self@.reverse,
                r == reverse_views(self.reverse@),
                i <= r.len(),
                find_reverse(r.take(i as int), ip) is None,
            decreases self.reverse.len() - i,
        {
            assert(r.take(i + 1).drop_last() =~= r.take(i as int));
            assert(r.take(i + 1).last() == r[i as int]);
            if self.reverse[i].0.same(&ip) {
                proof {
                    lemma_find_reverse_prefix(r, i as int + 1, ip);
                }
                return;
            }
            i = i + 1;
        }
        assert(r.take(i as int) =~= r);
        self.reverse.push((ip, name));
        assert(self@.reverse =~= r.push((ip, name@)));
    }

    /// Gives `host` the address `ip` (see [`add_host`]).
    pub fn add(&mut self, host: &str, ip: IpAddress, zone: Option<&Name>)
        ensures
            final(self)@ == add_host(old(self)@, host@, ip, zone_view(zone)),
    {
        let star = crate::text::str_eq(host, "*");
        let dash = crate::text::str_eq(host, "-");
        let zero = crate::text::str_eq(host, "0");
        proof {
            reveal_strlit("*");
            reveal_strlit("-");
            reveal_strlit("0");
            assert("*"@ =~= seq!['*']);
            assert("-"@ =~= seq!['-']);
            assert("0"@ =~= seq!['0']);
        }
        if star || dash || zero {
            return;
        }
        let name = match host_name(host) {
            Some(n) => n,
            None => return,
        };
        let full = canonical_name(&name, zone);
        let k1 = lower_name(&name);
        let k2 = lower_name(&full);
        self.forward_insert(k1, ip);
        self.forward_insert(k2, ip);
        self.reverse_insert(ip, full);
    }
}

/// A first match within a prefix is the first match.
proof fn lemma_find_forward_prefix(f: Seq<(Seq<Seq<u8>>, Seq<IpAddress>)>, n: int)
    requires
        0 <= n <= f.len(),
        find_forward(f.take(n), f[n - 1].0) == Some(n - 1),
    ensures
        find_forward(f, f[n - 1].0) == Some(n - 1),
    decreases f.len() - n,
{
    if n < f.len() {
        assert(f.take(n + 1).drop_last() =~= f.take(n));
        assert(f.take(n + 1)[n - 1] == f[n - 1]);
        lemma_find_forward_prefix_step(f, n, f[n - 1].0);
    } else {
        assert(f.take(n) =~= f);
    }
}

proof fn lemma_find_forward_prefix_step(f: Seq<(Seq<Seq<u8>>, Seq<IpAddress>)>, n: int, k: Seq<Seq<u8>>)
    requires
        0 < n <= f.len(),
        find_forward(f.take(n), k) is Some,
    ensures
        find_forward(f, k) == find_forward(f.take(n), k),
    decreases f.len() - n,
{
    if n < f.len() {
        assert(f.take(n + 1).drop_last() =~= f.take(n));
        lemma_find_forward_prefix_step(f, n + 1, k);
    } else {
        assert(f.take(n) =~= f);
    }
}

proof fn lemma_find_forward_range(f: Seq<(Seq<Seq<u8>>, Seq<IpAddress>)>, k: Seq<Seq<u8>>)
    ensures
        find_forward(f, k) matches Some(j) ==> 0 <= j < f.len(),
    decreases f.len(),
{
    if f.len() > 0 {
        lemma_find_forward_range(f.drop_last(), k);
    }
}

proof fn lemma_find_forward_key(f: Seq<(Seq<Seq<u8>>, Seq<IpAddress>)>, k: Seq<Seq<u8>>)
    ensures
        find_forward(f, k) matches Some(j) ==> f[j].0 == k,
    decreases f.len(),
{
    if f.len() > 0 {
        lemma_find_forward_key(f.drop_last(), k);
        lemma_find_forward_range(f.drop_last(), k);
    }
}

proof fn lemma_find_reverse_prefix(r: Seq<(IpAddress, Seq<Seq<u8>>)>, n: int, ip: IpAddress)
    requires
        0 < n <= r.len(),
        find_reverse(r.take(n), ip) is Some,
    ensures
        find_reverse(r, ip) is Some,
    decreases r.len() - n,
{
    if n < r.len() {
        assert(r.take(n + 1).drop_last() =~= r.take(n));
        lemma_find_reverse_prefix(r, n + 1, ip);
    } else {
        assert(r.take(n) =~= r);
    }
}


// ---------------------------------------------------------------------------
// Lines of the lease file

/// The names after an address on a hosts line, up to a comment.
pub open spec fn host_pairs(ws: Seq<Seq<char>>, ip: IpAddress) -> Seq<(Seq<char>, IpAddress)>
    decreases ws.len(),
{
    if ws.len() == 0 || (ws[0].len() > 0 && ws[0][0] == '#') {
        Seq::empty()
    } else {
        seq![(ws[0], ip)] + host_pairs(ws.drop_first(), ip)
    }
}

/// The address before a `/` of each token that has one, for `host`.
pub open spec fn address_pairs(toks: Seq<Seq<char>>, host: Seq<char>) -> Seq<(Seq<char>, IpAddress)>
    decreases toks.len(),
{
    if toks.len() == 0 {
        Seq::empty()
    } else {
        let rest = address_pairs(toks.drop_first(), host);
        match ip_value(split_on(toks[0], '/')[0]) {
            Some(ip) => seq![(host, ip)] + rest,
            None => rest,
        }
    }
}

/// An odhcpd lease: the host is the fourth field, the addresses follow the
/// seventh.
pub open spec fn lease_pairs(w: Seq<Seq<char>>) -> Seq<(Seq<char>, IpAddress)> {
    if w.len() >= 8 {
        address_pairs(w.skip(7), w[3])
    } else {
        Seq::empty()
    }
}

/// The hosts and addresses a trimmed line names: `# ` starts a lease; a
/// line starting with an address is a hosts line; a line of eight or more
/// fields otherwise is read as a lease; any other `#` line is a comment.
pub open spec fn line_pairs(t: Seq<char>) -> Seq<(Seq<char>, IpAddress)> {
    if t.len() > 0 && t[0] == '#' {
        let rest = t.drop_first();
        if rest.len() > 0 && is_ws(rest[0]) {
            lease_pairs(words_of(rest))
        } else {
            Seq::empty()
        }
    } else {
        let w = words_of(t);
        if w.len() == 0 {
            Seq::empty()
        } else {
            match ip_value(w[0]) {
                Some(ip) => host_pairs(w.drop_first(), ip),
                None => lease_pairs(w),
            }
        }
    }
}

/// The records after giving each host its address, in order.
pub open spec fn add_pairs(r: RecordsV, ps: Seq<(Seq<char>, IpAddress)>, zone: Option<Seq<Seq<u8>>>) -> RecordsV
    decreases ps.len(),
{
    if ps.len() == 0 {
        r
    } else {
        add_host(add_pairs(r, ps.drop_last(), zone), ps.last().0, ps.last().1, zone)
    }
}

pub open spec fn no_records() -> RecordsV {
    RecordsV { forward: Seq::empty(), reverse: Seq::empty() }
}

/// The records of the lines of a lease file.
pub open spec fn records_of_lines(ls: Seq<Seq<char>>, zone: Option<Seq<Seq<u8>>>) -> RecordsV
    decreases ls.len(),
{
    if ls.len() == 0 {
        no_records()
    } else {
        add_pairs(records_of_lines(ls.drop_last(), zone), line_pairs(trimmed(ls.last())), zone)
    }
}

pub open spec fn pairs_view(v: Seq<(String, IpAddress)>) -> Seq<(Seq<char>, IpAddress)> {
    v.map_values(|p: (String, IpAddress)| (p.0@, p.1))
}

fn string_views(v: &Vec<String>) -> (r: Ghost<Seq<Seq<char>>>)
    ensures
        r@ == v@.map_values(|s: String| s@),
{
    Ghost(v@.map_values(|s: String| s@))
}

/// The names on a hosts line (see [`host_pairs`]).
fn hosts_of(ws: &Vec<String>, ip: IpAddress) -> (r: Vec<(String, IpAddress)>)
    requires
        ws@.len() >= 1,
    ensures
        pairs_view(r@) == host_pairs(ws@.map_values(|s: String| s@).drop_first(), ip),
{
    let Ghost(w) = string_views(ws);
    let mut out: Vec<(String, IpAddress)> = Vec::new();
    let mut i: usize = 1;
    assert(w.drop_first() =~= w.skip(1));
    assert(pairs_view(out@) + host_pairs(w.skip(1), ip) =~= host_pairs(w.skip(1), ip));
    while i < ws.len()
        invariant
            w == ws@.map_values(|s: String| s@),
            1 <= i <= ws@.len(),
            pairs_view(out@) + host_pairs(w.skip(i as int), ip) == host_pairs(w.skip(1), ip),
        decreases ws.len() - i,
    {
        let word = ws[i].as_str();
        assert(w.skip(i as int)[0] == word@);
        assert(w.skip(i as int).drop_first() =~= w.skip(i + 1));
        if word.unicode_len() > 0 && word.get_char(0) == '#' {
            assert(pairs_view(out@) + host_pairs(w.skip(i as int), ip) =~= pairs_view(out@));
            return out;
        }
        let ghost before = pairs_view(out@);
        out.push((ws[i].clone(), ip));
        assert(pairs_view(out@) =~= before.push((word@, ip)));
        assert(pairs_view(out@) + host_pairs(w.skip(i + 1), ip) =~= before + host_pairs(w.skip(i as int), ip));
        i = i + 1;
    }
    assert(w.skip(i as int) =~= Seq::<Seq<char>>::empty());
    assert(pairs_view(out@) + host_pairs(w.skip(i as int), ip) =~= pairs_view(out@));
    out
}

/// The addresses of a lease (see [`lease_pairs`]).
fn lease_of(ws: &Vec<String>) -> (r: Vec<(String, IpAddress)>)
    ensures
        pairs_view(r@) == lease_pairs(ws@.map_values(|s: String| s@)),
{
    let Ghost(w) = string_views(ws);
    let mut out: Vec<(String, IpAddress)> = Vec::new();
    if ws.len() < 8 {
        assert(pairs_view(out@) =~= Seq::<(Seq<char>, IpAddress)>::empty());
        return out;
    }
    let host = &ws[3];
    let mut i: usize = 7;
    assert(pairs_view(out@) + address_pairs(w.skip(7), w[3]) =~= address_pairs(w.skip(7), w[3]));
    while i < ws.len()
        invariant
            w == ws@.map_values(|s: String| s@),
            7 <= i <= ws@.len(),
            host@ == w[3],
            pairs_view(out@) + address_pairs(w.skip(i as int), w[3]) == address_pairs(w.skip(7), w[3]),
        decreases ws.len() - i,
    {
        let tok = ws[i].as_str();
        assert(w.skip(i as int)[0] == tok@);
        assert(w.skip(i as int).drop_first() =~= w.skip(i + 1));
        let parts = split_pieces(tok, '/');
        proof {
            crate::client_rule::lemma_pieces_len(tok@, '/', tok@.len() as int);
        }
        let ghost before = pairs_view(out@);
        match parse_ip(parts[0].as_str()) {
            Some(ip) => {
                out.push((host.clone(), ip));
                assert(pairs_view(out@) =~= before.push((w[3], ip)));
                assert(pairs_view(out@) + address_pairs(w.skip(i + 1), w[3]) =~= before + address_pairs(
                    w.skip(i as int), w[3]));
            },
            None => {},
        }
        i = i + 1;
    }
    assert(w.skip(i as int) =~= Seq::<Seq<char>>::empty());
    assert(pairs_view(out@) + address_pairs(w.skip(i as int), w[3]) =~= pairs_view(out@));
    out
}

/// The hosts and addresses of a trimmed line (see [`line_pairs`]).
pub fn line_pairs_of(t: &str) -> (r: Vec<(String, IpAddress)>)
    ensures
        pairs_view(r@) == line_pairs(t@),
{
    let n = t.unicode_len();
    if n > 0 && t.get_char(0) == '#' {
        let rest = t.substring_char(1, n);
        assert(rest@ =~= t@.drop_first());
        if n > 1 && ws(rest.get_char(0)) {
            let w = words(rest);
            assert(w@.map_values(|s: String| s@) =~= words_of(rest@));
            lease_of(&w)
        } else {
            let out: Vec<(String, IpAddress)> = Vec::new();
            assert(pairs_view(out@) =~= Seq::<(Seq<char>, IpAddress)>::empty());
            out
        }
    } else {
        let w = words(t);
        assert(w@.map_values(|s: String| s@) =~= words_of(t@));
        if w.len() == 0 {
            let out: Vec<(String, IpAddress)> = Vec::new();
            assert(pairs_view(out@) =~= Seq::<(Seq<char>, IpAddress)>::empty());
            return out;
        }
        match parse_ip(w[0].as_str()) {
            Some(ip) => hosts_of(&w, ip),
            None => lease_of(&w),
        }
    }
}

impl LeaseRecords {
    /// The records of a lease file: each line's hosts get their addresses,
    /// line by line (see [`records_of_lines`]).
    pub fn parse(text: &str, zone: Option<&Name>) -> (r: LeaseRecords)
        ensures
            r@ == records_of_lines(text_lines(text@), zone_view(zone)),
    {
        let lines = lines_of(text);
        let ghost ls = text_lines(text@);
        let mut records = LeaseRecords::new();
        let mut i: usize = 0;
        assert(records@.forward =~= no_records().forward);
        assert(records@.reverse =~= no_records().reverse);
        while i < lines.len()
            invariant
                lines@.len() == ls.len(),
                forall|k: int| 0 <= k < lines@.len() ==> (#[trigger] lines@[k])@ == ls[k],
                i <= lines@.len(),
                records@ == records_of_lines(ls.take(i as int), zone_view(zone)),
            decreases lines.len() - i,
        {
            let t = trim_ws(lines[i].as_str());
            let pairs = line_pairs_of(t.as_str());
            let ghost ps = pairs_view(pairs@);
            let ghost start = records@;
            let mut j: usize = 0;
            assert(ps.take(0) =~= Seq::<(Seq<char>, IpAddress)>::empty());
            while j < pairs.len()
                invariant
                    ps == pairs_view(pairs@),
                    j <= pairs@.len(),
                    records@ == add_pairs(start, ps.take(j as int), zone_view(zone)),
                decreases pairs.len() - j,
            {
                assert(ps.take(j + 1).drop_last() =~= ps.take(j as int));
                records.add(pairs[j].0.as_str(), pairs[j].1, zone);
                j = j + 1;
            }
            assert(ps.take(j as int) =~= ps);
            assert(ls.take(i + 1).drop_last() =~= ls.take(i as int));
            i = i + 1;
        }
        assert(ls.take(i as int) =~= ls);
        records
    }
}


// ---------------------------------------------------------------------------
// Answers

/// The addresses of the asked family as record data.
pub open spec fn family_data(ips: Seq<IpAddress>, t: RecordType) -> Seq<RDataV>
    decreases ips.len(),
{
    if ips.len() == 0 {
        Seq::empty()
    } else {
        let rest = family_data(ips.drop_last(), t);
        match (t, ips.last()) {
            (RecordType::A, IpAddress::V4(a)) => rest.push(RDataV::A(a)),
            (RecordType::AAAA, IpAddress::V6(a)) => rest.push(RDataV::AAAA(a)),
            _ => rest,
        }
    }
}

/// A decimal label of a reverse name: one to three digits, no leading
/// zero, at most 255.
pub open spec fn dec_label(l: Seq<u8>) -> Option<u8> {
    if 1 <= l.len() <= 3 && all_digits(l) && !(l.len() > 1 && l[0] == 48u8) && digits_value(l) <= 255 {
        Some(digits_value(l) as u8)
    } else {
        None
    }
}

/// A hexadecimal digit label (lower case) of a reverse name.
pub open spec fn nibble(l: Seq<u8>) -> Option<u8> {
    if l.len() == 1 && 48 <= l[0] <= 57 {
        Some((l[0] - 48) as u8)
    } else if l.len() == 1 && 97 <= l[0] <= 102 {
        Some((l[0] - 87) as u8)
    } else {
        None
    }
}

pub open spec fn in_addr_label() -> Seq<u8> {
    seq![105u8, 110u8, 45u8, 97u8, 100u8, 100u8, 114u8]
}

pub open spec fn arpa_label() -> Seq<u8> {
    seq![97u8, 114u8, 112u8, 97u8]
}

pub open spec fn ip6_label() -> Seq<u8> {
    seq![105u8, 112u8, 54u8]
}

pub open spec fn all_nibbles(k: Seq<Seq<u8>>) -> bool {
    forall|i: int| 0 <= i < 32 ==> #[trigger] nibble(k[i]) is Some
}

/// The bytes an ip6.arpa name writes, lowest nibble first.
pub open spec fn nibble_bytes(k: Seq<Seq<u8>>) -> Seq<u8> {
    Seq::new(16, |b: int| (nibble(k[31 - 2 * b])->0 * 16 + nibble(k[30 - 2 * b])->0) as u8)
}

/// The address of a reverse name (labels in lower case): `d.c.b.a.in-addr.arpa`
/// or thirty-two nibbles and `ip6.arpa`.
pub open spec fn ptr_from_key(k: Seq<Seq<u8>>) -> Option<IpAddress> {
    if k.len() == 6 && k[4] == in_addr_label() && k[5] == arpa_label() && dec_label(k[0]) is Some
        && dec_label(k[1]) is Some && dec_label(k[2]) is Some && dec_label(k[3]) is Some {
        Some(IpAddress::V4(crate::decode::arr4(
            seq![dec_label(k[3])->0, dec_label(k[2])->0, dec_label(k[1])->0, dec_label(k[0])->0],
        )))
    } else if k.len() == 34 && k[32] == ip6_label() && k[33] == arpa_label() && all_nibbles(k) {
        Some(IpAddress::V6(crate::decode::arr16(nibble_bytes(k))))
    } else {
        None
    }
}

/// What the records answer for a question: the host name of a reverse
/// name's address for PTR, else the addresses of the name of the asked
/// family.
pub open spec fn spec_lookup(r: RecordsV, n: Seq<Seq<u8>>, t: RecordType) -> Seq<RDataV> {
    match t {
        RecordType::PTR => match ptr_from_key(name_key(n)) {
            Some(ip) => match find_reverse(r.reverse, ip) {
                Some(j) => if labels_ok(r.reverse[j].1) {
                    seq![RDataV::Other(12, enc_name(r.reverse[j].1))]
                } else {
                    Seq::empty()
                },
                None => Seq::empty(),
            },
            None => Seq::empty(),
        },
        _ => match find_forward(r.forward, name_key(n)) {
            Some(j) => family_data(r.forward[j].1, t),
            None => Seq::empty(),
        },
    }
}

pub open spec fn data_views(v: Seq<RData>) -> Seq<RDataV> {
    v.map_values(|d: RData| d@)
}

fn dec_label_of(l: &Vec<u8>) -> (r: Option<u8>)
    ensures
        r == dec_label(l@),
{
    let n = l.len();
    if n < 1 || n > 3 || (n > 1 && l[0] == 48) {
        return None;
    }
    let mut v: u32 = 0;
    let mut i: usize = 0;
    while i < n
        invariant
            n == l@.len(),
            1 <= n <= 3,
            i <= n,
            all_digits(l@.take(i as int)),
            v == digits_value(l@.take(i as int)),
            v < 1000,
            i <= 1 ==> v < 10,
            i <= 2 ==> v < 100,
        decreases n - i,
    {
        let c = l[i];
        if c < 48 || c > 57 {
            assert(!all_digits(l@));
            return None;
        }
        assert(l@.take(i + 1).drop_last() =~= l@.take(i as int));
        v = v * 10 + (c - 48) as u32;
        i = i + 1;
        assert forall|k: int| 0 <= k < i implies 48 <= #[trigger] l@.take(i as int)[k] <= 57 by {
            if k < i - 1 {
                assert(l@.take(i as int)[k] == l@.take(i - 1)[k]);
            }
        }
    }
    assert(l@.take(n as int) =~= l@);
    if v > 255 {
        None
    } else {
        Some(v as u8)
    }
}

fn nibble_of(l: &Vec<u8>) -> (r: Option<u8>)
    ensures
        r == nibble(l@),
{
    if l.len() != 1 {
        return None;
    }
    let c = l[0];
    if 48 <= c && c <= 57 {
        Some(c - 48)
    } else if 97 <= c && c <= 102 {
        Some(c - 87)
    } else {
        None
    }
}

/// The address of a reverse name given by its lower-case labels.
fn ptr_of(key: &Vec<Vec<u8>>) -> (r: Option<IpAddress>)
    ensures
        r == ptr_from_key(label_seqs(key@)),
{
    let ghost k = label_seqs(key@);
    let n = key.len();
    assert(k.len() == n);
    let in_addr: [u8; 7] = [105, 110, 45, 97, 100, 100, 114];
    let arpa: [u8; 4] = [97, 114, 112, 97];
    let ip6: [u8; 3] = [105, 112, 54];
    assert(in_addr@ =~= in_addr_label());
    assert(arpa@ =~= arpa_label());
    assert(ip6@ =~= ip6_label());
    if n == 6 {
        assert(k[4] == key@[4]@ && k[5] == key@[5]@);
        if !bytes_same(key[4].as_slice(), &in_addr) || !bytes_same(key[5].as_slice(), &arpa) {
            return None;
        }
        assert(k[0] == key@[0]@ && k[1] == key@[1]@ && k[2] == key@[2]@ && k[3] == key@[3]@);
        let a = match dec_label_of(&key[3]) {
            Some(x) => x,
            None => return None,
        };
        let b = match dec_label_of(&key[2]) {
            Some(x) => x,
            None => return None,
        };
        let c = match dec_label_of(&key[1]) {
            Some(x) => x,
            None => return None,
        };
        let d = match dec_label_of(&key[0]) {
            Some(x) => x,
            None => return None,
        };
        let arr: [u8; 4] = [a, b, c, d];
        proof {
            let e = crate::decode::arr4(seq![a, b, c, d]);
            assert(arr@ =~= seq![a, b, c, d]);
            assert(e@ == arr@);
            assert(e =~= arr);
        }
        return Some(IpAddress::V4(arr));
    }
    if n != 34 {
        return None;
    }
    assert(k[32] == key@[32]@ && k[33] == key@[33]@);
    if !bytes_same(key[32].as_slice(), &ip6) || !bytes_same(key[33].as_slice(), &arpa) {
        return None;
    }
    let mut i: usize = 0;
    while i < 32
        invariant
            key@.len() == 34,
            k == label_seqs(key@),
            i <= 32,
            forall|j: int| 0 <= j < i ==> #[trigger] nibble(k[j]) is Some,
        decreases 32 - i,
    {
        assert(k[i as int] == key@[i as int]@);
        if nibble_of(&key[i]).is_none() {
            assert(!all_nibbles(k));
            return None;
        }
        i = i + 1;
    }
    assert(all_nibbles(k));
    let mut out: Vec<u8> = Vec::new();
    let mut b: usize = 0;
    while b < 16
        invariant
            key@.len() == 34,
            k == label_seqs(key@),
            all_nibbles(k),
            b <= 16,
            out@ == nibble_bytes(k).take(b as int),
        decreases 16 - b,
    {
        assert(k[31 - 2 * b] == key@[31 - 2 * b]@);
        assert(k[30 - 2 * b] == key@[30 - 2 * b]@);
        assert(nibble(k[31 - 2 * b]) is Some);
        assert(nibble(k[30 - 2 * b]) is Some);
        let hi = nibble_of(&key[31 - 2 * b]).unwrap();
        let lo = nibble_of(&key[30 - 2 * b]).unwrap();
        out.push(hi * 16 + lo);
        b = b + 1;
        assert(out@ =~= nibble_bytes(k).take(b as int));
    }
    assert(out@ =~= nibble_bytes(k));
    let arr = array16(&out);
    proof {
        let e = crate::decode::arr16(nibble_bytes(k));
        assert(e@ == arr@);
        assert(e =~= arr);
    }
    Some(IpAddress::V6(arr))
}

fn family_of(ips: &Vec<IpAddress>, t: RecordType) -> (r: Vec<RData>)
    ensures
        data_views(r@) == family_data(ips@, t),
{
    let mut out: Vec<RData> = Vec::new();
    let mut i: usize = 0;
    while i < ips.len()
        invariant
            i <= ips@.len(),
            data_views(out@) == family_data(ips@.take(i as int), t),
        decreases ips.len() - i,
    {
        assert(ips@.take(i + 1).drop_last() =~= ips@.take(i as int));
        let ghost before = data_views(out@);
        match (t, ips[i]) {
            (RecordType::A, IpAddress::V4(a)) => {
                out.push(RData::A(a));
                assert(data_views(out@) =~= before.push(RDataV::A(a)));
            },
            (RecordType::AAAA, IpAddress::V6(a)) => {
                out.push(RData::AAAA(a));
                assert(data_views(out@) =~= before.push(RDataV::AAAA(a)));
            },
            _ => {},
        }
        i = i + 1;
    }
    assert(ips@.take(i as int) =~= ips@);
    out
}

impl LeaseRecords {
    /// What the records answer for `name` and type `t` (see [`spec_lookup`]).
    pub fn lookup(&self, name: &Name, t: RecordType) -> (r: Vec<RData>)
        ensures
            data_views(r@) == spec_lookup(self@, name@, t),
    {
        let key = lower_name(name);
        let mut out: Vec<RData> = Vec::new();
        match t {
            RecordType::PTR => {
                let ip = match ptr_of(&key) {
                    Some(ip) => ip,
                    None => {
                        assert(data_views(out@) =~= Seq::<RDataV>::empty());
                        return out;
                    },
                };
                let ghost r = self@.reverse;
                let mut i: usize = 0;
                while i < self.reverse.len()
                    invariant
                        out@.len() == 0,
                        t == RecordType::PTR,
                        label_seqs(key@) == name_key(name@),
                        ptr_from_key(name_key(name@)) == Some(ip),
                        r == self@.reverse,
                        r == reverse_views(self.reverse@),
                        i <= r.len(),
                        find_reverse(r.take(i as int), ip) is None,
                    decreases self.reverse.len() - i,
                {
                    assert(r.take(i + 1).drop_last() =~= r.take(i as int));
                    assert(r.take(i + 1).last() == r[i as int]);
                    if self.reverse[i].0.same(&ip) {
                        proof {
                            lemma_find_reverse_exact(r, i as int, ip);
                        }
                        let host = &self.reverse[i].1;
                        if crate::codec::name_ok(host) {
                            let mut bytes: Vec<u8> = Vec::new();
                            crate::codec::emit_name(&mut bytes, host);
                            assert(bytes@ =~= enc_name(host@));
                            out.push(RData::Other(12, bytes));
                            assert(data_views(out@) =~= seq![RDataV::Other(12, enc_name(r[i as int].1))]);
                        } else {
                            assert(data_views(out@) =~= Seq::<RDataV>::empty());
                        }
                        assert(data_views(out@) =~= spec_lookup(self@, name@, t));
                        return out;
                    }
                    i = i + 1;
                }
                assert(r.take(i as int) =~= r);
                assert(data_views(out@) =~= Seq::<RDataV>::empty());
                out
            },
            _ => {
                match self.forward_index(&key) {
                    Some(j) => {
                        assert(self@.forward[j as int].1 == self.forward@[j as int].1@);
                        family_of(&self.forward[j].1, t)
                    },
                    None => {
                        assert(data_views(out@) =~= Seq::<RDataV>::empty());
                        out
                    },
                }
            },
        }
    }
}

/// A first match at `i` after none before it is the first match.
proof fn lemma_find_reverse_exact(r: Seq<(IpAddress, Seq<Seq<u8>>)>, i: int, ip: IpAddress)
    requires
        0 <= i < r.len(),
        find_reverse(r.take(i), ip) is None,
        r[i].0 == ip,
    ensures
        find_reverse(r, ip) == Some(i),
    decreases r.len() - i,
{
    assert(r.take(i + 1).drop_last() =~= r.take(i));
    assert(r.take(i + 1).last() == r[i]);
    lemma_find_reverse_keep(r, i + 1, ip);
}

proof fn lemma_find_reverse_keep(r: Seq<(IpAddress, Seq<Seq<u8>>)>, n: int, ip: IpAddress)
    requires
        0 < n <= r.len(),
        find_reverse(r.take(n), ip) is Some,
    ensures
        find_reverse(r, ip) == find_reverse(r.take(n), ip),
    decreases r.len() - n,
{
    if n < r.len() {
        assert(r.take(n + 1).drop_last() =~= r.take(n));
        lemma_find_reverse_keep(r, n + 1, ip);
    } else {
        assert(r.take(n) =~= r);
    }
}

/// The records answering `query` with `data`, each for the query name.
pub open spec fn lease_records(n: Seq<Seq<u8>>, ttl: u32, ds: Seq<RDataV>) -> Seq<crate::message::RecordV> {
    ds.map_values(|d: RDataV| crate::message::RecordV { name: n, dns_class: 1, ttl, data: d })
}

/// The answer from the lease records, if they have one for the question:
/// its records carry the local TTL.
pub fn lease_answer(records: &LeaseRecords, query: &Query, ttl: u32) -> (r: Option<DnsResponse>)
    ensures
        spec_lookup(records@, query@.name, query@.query_type).len() == 0 <==> r is None,
        r matches Some(res) ==> res.spec_message() == answer_message(
            query@,
            lease_records(query@.name, ttl, spec_lookup(records@, query@.name, query@.query_type)),
        ),
{
    let data = records.lookup(&query.name, query.query_type);
    if data.len() == 0 {
        return None;
    }
    let ghost ds = data_views(data@);
    let mut out: Vec<Record> = Vec::new();
    let mut i: usize = 0;
    while i < data.len()
        invariant
            i <= data@.len(),
            ds == data_views(data@),
            crate::message::record_views(out@) == lease_records(query@.name, ttl, ds.take(i as int)),
        decreases data.len() - i,
    {
        let d = data[i].clone();
        assert(d@ == ds[i as int]);
        let rec = Record::from_rdata(query.name.clone(), ttl, d);
        let ghost before = crate::message::record_views(out@);
        out.push(rec);
        assert(ds.take(i + 1) =~= ds.take(i as int).push(ds[i as int]));
        let ghost rv = crate::message::RecordV { name: query@.name, dns_class: 1, ttl, data: ds[i as int] };
        assert(crate::message::record_views(out@) =~= before.push(rv));
        assert(lease_records(query@.name, ttl, ds.take(i + 1)) =~= lease_records(query@.name, ttl, ds.take(i as int)).push(rv));
        assert(crate::message::record_views(out@) =~= lease_records(query@.name, ttl, ds.take(i + 1)));
        i = i + 1;
    }
    assert(ds.take(i as int) =~= ds);
    Some(DnsResponse::new_with_max_ttl(query.clone(), out))
}

} // verus!
