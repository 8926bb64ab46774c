//! Addresses written as text: dotted IPv4 (`192.0.2.1`) and IPv6 groups
//! (`2001:db8::1`, `::ffff:192.0.2.1`), read as the standard library reads
//! them.
use vstd::prelude::*;
use crate::client_rule::{split_on, split_pieces};
use crate::net::IpAddress;

verus! {

/// The value of a decimal digit.
pub open spec fn dec_digit(c: char) -> Option<nat> {
    if '0' <= c && c <= '9' {
        Some((c as nat - '0' as nat) as nat)
    } else {
        None
    }
}

/// The value of a hexadecimal digit (either case).
pub open spec fn hex_digit(c: char) -> Option<nat> {
    if '0' <= c && c <= '9' {
        Some((c as nat - '0' as nat) as nat)
    } else if 'a' <= c && c <= 'f' {
        Some((c as nat - 'a' as nat + 10) as nat)
    } else if 'A' <= c && c <= 'F' {
        Some((c as nat - 'A' as nat + 10) as nat)
    } else {
        None
    }
}

pub open spec fn all_dec(s: Seq<char>) -> bool {
    forall|i: int| 0 <= i < s.len() ==> #[trigger] dec_digit(s[i]) is Some
}

pub open spec fn all_hex(s: Seq<char>) -> bool {
    forall|i: int| 0 <= i < s.len() ==> #[trigger] hex_digit(s[i]) is Some
}

/// The number the digits of `s` write in `base`.
pub open spec fn digits_in(s: Seq<char>, base: nat) -> nat
    decreases s.len(),
{
    if s.len() == 0 {
        0
    } else {
        let d = if base == 10 { dec_digit(s.last()) } else { hex_digit(s.last()) };
        digits_in(s.drop_last(), base) * base + match d {
            Some(v) => v,
            None => 0,
        }
    }
}

/// A part of a dotted address: one to three digits, without a leading zero
/// unless it is `0`, at most 255.
pub open spec fn octet_value(s: Seq<char>) -> Option<u8> {
    if 1 <= s.len() <= 3 && all_dec(s) && !(s.len() > 1 && s[0] == '0') && digits_in(s, 10) <= 255 {
        Some(digits_in(s, 10) as u8)
    } else {
        None
    }
}

/// The four bytes of a dotted IPv4 address.
pub open spec fn ipv4_value(s: Seq<char>) -> Option<Seq<u8>> {
    let p = split_on(s, '.');
    if p.len() == 4 && octet_value(p[0]) is Some && octet_value(p[1]) is Some && octet_value(p[2]) is Some
        && octet_value(p[3]) is Some {
        Some(seq![octet_value(p[0])->0, octet_value(p[1])->0, octet_value(p[2])->0, octet_value(p[3])->0])
    } else {
        None
    }
}

/// The two bytes of a group: one to four hexadecimal digits.
pub open spec fn group_value(g: Seq<char>) -> Option<Seq<u8>> {
    if 1 <= g.len() <= 4 && all_hex(g) {
        Some(seq![(digits_in(g, 16) / 256) as u8, (digits_in(g, 16) % 256) as u8])
    } else {
        None
    }
}

/// The bytes of groups, each of them hexadecimal.
pub open spec fn hex_groups(gs: Seq<Seq<char>>) -> Option<Seq<u8>>
    decreases gs.len(),
{
    if gs.len() == 0 {
        Some(Seq::empty())
    } else {
        match (hex_groups(gs.drop_last()), group_value(gs.last())) {
            (Some(a), Some(b)) => Some(a + b),
            _ => None,
        }
    }
}

/// The bytes of colon-separated groups: the last may be a dotted IPv4
/// address (a group with a dot must be one).
pub open spec fn groups_value(gs: Seq<Seq<char>>) -> Option<Seq<u8>> {
    if gs.len() == 0 {
        Some(Seq::empty())
    } else {
        let last = if gs.last().contains('.') { ipv4_value(gs.last()) } else { group_value(gs.last()) };
        match (hex_groups(gs.drop_last()), last) {
            (Some(a), Some(b)) => Some(a + b),
            _ => None,
        }
    }
}

/// The bytes of one side of `::`: nothing for no text, else its groups.
pub open spec fn side_value(t: Seq<char>) -> Option<Seq<u8>> {
    if t.len() == 0 {
        Some(Seq::empty())
    } else {
        groups_value(split_on(t, ':'))
    }
}

/// Whether a `::` starts at `p`.
pub open spec fn colon_pair(s: Seq<char>, p: int) -> bool {
    0 <= p < s.len() - 1 && s[p] == ':' && s[p + 1] == ':'
}

/// Where the first `::` at or after `from` starts, if anywhere.
pub open spec fn colon_pair_from(s: Seq<char>, from: int) -> Option<int>
    decreases s.len() - from,
{
    if from < 0 || from >= s.len() - 1 {
        None
    } else if colon_pair(s, from) {
        Some(from)
    } else {
        colon_pair_from(s, from + 1)
    }
}

/// Where the first `::` starts, if anywhere.
pub open spec fn double_colon(s: Seq<char>) -> Option<int> {
    colon_pair_from(s, 0)
}

/// The sixteen bytes of an IPv6 address: eight groups, or groups on either
/// side of a `::` that stands for at least one group of zeros.
pub open spec fn ipv6_value(s: Seq<char>) -> Option<Seq<u8>> {
    match double_colon(s) {
        Some(p) => match (side_value(s.take(p)), side_value(s.skip(p + 2))) {
            (Some(h), Some(t)) => if h.len() + t.len() <= 14 {
                Some(h + Seq::new((16 - h.len() - t.len()) as nat, |i: int| 0u8) + t)
            } else {
                None
            },
            _ => None,
        },
        None => match groups_value(split_on(s, ':')) {
            Some(b) => if b.len() == 16 {
                Some(b)
            } else {
                None
            },
            None => None,
        },
    }
}

/// The address `s` writes: IPv4 if it is one, else IPv6.
pub open spec fn ip_value(s: Seq<char>) -> Option<IpAddress> {
    match ipv4_value(s) {
        Some(b) => Some(IpAddress::V4(crate::decode::arr4(b))),
        None => match ipv6_value(s) {
            Some(b) => Some(IpAddress::V6(crate::decode::arr16(b))),
            None => None,
        },
    }
}

fn digit_of(c: char, hex: bool) -> (r: Option<u32>)
    ensures
        r matches Some(v) ==> (if hex { hex_digit(c) } else { dec_digit(c) }) == Some(v as nat) && v < 16,
        r is None ==> (if hex { hex_digit(c) } else { dec_digit(c) }) is None,
{
    if '0' <= c && c <= '9' {
        Some(c as u32 - '0' as u32)
    } else if hex && 'a' <= c && c <= 'f' {
        Some(c as u32 - 'a' as u32 + 10)
    } else if hex && 'A' <= c && c <= 'F' {
        Some(c as u32 - 'A' as u32 + 10)
    } else {
        None
    }
}

/// The digits of `s` (at most four) in base 10 or 16, if all are digits.
fn small_number(s: &str, hex: bool) -> (r: Option<u32>)
    requires
        s@.len() <= 4,
    ensures
        r matches Some(v) ==> (if hex { all_hex(s@) } else { all_dec(s@) }) && v == digits_in(s@, if hex { 16 } else { 10 })
            && v < 65536,
        r is None ==> !(if hex { all_hex(s@) } else { all_dec(s@) }),
{
    let n = s.unicode_len();
    let base: u32 = if hex { 16 } else { 10 };
    let ghost b: nat = if hex { 16 } else { 10 };
    let mut v: u32 = 0;
    let mut i: usize = 0;
    while i < n
        invariant
            n == s@.len(),
            n <= 4,
            i <= n,
            base == b,
            b == (if hex { 16nat } else { 10nat }),
            if hex { all_hex(s@.take(i as int)) } else { all_dec(s@.take(i as int)) },
            v == digits_in(s@.take(i as int), b),
            v < pow_bound(i as nat),
        decreases n - i,
    {
        let c = s.get_char(i);
        match digit_of(c, hex) {
            Some(d) => {
                assert(s@.take(i + 1).drop_last() =~= s@.take(i as int));
                assert(s@.take(i + 1).last() == c);
                assert(v * base + d < pow_bound((i + 1) as nat)) by (nonlinear_arith)
                    requires
                        v < pow_bound(i as nat),
                        base <= 16,
                        d < base,
                        pow_bound((i + 1) as nat) == pow_bound(i as nat) * 16,
                ;
                assert(pow_bound((i + 1) as nat) <= 65536) by {
                    reveal_with_fuel(pow_bound, 5);
                }
                v = v * base + d;
                i = i + 1;
                proof {
                    if hex {
                        assert forall|k: int| 0 <= k < i implies #[trigger] hex_digit(s@.take(i as int)[k]) is Some by {
                            if k < i - 1 {
                                assert(s@.take(i as int)[k] == s@.take(i - 1)[k]);
                            }
                        }
                    } else {
                        assert forall|k: int| 0 <= k < i implies #[trigger] dec_digit(s@.take(i as int)[k]) is Some by {
                            if k < i - 1 {
                                assert(s@.take(i as int)[k] == s@.take(i - 1)[k]);
                            }
                        }
                    }
                }
            },
            None => {
                assert(s@[i as int] == c);
                return None;
            },
        }
    }
    assert(s@.take(n as int) =~= s@);
    assert(pow_bound(n as nat) <= 65536) by {
        reveal_with_fuel(pow_bound, 5);
    }
    Some(v)
}

/// Sixteen to the power of `n`.
pub open spec fn pow_bound(n: nat) -> nat
    decreases n,
{
    if n == 0 {
        1
    } else {
        pow_bound((n - 1) as nat) * 16
    }
}

/// A part of a dotted address.
fn octet_of(s: &str) -> (r: Option<u8>)
    ensures
        r == octet_value(s@),
{
    let n = s.unicode_len();
    if n < 1 || n > 3 {
        return None;
    }
    if n > 1 && s.get_char(0) == '0' {
        return None;
    }
    match small_number(s, false) {
        Some(v) => if v <= 255 {
            Some(v as u8)
        } else {
            None
        },
        None => None,
    }
}

/// Reads a dotted IPv4 address.
pub fn ipv4_of(s: &str) -> (r: Option<[u8; 4]>)
    ensures
        match ipv4_value(s@) {
            Some(b) => r matches Some(a) && a@ == b,
            None => r is None,
        },
{
    let parts = split_pieces(s, '.');
    if parts.len() != 4 {
        return None;
    }
    let a = match octet_of(parts[0].as_str()) {
        Some(x) => x,
        None => return None,
    };
    let b = match octet_of(parts[1].as_str()) {
        Some(x) => x,
        None => return None,
    };
    let c = match octet_of(parts[2].as_str()) {
        Some(x) => x,
        None => return None,
    };
    let d = match octet_of(parts[3].as_str()) {
        Some(x) => x,
        None => return None,
    };
    let r: [u8; 4] = [a, b, c, d];
    assert(r@ =~= seq![a, b, c, d]);
    Some(r)
}

/// The two bytes of a hexadecimal group.
fn group_of(g: &str) -> (r: Option<(u8, u8)>)
    ensures
        match group_value(g@) {
            Some(b) => r matches Some((x, y)) && b == seq![x, y],
            None => r is None,
        },
{
    let n = g.unicode_len();
    if n < 1 || n > 4 {
        return None;
    }
    match small_number(g, true) {
        Some(v) => Some(((v / 256) as u8, (v % 256) as u8)),
        None => None,
    }
}

fn has_dot(s: &str) -> (r: bool)
    ensures
        r == s@.contains('.'),
{
    crate::text::str_contains(s, '.')
}

/// The bytes of colon-separated groups (see [`groups_value`]).
fn groups_of(gs: &Vec<String>) -> (r: Option<Vec<u8>>)
    ensures
        match groups_value(gs@.map_values(|g: String| g@)) {
            Some(b) => r matches Some(v) && v@ == b,
            None => r is None,
        },
{
    let ghost views = gs@.map_values(|g: String| g@);
    let n = gs.len();
    if n == 0 {
        return Some(Vec::new());
    }
    let mut out: Vec<u8> = Vec::new();
    let mut i: usize = 0;
    assert(views.take(0) =~= Seq::<Seq<char>>::empty());
    while i < n - 1
        invariant
            n == gs@.len(),
            n >= 1,
            i <= n - 1,
            views == gs@.map_values(|g: String| g@),
            hex_groups(views.take(i as int)) == Some(out@),
        decreases n - 1 - i,
    {
        assert(views.take(i + 1).drop_last() =~= views.take(i as int));
        assert(views.take(i + 1).last() == gs@[i as int]@);
        match group_of(gs[i].as_str()) {
            Some((x, y)) => {
                out.push(x);
                out.push(y);
                i = i + 1;
                assert(out@ =~= hex_groups(views.take(i - 1))->0 + seq![x, y]);
            },
            None => {
                proof {
                    lemma_hex_groups_prefix(views.drop_last(), i as int + 1);
                    assert(views.drop_last().take(i + 1) =~= views.take(i + 1));
                }
                return None;
            },
        }
    }
    assert(views.take((n - 1) as int) =~= views.drop_last());
    let last = gs[n - 1].as_str();
    assert(views.last() == last@);
    if has_dot(last) {
        match ipv4_of(last) {
            Some(a) => {
                out.push(a[0]);
                out.push(a[1]);
                out.push(a[2]);
                out.push(a[3]);
                assert(out@ =~= hex_groups(views.drop_last())->0 + a@);
                Some(out)
            },
            None => None,
        }
    } else {
        match group_of(last) {
            Some((x, y)) => {
                out.push(x);
                out.push(y);
                assert(out@ =~= hex_groups(views.drop_last())->0 + seq![x, y]);
                Some(out)
            },
            None => None,
        }
    }
}

/// A bad group in the first `k` makes all groups bad.
proof fn lemma_hex_groups_prefix(gs: Seq<Seq<char>>, k: int)
    requires
        0 <= k <= gs.len(),
        hex_groups(gs.take(k)) is None,
    ensures
        hex_groups(gs) is None,
    decreases gs.len() - k,
{
    if k < gs.len() {
        assert(gs.take(k + 1).drop_last() =~= gs.take(k));
        lemma_hex_groups_prefix(gs, k + 1);
    } else {
        assert(gs.take(k) =~= gs);
    }
}

/// The bytes of one side of `::`.
fn side_of(t: &str) -> (r: Option<Vec<u8>>)
    ensures
        match side_value(t@) {
            Some(b) => r matches Some(v) && v@ == b,
            None => r is None,
        },
{
    if t.unicode_len() == 0 {
        return Some(Vec::new());
    }
    let gs = split_pieces(t, ':');
    assert(gs@.map_values(|g: String| g@) =~= split_on(t@, ':'));
    groups_of(&gs)
}

/// Where the first `::` starts.
fn find_double_colon(s: &str) -> (r: Option<usize>)
    ensures
        match double_colon(s@) {
            Some(p) => r == Some(p as usize) && colon_pair(s@, p),
            None => r is None,
        },
{
    let n = s.unicode_len();
    let mut i: usize = 0;
    while n > 0 && i < n - 1
        invariant
            n == s@.len(),
            i <= n,
            double_colon(s@) == colon_pair_from(s@, i as int),
        decreases n - i,
    {
        if s.get_char(i) == ':' && s.get_char(i + 1) == ':' {
            assert(colon_pair(s@, i as int));
            return Some(i);
        }
        i = i + 1;
    }
    None
}

/// `h`, then zeros, then `t`: sixteen bytes.
fn fill_between(h: Vec<u8>, t: &Vec<u8>) -> (r: Vec<u8>)
    requires
        h@.len() + t@.len() <= 14,
    ensures
        r@ == h@ + Seq::new((16 - h@.len() - t@.len()) as nat, |i: int| 0u8) + t@,
{
    let mut out = h;
    let zeros = 16 - out.len() - t.len();
    let ghost hv = out@;
    let mut k: usize = 0;
    while k < zeros
        invariant
            k <= zeros,
            out@ == hv + Seq::new(k as nat, |i: int| 0u8),
        decreases zeros - k,
    {
        out.push(0);
        k = k + 1;
        assert(out@ =~= hv + Seq::new(k as nat, |i: int| 0u8));
    }
    crate::octets::extend_bytes(&mut out, t.as_slice());
    out
}

/// The bytes of an IPv6 address.
fn ipv6_bytes(s: &str) -> (r: Option<Vec<u8>>)
    ensures
        match ipv6_value(s@) {
            Some(b) => r matches Some(v) && v@ == b,
            None => r is None,
        },
{
    match find_double_colon(s) {
        Some(p) => {
            let n = s.unicode_len();
            assert(p + 2 <= n);
            let head = s.substring_char(0, p);
            let tail = s.substring_char(p + 2, n);
            assert(head@ =~= s@.take(p as int));
            assert(tail@ =~= s@.skip(p + 2));
            let h = match side_of(head) {
                Some(h) => h,
                None => return None,
            };
            let t = match side_of(tail) {
                Some(t) => t,
                None => return None,
            };
            if h.len() > 14 || t.len() > 14 - h.len() {
                return None;
            }
            Some(fill_between(h, &t))
        },
        None => {
            let gs = split_pieces(s, ':');
            assert(gs@.map_values(|g: String| g@) =~= split_on(s@, ':'));
            match groups_of(&gs) {
                Some(b) => if b.len() == 16 {
                    Some(b)
                } else {
                    None
                },
                None => None,
            }
        },
    }
}

/// The array of sixteen bytes.
pub fn array16(b: &Vec<u8>) -> (a: [u8; 16])
    requires
        b@.len() == 16,
    ensures
        a@ == b@,
{
    let a: [u8; 16] = [b[0], b[1], b[2], b[3], b[4], b[5], b[6], b[7], b[8], b[9], b[10], b[11], b[12], b[13], b[14],
        b[15]];
    assert(a@ =~= b@);
    a
}

/// Reads an IPv6 address.
pub fn ipv6_of(s: &str) -> (r: Option<[u8; 16]>)
    ensures
        match ipv6_value(s@) {
            Some(b) => r matches Some(a) && a@ == b,
            None => r is None,
        },
{
    match ipv6_bytes(s) {
        Some(b) => Some(array16(&b)),
        None => None,
    }
}

/// Reads an address: IPv4 if the text is one, else IPv6.
pub fn parse_ip(s: &str) -> (r: Option<IpAddress>)
    ensures
        r == ip_value(s@),
{
    match ipv4_of(s) {
        Some(a) => {
            proof {
                let c = crate::decode::arr4(a@);
                assert(c@ == a@);
                assert(c =~= a);
            }
            Some(IpAddress::V4(a))
        },
        None => match ipv6_of(s) {
            Some(a) => {
                proof {
                    let c = crate::decode::arr16(a@);
                    assert(c@ == a@);
                    assert(c =~= a);
                }
                Some(IpAddress::V6(a))
            },
            None => None,
        },
    }
}

} // verus!
