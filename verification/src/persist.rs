//! The cache file: each entry as its message, its expiry on the wall
//! clock, its server group, its probe result and its hit count.
use vstd::prelude::*;
use crate::octets::{be16, be32, be64, push_be16, push_be32, push_be64, extend_bytes};
use crate::message::MessageV;
use crate::codec::{encode_message, to_vec};
use crate::decode::{read_message, decode_message, be16_at, be32_at, message_reads_back, lemma_read_message_prefix};
use crate::response::{DnsResponse, ProbeResult};
use crate::cache::DnsCacheEntry;

verus! {

/// Why an entry could not be written or read.
#[derive(Clone, Copy, Debug, PartialEq, Eq, Structural)]
pub enum PersistError {
    /// The message has no wire form.
    Encode,
    /// The server group's name is longer than 65535 bytes.
    GroupTooLong,
    /// The bytes are not an entry.
    Malformed,
}

/// `a + b`, at most `u64::MAX`.
pub open spec fn sat_add(a: int, b: int) -> u64 {
    if a + b > u64::MAX { u64::MAX } else { (a + b) as u64 }
}

/// The expiry in wall-clock seconds of an entry valid until `valid_until`
/// (milliseconds on the monotonic clock), when that clock reads `now` and
/// the wall clock `wall_now` seconds; whole seconds only.
pub open spec fn wall_expiry(valid_until: u64, now: u64, wall_now: u64) -> u64 {
    if valid_until > now {
        sat_add(wall_now as int, (valid_until - now) / 1000)
    } else if wall_now >= (now - valid_until) / 1000 {
        (wall_now - (now - valid_until) / 1000) as u64
    } else {
        0
    }
}

/// The stored form of a probe result: its kind and the round trip in
/// microseconds (at most `u32::MAX`).
pub open spec fn probe_fields(p: ProbeResult) -> (u8, u32) {
    match p {
        ProbeResult::Unchecked => (0, 0),
        ProbeResult::Failed => (1, 0),
        ProbeResult::Measured(us) => (2, if us > u32::MAX { u32::MAX } else { us as u32 }),
    }
}

/// The stored form of the server group's name (nothing for none).
pub open spec fn group_bytes(g: Option<Seq<char>>) -> Seq<u8> {
    match g {
        Some(s) => vstd::utf8::encode_utf8(s),
        None => Seq::empty(),
    }
}

/// The stored form of an entry: tag 1 and the message, tag 5 and the
/// expiry, tag 3 and the group's length and name, tag 6 and the probe, tag
/// 4 and the hits (truncated to 32 bits). `None` when the message has no wire
/// form or the group's name is too long.
pub open spec fn spec_emit(e: DnsCacheEntry, now: u64, wall_now: u64) -> Option<Seq<u8>> {
    match encode_message(e.data.spec_message()) {
        None => None,
        Some(mb) => {
            let gb = group_bytes(e.data.spec_group());
            if gb.len() > 65535 {
                None
            } else {
                let p = probe_fields(e.data.spec_probe());
                Some(seq![1u8] + mb + seq![5u8] + be64(wall_expiry(e.valid_until, now, wall_now)) + seq![3u8]
                    + be16(gb.len() as u16) + gb + seq![6u8, p.0] + be32(p.1) + seq![4u8]
                    + be32(e.stats.hits as u32))
            }
        },
    }
}

fn wall_expiry_of(valid_until: u64, now: u64, wall_now: u64) -> (r: u64)
    ensures
        r == wall_expiry(valid_until, now, wall_now),
{
    if valid_until > now {
        wall_now.saturating_add((valid_until - now) / 1000)
    } else {
        let back = (now - valid_until) / 1000;
        if wall_now >= back {
            wall_now - back
        } else {
            0
        }
    }
}

fn probe_fields_of(p: ProbeResult) -> (r: (u8, u32))
    ensures
        r == probe_fields(p),
{
    match p {
        ProbeResult::Unchecked => (0, 0),
        ProbeResult::Failed => (1, 0),
        ProbeResult::Measured(us) => (2, if us > 0xffff_ffff { 0xffff_ffffu32 } else { us as u32 }),
    }
}

/// Appends the group's length and name; `false` when the name is too long.
fn push_group(v: &mut Vec<u8>, g: Option<&str>) -> (ok: bool)
    ensures
        ok == (group_bytes(match g {
            Some(s) => Some(s@),
            None => None,
        }).len() <= 65535),
        ok ==> final(v)@ == old(v)@ + be16(group_bytes(match g {
            Some(s) => Some(s@),
            None => None,
        }).len() as u16) + group_bytes(match g {
            Some(s) => Some(s@),
            None => None,
        }),
{
    match g {
        Some(s) => {
            let bytes = s.as_bytes();
            if bytes.len() > 65535 {
                return false;
            }
            push_be16(v, bytes.len() as u16);
            extend_bytes(v, bytes);
            true
        },
        None => {
            push_be16(v, 0);
            assert(final(v)@ =~= old(v)@ + be16(0) + Seq::<u8>::empty());
            true
        },
    }
}

impl DnsCacheEntry {
    /// The stored form of the entry, with the clocks read now.
    #[verifier::rlimit(40)]
    pub fn emit(&self, now: u64, wall_now: u64) -> (r: Result<Vec<u8>, PersistError>)
        ensures
            match r {
                Ok(b) => spec_emit(*self, now, wall_now) == Some(b@),
                Err(e) => spec_emit(*self, now, wall_now) is None
                    && (e == PersistError::Encode <==> encode_message(self.data.spec_message()) is None),
            },
    {
        let mb = match to_vec(self.data.message()) {
            Ok(b) => b,
            Err(_) => return Err(PersistError::Encode),
        };
        let expiry = wall_expiry_of(self.valid_until, now, wall_now);
        let mut v: Vec<u8> = Vec::new();
        v.push(1);
        extend_bytes(&mut v, mb.as_slice());
        v.push(5);
        push_be64(&mut v, expiry);
        v.push(3);
        if !push_group(&mut v, self.data.name_server_group()) {
            return Err(PersistError::GroupTooLong);
        }
        let (kind, micros) = probe_fields_of(self.data.probe_result());
        v.push(6);
        v.push(kind);
        push_be32(&mut v, micros);
        v.push(4);
        push_be32(&mut v, self.stats.hits as u32);
        assert(v@ =~= spec_emit(*self, now, wall_now)->0);
        Ok(v)
    }
}

/// The valid-until time (milliseconds on the monotonic clock) of a stored
/// expiry: tag 2 holds the seconds left, tag 5 the wall-clock second of
/// expiry (an expiry in the past counts back from `now`, not below zero).
pub open spec fn stored_deadline(tag: u8, value: u64, now: u64, wall_now: u64) -> u64 {
    if tag == 2 {
        sat_add(now as int, value * 1000)
    } else if value > wall_now {
        sat_add(now as int, (value - wall_now) * 1000)
    } else if (wall_now - value) * 1000 <= now {
        (now - (wall_now - value) * 1000) as u64
    } else {
        now
    }
}

/// The probe result with a stored kind (0 to 2) and round trip.
pub open spec fn probe_of(kind: u8, us: u32) -> ProbeResult {
    if kind == 0 {
        ProbeResult::Unchecked
    } else if kind == 1 {
        ProbeResult::Failed
    } else {
        ProbeResult::Measured(us as u64)
    }
}

/// What a stored entry holds.
pub struct StoredEntry {
    pub message: MessageV,
    pub valid_until: u64,
    pub group: Option<Seq<char>>,
    pub probe: ProbeResult,
    pub hits: u32,
    /// The position after the entry.
    pub end: int,
}

/// The stored entry at the start of `b`: tag 1 and a message; tag 2 or 5
/// and the expiry; tag 3 and the group (none when empty or not UTF-8); an
/// optional tag 6 with the probe (kind 0 to 2); tag 4 and the hits.
#[verifier::opaque]
pub open spec fn spec_read(b: Seq<u8>, now: u64, wall_now: u64) -> Option<StoredEntry> {
    if b.len() < 1 || b[0] != 1 {
        None
    } else {
        match read_message(b.subrange(1, b.len() as int)) {
            None => None,
            Some((m, ml)) => {
                let p = 1 + ml;
                if p >= b.len() {
                    None
                } else {
                    let tag = b[p];
                    let timed: Option<(u64, int)> = if tag == 2 && p + 5 <= b.len() {
                        Some((stored_deadline(2, be32_at(b, p + 1) as u64, now, wall_now), p + 5))
                    } else if tag == 5 && p + 9 <= b.len() {
                        Some((stored_deadline(5, (be32_at(b, p + 1) * 0x1_0000_0000 + be32_at(b, p + 5)) as u64, now, wall_now), p + 9))
                    } else {
                        None
                    };
                    match timed {
                        None => None,
                        Some((vu, p2)) => if p2 + 3 > b.len() || b[p2] != 3 || p2 + 3 + be16_at(b, p2 + 1) > b.len() {
                            None
                        } else {
                            let p3 = p2 + 3 + be16_at(b, p2 + 1);
                            let gb = b.subrange(p2 + 3, p3);
                            let group = if gb.len() > 0 && vstd::utf8::valid_utf8(gb) {
                                Some(vstd::utf8::decode_utf8(gb))
                            } else {
                                None
                            };
                            let probed: Option<(ProbeResult, int)> = if p3 < b.len() && b[p3] == 6 {
                                if p3 + 6 <= b.len() && b[p3 + 1] <= 2 {
                                    Some((probe_of(b[p3 + 1], be32_at(b, p3 + 2) as u32), p3 + 6))
                                } else {
                                    None
                                }
                            } else {
                                Some((ProbeResult::Unchecked, p3))
                            };
                            match probed {
                                None => None,
                                Some((probe, p4)) => if p4 + 5 <= b.len() && b[p4] == 4 {
                                    Some(StoredEntry {
                                        message: m,
                                        valid_until: vu,
                                        group,
                                        probe,
                                        hits: be32_at(b, p4 + 1) as u32,
                                        end: p4 + 5,
                                    })
                                } else {
                                    None
                                },
                            }
                        },
                    }
                }
            },
        }
    }
}

/// `String::from_utf8`: the text when the bytes are valid UTF-8, else
/// `None`, as its documentation says.
#[verifier::external_body]
fn utf8_text(b: Vec<u8>) -> (r: Option<String>)
    ensures
        match r {
            Some(s) => vstd::utf8::valid_utf8(b@) && s@ == vstd::utf8::decode_utf8(b@),
            None => !vstd::utf8::valid_utf8(b@),
        },
{
    String::from_utf8(b).ok()
}

fn read_u16_at(b: &[u8], p: usize) -> (r: u16)
    requires
        p + 2 <= b@.len(),
    ensures
        r as int == be16_at(b@, p as int),
{
    (b[p] as u16) * 256 + (b[p + 1] as u16)
}

fn read_u32_at(b: &[u8], p: usize) -> (r: u32)
    requires
        p + 4 <= b@.len(),
    ensures
        r as int == be32_at(b@, p as int),
{
    let ghost s = b@.subrange(p as int, p + 4);
    assert(s[0] == b@[p as int] && s[1] == b@[p + 1] && s[2] == b@[p + 2] && s[3] == b@[p + 3]);
    (((b[p] as u32) * 256 + (b[p + 1] as u32)) * 256 + (b[p + 2] as u32)) * 256 + (b[p + 3] as u32)
}

fn times_1000(x: u64) -> (r: u64)
    ensures
        r == (if x * 1000 > u64::MAX { u64::MAX as int } else { x * 1000 }),
{
    match x.checked_mul(1000) {
        Some(v) => v,
        None => u64::MAX,
    }
}

fn stored_deadline_of(tag: u8, value: u64, now: u64, wall_now: u64) -> (r: u64)
    ensures
        r == stored_deadline(tag, value, now, wall_now),
{
    if tag == 2 {
        now.saturating_add(times_1000(value))
    } else if value > wall_now {
        now.saturating_add(times_1000(value - wall_now))
    } else {
        match (wall_now - value).checked_mul(1000) {
            Some(back) => if back <= now {
                now - back
            } else {
                now
            },
            None => now,
        }
    }
}

/// An entry holds what a stored entry says.
pub open spec fn holds_stored(e: DnsCacheEntry, s: StoredEntry) -> bool {
    &&& e.data.spec_message() == s.message
    &&& e.valid_until == s.valid_until
    &&& e.data.spec_valid_until() == s.valid_until
    &&& e.data.spec_group() == s.group
    &&& e.data.spec_probe() == s.probe
    &&& e.stats.hits == s.hits
}

fn probe_of_exec(kind: u8, us: u32) -> (r: ProbeResult)
    ensures
        r == probe_of(kind, us),
{
    if kind == 0 {
        ProbeResult::Unchecked
    } else if kind == 1 {
        ProbeResult::Failed
    } else {
        ProbeResult::Measured(us as u64)
    }
}

fn copy_bytes_range(b: &[u8], from: usize, to: usize) -> (r: Vec<u8>)
    requires
        from <= to <= b@.len(),
    ensures
        r@ == b@.subrange(from as int, to as int),
{
    let mut r: Vec<u8> = Vec::new();
    let mut i: usize = from;
    while i < to
        invariant
            from <= i <= to <= b@.len(),
            r@ == b@.subrange(from as int, i as int),
        decreases to - i,
    {
        r.push(b[i]);
        i = i + 1;
        assert(r@ =~= b@.subrange(from as int, i as int));
    }
    r
}

impl DnsCacheEntry {
    /// Reads the stored entry at the start of `b`, with the clocks read now;
    /// also the position after it.
    #[verifier::rlimit(60)]
    pub fn read(b: &[u8], now: u64, wall_now: u64) -> (r: Result<(DnsCacheEntry, usize), PersistError>)
        ensures
            match r {
                Ok((e, end)) => spec_read(b@, now, wall_now) matches Some(s) && holds_stored(e, s) && end == s.end
                    && 0 < end <= b@.len(),
                Err(err) => spec_read(b@, now, wall_now) is None && err == PersistError::Malformed,
            },
    {
        reveal(spec_read);
        let n = b.len();
        if n < 1 || b[0] != 1 {
            return Err(PersistError::Malformed);
        }
        let (_, rest) = b.split_at(1);
        let (msg, ml) = match decode_message(rest) {
            Some(x) => x,
            None => return Err(PersistError::Malformed),
        };
        if ml >= n - 1 {
            return Err(PersistError::Malformed);
        }
        let p = 1 + ml;
        let tag = b[p];
        let (vu, p2): (u64, usize) = if tag == 2 && n - p >= 5 {
            (stored_deadline_of(2, read_u32_at(b, p + 1) as u64, now, wall_now), p + 5)
        } else if tag == 5 && n - p >= 9 {
            let hi = read_u32_at(b, p + 1) as u64;
            let lo = read_u32_at(b, p + 5) as u64;
            (stored_deadline_of(5, hi * 4294967296 + lo, now, wall_now), p + 9)
        } else {
            return Err(PersistError::Malformed);
        };
        if n - p2 < 3 || b[p2] != 3 {
            return Err(PersistError::Malformed);
        }
        let gl = read_u16_at(b, p2 + 1) as usize;
        if n - p2 - 3 < gl {
            return Err(PersistError::Malformed);
        }
        let p3 = p2 + 3 + gl;
        let group = if gl > 0 {
            utf8_text(copy_bytes_range(b, p2 + 3, p3))
        } else {
            None
        };
        let (probe, p4): (ProbeResult, usize) = if p3 < n && b[p3] == 6 {
            if n - p3 >= 6 && b[p3 + 1] <= 2 {
                (probe_of_exec(b[p3 + 1], read_u32_at(b, p3 + 2)), p3 + 6)
            } else {
                return Err(PersistError::Malformed);
            }
        } else {
            (ProbeResult::Unchecked, p3)
        };
        if !(p4 <= n && n - p4 >= 5 && b[p4] == 4) {
            return Err(PersistError::Malformed);
        }
        let hits = read_u32_at(b, p4 + 1);
        let response = DnsResponse::from_message(msg, now).with_valid_until(vu).with_probe_result(probe);
        let response = match group {
            Some(g) => response.with_name_server_group(g),
            None => response,
        };
        let mut entry = DnsCacheEntry::new(response, vu);
        entry.stats.hits = hits as usize;
        Ok((entry, p4 + 5))
    }
}

proof fn lemma_be16_back(b: Seq<u8>, p: int, x: u16)
    requires
        0 <= p,
        p + 2 <= b.len(),
        b.subrange(p, p + 2) == be16(x),
    ensures
        be16_at(b, p) == x,
{
    assert(b[p] == be16(x)[0] && b[p + 1] == be16(x)[1]);
    assert((x / 256) * 256 + x % 256 == x) by (nonlinear_arith);
}

proof fn lemma_be32_back(b: Seq<u8>, p: int, x: u32)
    requires
        0 <= p,
        p + 4 <= b.len(),
        b.subrange(p, p + 4) == be32(x),
    ensures
        be32_at(b, p) == x,
{
    assert(b.subrange(p, p + 4) =~= be32(x));
    assert(((((x / 0x100_0000) as u8) as int * 256 + ((x / 0x1_0000) % 256) as u8 as int) * 256
        + ((x / 256) % 256) as u8 as int) * 256 + (x % 256) as u8 as int == x) by (nonlinear_arith);
}

proof fn lemma_be64_back(b: Seq<u8>, p: int, x: u64)
    requires
        0 <= p,
        p + 8 <= b.len(),
        b.subrange(p, p + 8) == be64(x),
    ensures
        (be32_at(b, p) * 0x1_0000_0000 + be32_at(b, p + 4)) == x,
{
    let hi = (x / 0x1_0000_0000) as u32;
    let lo = (x % 0x1_0000_0000) as u32;
    assert(b.subrange(p, p + 4) =~= be64(x).subrange(0, 4));
    assert(be64(x).subrange(0, 4) =~= be32(hi));
    assert(b.subrange(p + 4, p + 8) =~= be64(x).subrange(4, 8));
    assert(be64(x).subrange(4, 8) =~= be32(lo));
    lemma_be32_back(b, p, hi);
    lemma_be32_back(b, p + 4, lo);
    assert(hi as int * 0x1_0000_0000 + lo as int == x) by (nonlinear_arith)
        requires
            hi as int == x as int / 0x1_0000_0000,
            lo as int == x as int % 0x1_0000_0000,
    ;
}

/// The valid-until time an entry reads back with: whole seconds from `now`.
pub open spec fn second_rounded(valid_until: u64, now: u64) -> u64 {
    if valid_until > now {
        (now + ((valid_until - now) / 1000) * 1000) as u64
    } else {
        (now - ((now - valid_until) / 1000) * 1000) as u64
    }
}

proof fn lemma_deadline_back(valid_until: u64, now: u64, wall_now: u64)
    requires
        valid_until > now ==> wall_now + (valid_until - now) / 1000 <= u64::MAX,
        valid_until <= now ==> (now - valid_until) / 1000 <= wall_now,
    ensures
        stored_deadline(5, wall_expiry(valid_until, now, wall_now), now, wall_now) == second_rounded(valid_until, now),
{
    if valid_until > now {
        let d = (valid_until - now) / 1000;
        assert(d * 1000 <= valid_until - now) by (nonlinear_arith)
            requires
                d == (valid_until - now) / 1000,
                valid_until - now >= 0,
        ;
    } else {
        let d = (now - valid_until) / 1000;
        assert(d * 1000 <= now - valid_until) by (nonlinear_arith)
            requires
                d == (now - valid_until) / 1000,
                now - valid_until >= 0,
        ;
    }
}

/// What an entry must be for its stored form to read back: it can be
/// written, its message reads back from its wire form, its measured time
/// and hits fit in 32 bits, and
/// its deadline lies within the wall clock's range.
pub open spec fn entry_reads_back(e: DnsCacheEntry, now: u64, wall_now: u64) -> bool {
    &&& spec_emit(e, now, wall_now) is Some
    &&& message_reads_back(e.data.spec_message())
    &&& e.data.spec_probe() matches ProbeResult::Measured(us) ==> us <= u32::MAX
    &&& e.stats.hits <= u32::MAX
    &&& e.valid_until > now ==> wall_now + (e.valid_until - now) / 1000 <= u64::MAX
    &&& e.valid_until <= now ==> (now - e.valid_until) / 1000 <= wall_now
}

/// A server group as it reads back: an empty name is no group.
pub open spec fn group_read_back(g: Option<Seq<char>>) -> Option<Seq<char>> {
    match g {
        Some(n) => if n.len() > 0 { Some(n) } else { None },
        None => None,
    }
}

/// What reading an entry's stored form gives: its message, deadline rounded
/// to whole seconds from `now`, server group (none when its name is
/// empty), probe result and hits, and the length of the stored form.
pub open spec fn stored_of(e: DnsCacheEntry, now: u64, wall_now: u64) -> StoredEntry {
    StoredEntry {
        message: e.data.spec_message(),
        valid_until: second_rounded(e.valid_until, now),
        group: group_read_back(e.data.spec_group()),
        probe: e.data.spec_probe(),
        hits: e.stats.hits as u32,
        end: spec_emit(e, now, wall_now)->0.len() as int,
    }
}

/// The entry's stored form, read from the front of any bytes that start
/// with it.
#[verifier::rlimit(100)]
proof fn lemma_read_emitted(e: DnsCacheEntry, now: u64, wall_now: u64, tail: Seq<u8>)
    requires
        entry_reads_back(e, now, wall_now),
    ensures
        spec_read(spec_emit(e, now, wall_now)->0 + tail, now, wall_now) == Some(stored_of(e, now, wall_now)),
{
    lemma_read_emitted_body(e, now, wall_now, tail);
}

/// The fields of an entry's stored form, read at their places.
#[verifier::rlimit(100)]
proof fn lemma_emitted_fields(e: DnsCacheEntry, now: u64, wall_now: u64)
    requires
        spec_emit(e, now, wall_now) is Some,
    ensures
        ({
            let b = spec_emit(e, now, wall_now)->0;
            let mb = encode_message(e.data.spec_message())->0;
            let gb = group_bytes(e.data.spec_group());
            let pf = probe_fields(e.data.spec_probe());
            let p: int = 1 + mb.len() as int;
            let p2: int = p + 9;
            let p3: int = p2 + 3 + gb.len() as int;
            let p4: int = p3 + 6;
            &&& b[0] == 1u8
            &&& b.subrange(1, p) == mb
            &&& b[p] == 5u8
            &&& (be32_at(b, p + 1) * 0x1_0000_0000 + be32_at(b, p + 5)) == wall_expiry(e.valid_until, now, wall_now)
            &&& b[p2] == 3u8
            &&& be16_at(b, p2 + 1) == gb.len()
            &&& b.subrange(p2 + 3, p3) == gb
            &&& b[p3] == 6u8 && b[p3 + 1] == pf.0
            &&& be32_at(b, p3 + 2) == pf.1
            &&& b[p4] == 4u8
            &&& be32_at(b, p4 + 1) == e.stats.hits as u32
            &&& b.len() == p4 + 5
        }),
{
    let m = e.data.spec_message();
    let mb = encode_message(m)->0;
    let b = spec_emit(e, now, wall_now)->0;
    let gb = group_bytes(e.data.spec_group());
    let pf = probe_fields(e.data.spec_probe());
    let x = wall_expiry(e.valid_until, now, wall_now);
    let gl = gb.len() as u16;
    let h = e.stats.hits as u32;
    assert(b == seq![1u8] + mb + seq![5u8] + be64(x) + seq![3u8] + be16(gl) + gb + seq![6u8, pf.0] + be32(pf.1)
        + seq![4u8] + be32(h));
    let p: int = 1 + mb.len() as int;
    assert(b.subrange(1, p) =~= mb);
    assert(b[0] == 1u8);
    assert(b[p] == 5u8);
    assert(b.subrange(p + 1, p + 9) =~= be64(x));
    lemma_be64_back(b, p + 1, x);
    let p2: int = p + 9;
    assert(b[p2] == 3u8);
    assert(b.subrange(p2 + 1, p2 + 3) =~= be16(gl));
    lemma_be16_back(b, p2 + 1, gl);
    let p3: int = p2 + 3 + gb.len() as int;
    assert(b.subrange(p2 + 3, p3) =~= gb);
    assert(b[p3] == 6u8 && b[p3 + 1] == pf.0);
    assert(b.subrange(p3 + 2, p3 + 6) =~= be32(pf.1));
    lemma_be32_back(b, p3 + 2, pf.1);
    let p4: int = p3 + 6;
    assert(b[p4] == 4u8);
    assert(b.subrange(p4 + 1, p4 + 5) =~= be32(h));
    lemma_be32_back(b, p4 + 1, h);
}

/// Bytes that start with `b0` agree with it on its subranges.
proof fn lemma_prefix_agrees(b0: Seq<u8>, tail: Seq<u8>)
    ensures
        forall|i: int, j: int| 0 <= i <= j <= b0.len() ==> #[trigger] (b0 + tail).subrange(i, j) == b0.subrange(i, j),
        forall|k: int| 0 <= k < b0.len() ==> #[trigger] (b0 + tail)[k] == b0[k],
{
    assert forall|i: int, j: int| 0 <= i <= j <= b0.len() implies #[trigger] (b0 + tail).subrange(i, j) == b0.subrange(
        i,
        j,
    ) by {
        assert((b0 + tail).subrange(i, j) =~= b0.subrange(i, j));
    }
}

#[verifier::rlimit(100)]
proof fn lemma_read_emitted_body(e: DnsCacheEntry, now: u64, wall_now: u64, tail: Seq<u8>)
    requires
        entry_reads_back(e, now, wall_now),
    ensures
        spec_read(spec_emit(e, now, wall_now)->0 + tail, now, wall_now) == Some(stored_of(e, now, wall_now)),
{
    reveal(spec_read);
    let b0 = spec_emit(e, now, wall_now)->0;
    let b = b0 + tail;
    let m = e.data.spec_message();
    let mb = encode_message(m)->0;
    let gb = group_bytes(e.data.spec_group());
    lemma_emitted_fields(e, now, wall_now);
    lemma_prefix_agrees(b0, tail);
    let p: int = 1 + mb.len() as int;
    let p2: int = p + 9;
    let p3: int = p2 + 3 + gb.len() as int;
    let p4: int = p3 + 6;
    let rest = b.subrange(1, b.len() as int);
    assert(rest.subrange(0, mb.len() as int) =~= b.subrange(1, p));
    assert(b.subrange(1, p) == b0.subrange(1, p));
    lemma_read_message_prefix(m, rest);
    assert(b[0] == b0[0] && b[p] == b0[p] && b[p2] == b0[p2] && b[p3] == b0[p3] && b[p3 + 1] == b0[p3 + 1]
        && b[p4] == b0[p4]);
    assert(b.subrange(p + 1, p + 5) == b0.subrange(p + 1, p + 5));
    assert(b.subrange(p + 5, p + 9) == b0.subrange(p + 5, p + 9));
    assert(b[p2 + 1] == b0[p2 + 1] && b[p2 + 2] == b0[p2 + 2]);
    assert(b.subrange(p2 + 3, p3) == b0.subrange(p2 + 3, p3));
    assert(b.subrange(p3 + 2, p3 + 6) == b0.subrange(p3 + 2, p3 + 6));
    assert(b.subrange(p4 + 1, p4 + 5) == b0.subrange(p4 + 1, p4 + 5));
    lemma_deadline_back(e.valid_until, now, wall_now);
    match e.data.spec_group() {
        Some(g) => {
            vstd::utf8::encode_utf8_valid_utf8(g);
            vstd::utf8::encode_utf8_decode_utf8(g);
        },
        None => {
            assert(gb.len() == 0);
        },
    }
}

/// Writing an entry and reading it back with the same clock readings gives
/// its message, server group (none for an empty name), probe result and
/// hits, and its deadline rounded to whole seconds from `now`; the reading
/// ends where the bytes end.
pub proof fn law_read_emitted_entry(e: DnsCacheEntry, now: u64, wall_now: u64)
    requires
        entry_reads_back(e, now, wall_now),
    ensures
        spec_read(spec_emit(e, now, wall_now)->0, now, wall_now) == Some(stored_of(e, now, wall_now)),
        stored_of(e, now, wall_now).end == spec_emit(e, now, wall_now)->0.len(),
{
    lemma_read_emitted(e, now, wall_now, Seq::empty());
    assert(spec_emit(e, now, wall_now)->0 + Seq::<u8>::empty() =~= spec_emit(e, now, wall_now)->0);
}

/// The stored entries that fill `b`, one after the other; `None` when any
/// of them is malformed.
pub open spec fn spec_read_all(b: Seq<u8>, now: u64, wall_now: u64) -> Option<Seq<StoredEntry>>
    decreases b.len(),
{
    if b.len() == 0 {
        Some(Seq::empty())
    } else {
        match spec_read(b, now, wall_now) {
            Some(s) => if 0 < s.end <= b.len() {
                match spec_read_all(b.subrange(s.end, b.len() as int), now, wall_now) {
                    Some(r) => Some(seq![s] + r),
                    None => None,
                }
            } else {
                None
            },
            None => None,
        }
    }
}

/// Reads every stored entry of a cache file.
pub fn deserialize_many(data: &[u8], now: u64, wall_now: u64) -> (r: Result<Vec<DnsCacheEntry>, PersistError>)
    ensures
        match r {
            Ok(v) => spec_read_all(data@, now, wall_now) matches Some(l) && v@.len() == l.len()
                && forall|i: int| 0 <= i < l.len() ==> holds_stored(#[trigger] v@[i], l[i]),
            Err(e) => spec_read_all(data@, now, wall_now) is None && e == PersistError::Malformed,
        },
{
    let n = data.len();
    let mut out: Vec<DnsCacheEntry> = Vec::new();
    let ghost mut got: Seq<StoredEntry> = Seq::empty();
    let mut off: usize = 0;
    assert(data@.subrange(0, n as int) =~= data@);
    while off < n
        invariant
            n == data@.len(),
            off <= n,
            out@.len() == got.len(),
            forall|i: int| 0 <= i < got.len() ==> holds_stored(#[trigger] out@[i], got[i]),
            spec_read_all(data@, now, wall_now) == match spec_read_all(data@.subrange(off as int, n as int), now, wall_now) {
                Some(r) => Some(got + r),
                None => None,
            },
        decreases n - off,
    {
        let (_, rest) = data.split_at(off);
        match DnsCacheEntry::read(rest, now, wall_now) {
            Ok((entry, end)) => {
                let ghost s = spec_read(rest@, now, wall_now)->0;
                proof {
                    assert(rest@.subrange(end as int, rest@.len() as int) =~= data@.subrange(off + end, n as int));
                    let tail = spec_read_all(data@.subrange(off + end, n as int), now, wall_now);
                    if tail is Some {
                        assert(got.push(s) + tail->0 =~= got + (seq![s] + tail->0));
                    }
                    got = got.push(s);
                }
                out.push(entry);
                off = off + end;
            },
            Err(_) => return Err(PersistError::Malformed),
        }
    }
    assert(data@.subrange(n as int, n as int) =~= Seq::<u8>::empty());
    assert(got + Seq::<StoredEntry>::empty() =~= got);
    Ok(out)
}

/// The stored forms of entries one after the other, leaving out those
/// that cannot be written.
pub open spec fn spec_emit_all(es: Seq<DnsCacheEntry>, now: u64, wall_now: u64) -> Seq<u8>
    decreases es.len(),
{
    if es.len() == 0 {
        Seq::empty()
    } else {
        spec_emit_all(es.drop_last(), now, wall_now) + match spec_emit(es.last(), now, wall_now) {
            Some(x) => x,
            None => Seq::empty(),
        }
    }
}

/// Writes entries one after the other, leaving out those that cannot be
/// written.
pub fn serialize_many(entries: &Vec<DnsCacheEntry>, now: u64, wall_now: u64) -> (r: Vec<u8>)
    ensures
        r@ == spec_emit_all(entries@, now, wall_now),
{
    let mut out: Vec<u8> = Vec::new();
    let mut i: usize = 0;
    while i < entries.len()
        invariant
            i <= entries@.len(),
            out@ == spec_emit_all(entries@.take(i as int), now, wall_now),
        decreases entries.len() - i,
    {
        proof {
            assert(entries@.take(i as int + 1).drop_last() =~= entries@.take(i as int));
            assert(entries@.take(i as int + 1).last() == entries@[i as int]);
        }
        match entries[i].emit(now, wall_now) {
            Ok(b) => extend_bytes(&mut out, b.as_slice()),
            Err(_) => {
                assert(out@ + Seq::<u8>::empty() =~= out@);
            },
        }
        i = i + 1;
    }
    assert(entries@.take(entries@.len() as int) =~= entries@);
    out
}

/// Whether the stored form of every entry reads back (see
/// [`entry_reads_back`]).
pub open spec fn entries_read_back(es: Seq<DnsCacheEntry>, now: u64, wall_now: u64) -> bool {
    forall|i: int| 0 <= i < es.len() ==> entry_reads_back(#[trigger] es[i], now, wall_now)
}

/// What reading the stored forms of entries gives, entry by entry.
pub open spec fn stored_all(es: Seq<DnsCacheEntry>, now: u64, wall_now: u64) -> Seq<StoredEntry> {
    es.map_values(|e: DnsCacheEntry| stored_of(e, now, wall_now))
}

#[verifier::rlimit(60)]
proof fn lemma_emit_all_front(es: Seq<DnsCacheEntry>, now: u64, wall_now: u64)
    requires
        es.len() > 0,
        spec_emit(es[0], now, wall_now) is Some,
    ensures
        spec_emit_all(es, now, wall_now) == spec_emit(es[0], now, wall_now)->0 + spec_emit_all(es.skip(1), now, wall_now),
    decreases es.len(),
{
    let x = spec_emit(es[0], now, wall_now)->0;
    if es.len() == 1 {
        assert(es.drop_last().len() == 0);
        assert(es.skip(1).len() == 0);
        assert(spec_emit_all(es.drop_last(), now, wall_now) == Seq::<u8>::empty());
        assert(spec_emit_all(es.skip(1), now, wall_now) == Seq::<u8>::empty());
        assert(es.last() == es[0]);
        assert(Seq::<u8>::empty() + x =~= x + Seq::<u8>::empty());
    } else {
        let d = es.drop_last();
        assert(d[0] == es[0]);
        lemma_emit_all_front(d, now, wall_now);
        assert(es.skip(1).drop_last() =~= d.skip(1));
        assert(es.skip(1).last() == es.last());
        let l = match spec_emit(es.last(), now, wall_now) {
            Some(y) => y,
            None => Seq::empty(),
        };
        assert(spec_emit_all(es.skip(1), now, wall_now) == spec_emit_all(d.skip(1), now, wall_now) + l);
        assert((x + spec_emit_all(d.skip(1), now, wall_now)) + l =~= x + (spec_emit_all(d.skip(1), now, wall_now) + l));
    }
}

proof fn lemma_emit_nonempty(e: DnsCacheEntry, now: u64, wall_now: u64)
    requires
        spec_emit(e, now, wall_now) is Some,
    ensures
        spec_emit(e, now, wall_now)->0.len() > 0,
{
    let x = spec_emit(e, now, wall_now)->0;
    assert(x[0] == 1u8);
}

/// Writing entries one after the other and reading them all back with the
/// same clock readings gives, for each entry in order, its message, server
/// group (none for an empty name), probe result and hits, and its deadline
/// rounded to whole seconds from `now`.
#[verifier::spinoff_prover]
#[verifier::rlimit(60)]
pub proof fn law_read_emitted_entries(es: Seq<DnsCacheEntry>, now: u64, wall_now: u64)
    requires
        entries_read_back(es, now, wall_now),
    ensures
        spec_read_all(spec_emit_all(es, now, wall_now), now, wall_now) == Some(stored_all(es, now, wall_now)),
    decreases es.len(),
{
    if es.len() == 0 {
        assert(spec_emit_all(es, now, wall_now) == Seq::<u8>::empty());
        assert(stored_all(es, now, wall_now) =~= Seq::<StoredEntry>::empty());
    } else {
        assert(entry_reads_back(es[0], now, wall_now));
        let rest = es.skip(1);
        assert forall|i: int| 0 <= i < rest.len() implies entry_reads_back(#[trigger] rest[i], now, wall_now) by {
            assert(rest[i] == es[i + 1]);
        }
        law_read_emitted_entries(rest, now, wall_now);
        lemma_emit_all_front(es, now, wall_now);
        let x = spec_emit(es[0], now, wall_now)->0;
        let t = spec_emit_all(rest, now, wall_now);
        let b = x + t;
        lemma_read_emitted(es[0], now, wall_now, t);
        let s0 = stored_of(es[0], now, wall_now);
        lemma_emit_nonempty(es[0], now, wall_now);
        assert(0 < s0.end <= b.len());
        assert(b.subrange(s0.end, b.len() as int) =~= t);
        assert(spec_read_all(b, now, wall_now) == Some(seq![s0] + stored_all(rest, now, wall_now)));
        assert(seq![s0] + stored_all(rest, now, wall_now) =~= stored_all(es, now, wall_now));
    }
}

} // verus!
