//! Reading the DNS wire format: names (with compression pointers), record
//! data, records and whole messages.
use vstd::prelude::*;
use crate::octets::{from_be16, from_be32, be16, be32};
use crate::codec::{labels_ok, enc_name, strings_ok, enc_strings, enc_rdata, enc_record, enc_records, enc_query, enc_queries,
    queries_ok, message_ok, enc_header, enc_opt, encode_message, flags_high, flags_low};
use crate::message::{Name, label_seqs, RData, RDataV, Soa, SoaV, Record, RecordV, record_views, Query, QueryV, query_views,
    Message, MessageV, Header, Edns, ResponseCode, RecordType, rcode_of_value, type_of_code, type_code, rdata_type,
    rcode_value};

verus! {

broadcast use vstd::array::axiom_array_ext_equal;

/// The labels of a name at `pos`, inside the part of the message that
/// starts at `seg`, and the position after the name's bytes there. A
/// pointer (two bytes, the first 192 or more) continues the name at an
/// earlier offset, which must lie before `seg`; label lengths of 64 to 191
/// are refused.
pub open spec fn name_from(b: Seq<u8>, seg: int, pos: int) -> Option<(Seq<Seq<u8>>, int)>
    decreases seg, b.len() - pos,
{
    if !(0 <= seg <= pos < b.len()) {
        None
    } else {
        let l = b[pos] as int;
        if l == 0 {
            Some((Seq::empty(), pos + 1))
        } else if l >= 192 {
            if pos + 1 < b.len() {
                let t = (l - 192) * 256 + b[pos + 1] as int;
                if t < seg {
                    match name_from(b, t, t) {
                        Some(r) => Some((r.0, pos + 2)),
                        None => None,
                    }
                } else {
                    None
                }
            } else {
                None
            }
        } else if l < 64 {
            if pos + 1 + l <= b.len() {
                match name_from(b, seg, pos + 1 + l) {
                    Some(r) => Some((seq![b.subrange(pos + 1, pos + 1 + l)] + r.0, r.1)),
                    None => None,
                }
            } else {
                None
            }
        } else {
            None
        }
    }
}

/// The length of a name in uncompressed wire form.
pub open spec fn name_wire_len(ls: Seq<Seq<u8>>) -> int
    decreases ls.len(),
{
    if ls.len() == 0 {
        1
    } else {
        name_wire_len(ls.drop_last()) + ls.last().len() + 1
    }
}

proof fn lemma_wire_len_grows(a: Seq<Seq<u8>>, x: Seq<Seq<u8>>)
    ensures
        name_wire_len(a + x) >= name_wire_len(a),
    decreases x.len(),
{
    if x.len() > 0 {
        lemma_wire_len_grows(a, x.drop_last());
        assert((a + x).drop_last() =~= a + x.drop_last());
    } else {
        assert(a + x =~= a);
    }
}

/// The name at `pos` and the position after it; `None` when it is
/// malformed or longer than 255 bytes in uncompressed form.
pub open spec fn read_name(b: Seq<u8>, pos: int) -> Option<(Seq<Seq<u8>>, int)> {
    match name_from(b, pos, pos) {
        Some(r) => if name_wire_len(r.0) <= 255 {
            Some(r)
        } else {
            None
        },
        None => None,
    }
}

/// A partly read name joined with the rest of its reading.
pub open spec fn joined(acc: Seq<Seq<u8>>, end: Option<int>, r: Option<(Seq<Seq<u8>>, int)>) -> Option<(Seq<Seq<u8>>, int)> {
    match r {
        Some(x) => Some((acc + x.0, match end {
            Some(e) => e,
            None => x.1,
        })),
        None => None,
    }
}

fn copy_range(b: &[u8], from: usize, to: usize) -> (r: Vec<u8>)
    requires
        from <= to <= b@.len(),
    ensures
        r@ == b@.subrange(from as int, to as int),
{
    let mut r: Vec<u8> = Vec::new();
    let mut i: usize = from;
    while i < to
        invariant
            from <= i <= to <= b@.len(),
            r@ == b@.subrange(from as int, i as int),
        decreases to - i,
    {
        r.push(b[i]);
        i = i + 1;
        assert(r@ =~= b@.subrange(from as int, i as int));
    }
    r
}

/// Reads the name at `pos`.
pub fn decode_name(b: &[u8], pos: usize) -> (r: Option<(Name, usize)>)
    ensures
        match r {
            Some((n, e)) => read_name(b@, pos as int) == Some((n@, e as int)),
            None => read_name(b@, pos as int) is None,
        },
{
    let ghost goal = name_from(b@, pos as int, pos as int);
    let mut labels: Vec<Vec<u8>> = Vec::new();
    let mut seg: usize = pos;
    let mut cur: usize = pos;
    let mut end: Option<usize> = None;
    let mut total: usize = 1;
    loop
        invariant
            goal == name_from(b@, pos as int, pos as int),
            goal == joined(label_seqs(labels@), match end {
                Some(e) => Some(e as int),
                None => None,
            }, name_from(b@, seg as int, cur as int)),
            total as int == name_wire_len(label_seqs(labels@)),
            total <= 256,
        decreases seg, b@.len() - cur,
    {
        if !(seg <= cur && cur < b.len()) {
            assert(name_from(b@, seg as int, cur as int) is None);
            return None;
        }
        let l = b[cur];
        if l == 0 {
            let e = match end {
                Some(e) => e,
                None => cur + 1,
            };
            assert(label_seqs(labels@) + Seq::<Seq<u8>>::empty() =~= label_seqs(labels@));
            if total > 255 {
                return None;
            }
            return Some((Name { labels }, e));
        } else if l >= 192 {
            if cur + 1 >= b.len() {
                return None;
            }
            let t: usize = ((l - 192) as usize) * 256 + b[cur + 1] as usize;
            if t >= seg {
                return None;
            }
            if end.is_none() {
                end = Some(cur + 2);
            }
            seg = t;
            cur = t;
        } else if l < 64 {
            let len = l as usize;
            if len + 1 > b.len() - cur {
                return None;
            }
            let label = copy_range(b, cur + 1, cur + 1 + len);
            let ghost before = label_seqs(labels@);
            labels.push(label);
            proof {
                assert(label_seqs(labels@) =~= before.push(b@.subrange(cur + 1, cur + 1 + len)));
                assert(label_seqs(labels@).drop_last() =~= before);
                let rest = name_from(b@, seg as int, cur + 1 + len);
                if rest is Some {
                    let tail = (rest->0).0;
                    assert(before.push(b@.subrange(cur + 1, cur + 1 + len)) + tail
                        =~= before + (seq![b@.subrange(cur + 1, cur + 1 + len)] + tail));
                }
            }
            if total + len + 1 > 256 {
                proof {
                    let rest = name_from(b@, seg as int, cur + 1 + len);
                    if rest is Some {
                        lemma_wire_len_grows(label_seqs(labels@), (rest->0).0);
                    }
                }
                return None;
            }
            total = total + len + 1;
            cur = cur + 1 + len;
        } else {
            return None;
        }
    }
}

/// The 16-bit value at `p`.
pub open spec fn be16_at(b: Seq<u8>, p: int) -> int {
    from_be16(b[p], b[p + 1])
}

/// The 32-bit value at `p`.
pub open spec fn be32_at(b: Seq<u8>, p: int) -> int {
    from_be32(b.subrange(p, p + 4))
}

fn read_u16(b: &[u8], p: usize) -> (r: u16)
    requires
        p + 2 <= b@.len(),
    ensures
        r as int == be16_at(b@, p as int),
{
    (b[p] as u16) * 256 + (b[p + 1] as u16)
}

fn read_u32(b: &[u8], p: usize) -> (r: u32)
    requires
        p + 4 <= b@.len(),
    ensures
        r as int == be32_at(b@, p as int),
{
    let ghost s = b@.subrange(p as int, p + 4);
    assert(s[0] == b@[p as int] && s[1] == b@[p + 1] && s[2] == b@[p + 2] && s[3] == b@[p + 3]);
    (((b[p] as u32) * 256 + (b[p + 1] as u32)) * 256 + (b[p + 2] as u32)) * 256 + (b[p + 3] as u32)
}

/// Character strings that fill `pos..end` exactly, each with its length
/// byte.
pub open spec fn strings_from(b: Seq<u8>, pos: int, end: int) -> Option<Seq<Seq<u8>>>
    decreases end - pos,
{
    if pos == end {
        Some(Seq::empty())
    } else if pos > end || pos < 0 || end > b.len() {
        None
    } else {
        let l = b[pos] as int;
        if pos + 1 + l > end {
            None
        } else {
            match strings_from(b, pos + 1 + l, end) {
                Some(r) => Some(seq![b.subrange(pos + 1, pos + 1 + l)] + r),
                None => None,
            }
        }
    }
}

/// The array holding four bytes.
pub open spec fn arr4(s: Seq<u8>) -> [u8; 4] {
    choose|a: [u8; 4]| a@ == s
}

/// The array holding sixteen bytes.
pub open spec fn arr16(s: Seq<u8>) -> [u8; 16] {
    choose|a: [u8; 16]| a@ == s
}

/// Record data of type `code` in `start..start + len`: addresses of their
/// exact size, names and SOA data that end exactly there, TXT strings
/// that fill it; other types keep their bytes.
pub open spec fn rdata_from(b: Seq<u8>, code: u16, start: int, len: int) -> Option<RDataV> {
    let end = start + len;
    if code == 1 {
        if len == 4 {
            Some(RDataV::A(arr4(b.subrange(start, end))))
        } else {
            None
        }
    } else if code == 28 {
        if len == 16 {
            Some(RDataV::AAAA(arr16(b.subrange(start, end))))
        } else {
            None
        }
    } else if code == 2 || code == 5 {
        match read_name(b, start) {
            Some((n, e)) => if e == end {
                Some(if code == 5 { RDataV::CNAME(n) } else { RDataV::NS(n) })
            } else {
                None
            },
            None => None,
        }
    } else if code == 6 {
        match read_name(b, start) {
            Some((m, e1)) => match read_name(b, e1) {
                Some((r, e2)) => if e2 + 20 == end {
                    Some(RDataV::SOA(SoaV {
                        mname: m,
                        rname: r,
                        serial: be32_at(b, e2) as u32,
                        refresh: (be32_at(b, e2 + 4) as u32) as i32,
                        retry: (be32_at(b, e2 + 8) as u32) as i32,
                        expire: (be32_at(b, e2 + 12) as u32) as i32,
                        minimum: be32_at(b, e2 + 16) as u32,
                    }))
                } else {
                    None
                },
                None => None,
            },
            None => None,
        }
    } else if code == 16 {
        match strings_from(b, start, end) {
            Some(t) => Some(RDataV::TXT(t)),
            None => None,
        }
    } else {
        Some(RDataV::Other(code, b.subrange(start, end)))
    }
}

/// The fixed part of a record at `pos`: name, type, class, TTL, and where
/// its data starts and how long it is.
pub open spec fn record_head(b: Seq<u8>, pos: int) -> Option<(Seq<Seq<u8>>, u16, u16, u32, int, int)> {
    match read_name(b, pos) {
        Some((n, e)) => if e + 10 <= b.len() && e + 10 + be16_at(b, e + 8) <= b.len() {
            Some((n, be16_at(b, e) as u16, be16_at(b, e + 2) as u16, be32_at(b, e + 4) as u32, e + 10, be16_at(b, e + 8)))
        } else {
            None
        },
        None => None,
    }
}

/// The record at `pos` and the position after it.
pub open spec fn record_from(b: Seq<u8>, pos: int) -> Option<(RecordV, int)> {
    match record_head(b, pos) {
        Some(h) => match rdata_from(b, h.1, h.4, h.5) {
            Some(d) => Some((RecordV { name: h.0, dns_class: h.2, ttl: h.3, data: d }, h.4 + h.5)),
            None => None,
        },
        None => None,
    }
}

fn decode_strings(b: &[u8], start: usize, end: usize) -> (r: Option<Vec<Vec<u8>>>)
    requires
        start <= end <= b@.len(),
    ensures
        match r {
            Some(t) => strings_from(b@, start as int, end as int) == Some(label_seqs(t@)),
            None => strings_from(b@, start as int, end as int) is None,
        },
{
    let mut out: Vec<Vec<u8>> = Vec::new();
    let mut p: usize = start;
    while p < end
        invariant
            start <= p <= end <= b@.len(),
            strings_from(b@, start as int, end as int) == match strings_from(b@, p as int, end as int) {
                Some(rest) => Some(label_seqs(out@) + rest),
                None => None,
            },
        decreases end - p,
    {
        let l = b[p] as usize;
        if l + 1 > end - p {
            return None;
        }
        let s = copy_range(b, p + 1, p + 1 + l);
        let ghost before = label_seqs(out@);
        out.push(s);
        proof {
            assert(label_seqs(out@) =~= before.push(b@.subrange(p + 1, p + 1 + l)));
            let rest = strings_from(b@, p + 1 + l, end as int);
            if rest is Some {
                assert(before.push(b@.subrange(p + 1, p + 1 + l)) + rest->0 =~= before + (seq![b@.subrange(p + 1, p + 1 + l)] + rest->0));
            }
        }
        p = p + 1 + l;
    }
    assert(label_seqs(out@) + Seq::<Seq<u8>>::empty() =~= label_seqs(out@));
    Some(out)
}

fn decode_rdata(b: &[u8], code: u16, start: usize, len: usize) -> (r: Option<RData>)
    requires
        start + len <= b@.len(),
    ensures
        match r {
            Some(d) => rdata_from(b@, code, start as int, len as int) == Some(d@),
            None => rdata_from(b@, code, start as int, len as int) is None,
        },
{
    let n = b.len();
    assert(start + len <= n);
    let end = start + len;
    if code == 1 {
        if len != 4 {
            return None;
        }
        let a: [u8; 4] = [b[start], b[start + 1], b[start + 2], b[start + 3]];
        proof {
            assert(a@ =~= b@.subrange(start as int, end as int));
            let c = arr4(b@.subrange(start as int, end as int));
            assert(c@ == a@);
            assert(c =~= a);
            assert(c == a);
        }
        Some(RData::A(a))
    } else if code == 28 {
        if len != 16 {
            return None;
        }
        let a: [u8; 16] = [b[start], b[start + 1], b[start + 2], b[start + 3], b[start + 4], b[start + 5], b[start + 6],
            b[start + 7], b[start + 8], b[start + 9], b[start + 10], b[start + 11], b[start + 12], b[start + 13],
            b[start + 14], b[start + 15]];
        proof {
            assert(a@ =~= b@.subrange(start as int, end as int));
            let c = arr16(b@.subrange(start as int, end as int));
            assert(c@ == a@);
            assert(c =~= a);
            assert(c == a);
        }
        Some(RData::AAAA(a))
    } else if code == 2 || code == 5 {
        match decode_name(b, start) {
            Some((n, e)) => if e == end {
                if code == 5 {
                    Some(RData::CNAME(n))
                } else {
                    Some(RData::NS(n))
                }
            } else {
                None
            },
            None => None,
        }
    } else if code == 6 {
        match decode_name(b, start) {
            Some((m, e1)) => match decode_name(b, e1) {
                Some((r, e2)) => if e2 <= end && end - e2 == 20 {
                    let soa = Soa {
                        mname: m,
                        rname: r,
                        serial: read_u32(b, e2),
                        refresh: read_u32(b, e2 + 4) as i32,
                        retry: read_u32(b, e2 + 8) as i32,
                        expire: read_u32(b, e2 + 12) as i32,
                        minimum: read_u32(b, e2 + 16),
                    };
                    Some(RData::SOA(soa))
                } else {
                    None
                },
                None => None,
            },
            None => None,
        }
    } else if code == 16 {
        match decode_strings(b, start, end) {
            Some(t) => Some(RData::TXT(t)),
            None => None,
        }
    } else {
        Some(RData::Other(code, copy_range(b, start, end)))
    }
}

/// The value of a record head.
pub open spec fn head_view(h: (Name, u16, u16, u32, usize, usize)) -> (Seq<Seq<u8>>, u16, u16, u32, int, int) {
    (h.0@, h.1, h.2, h.3, h.4 as int, h.5 as int)
}

fn decode_head(b: &[u8], pos: usize) -> (r: Option<(Name, u16, u16, u32, usize, usize)>)
    ensures
        match r {
            Some(h) => record_head(b@, pos as int) == Some(head_view(h)),
            None => record_head(b@, pos as int) is None,
        },
{
    let n = b.len();
    match decode_name(b, pos) {
        Some((name, e)) => {
            if e > n || n - e < 10 {
                return None;
            }
            let t = read_u16(b, e);
            let c = read_u16(b, e + 2);
            let ttl = read_u32(b, e + 4);
            let len = read_u16(b, e + 8) as usize;
            if len > n - e - 10 {
                return None;
            }
            Some((name, t, c, ttl, e + 10, len))
        },
        None => None,
    }
}

/// Reads the record at `pos`.
pub fn decode_record(b: &[u8], pos: usize) -> (r: Option<(Record, usize)>)
    ensures
        match r {
            Some((rec, e)) => record_from(b@, pos as int) == Some((rec@, e as int)),
            None => record_from(b@, pos as int) is None,
        },
{
    let n = b.len();
    match decode_head(b, pos) {
        Some((name, t, c, ttl, start, len)) => match decode_rdata(b, t, start, len) {
            Some(d) => Some((Record { name, dns_class: c, ttl, data: d }, start + len)),
            None => None,
        },
        None => None,
    }
}

/// A list read so far joined with the rest of its reading.
pub open spec fn prepend<T>(acc: Seq<T>, r: Option<(Seq<T>, int)>) -> Option<(Seq<T>, int)> {
    match r {
        Some(x) => Some((acc + x.0, x.1)),
        None => None,
    }
}

/// `n` records from `pos` and the position after them.
pub open spec fn records_from(b: Seq<u8>, pos: int, n: nat) -> Option<(Seq<RecordV>, int)>
    decreases n,
{
    if n == 0 {
        Some((Seq::empty(), pos))
    } else {
        match record_from(b, pos) {
            Some((r, e)) => prepend(seq![r], records_from(b, e, (n - 1) as nat)),
            None => None,
        }
    }
}

fn decode_records(b: &[u8], pos: usize, count: u16) -> (r: Option<(Vec<Record>, usize)>)
    ensures
        match r {
            Some((rs, e)) => records_from(b@, pos as int, count as nat) == Some((record_views(rs@), e as int)),
            None => records_from(b@, pos as int, count as nat) is None,
        },
{
    let mut out: Vec<Record> = Vec::new();
    let mut p: usize = pos;
    let mut i: u16 = 0;
    while i < count
        invariant
            i <= count,
            records_from(b@, pos as int, count as nat) == prepend(record_views(out@), records_from(b@, p as int, (count - i) as nat)),
        decreases count - i,
    {
        match decode_record(b, p) {
            Some((rec, e)) => {
                let ghost before = record_views(out@);
                out.push(rec);
                proof {
                    assert(record_views(out@) =~= before.push(rec@));
                    let rest = records_from(b@, e as int, (count - i - 1) as nat);
                    if rest is Some {
                        assert(before.push(rec@) + (rest->0).0 =~= before + (seq![rec@] + (rest->0).0));
                    }
                }
                p = e;
            },
            None => return None,
        }
        i = i + 1;
    }
    assert(record_views(out@) + Seq::<RecordV>::empty() =~= record_views(out@));
    Some((out, p))
}

/// The question at `pos` and the position after it.
pub open spec fn query_from(b: Seq<u8>, pos: int) -> Option<(QueryV, int)> {
    match read_name(b, pos) {
        Some((n, e)) => if e + 4 <= b.len() {
            Some((QueryV { name: n, query_type: type_of_code(be16_at(b, e) as u16), query_class: be16_at(b, e + 2) as u16 }, e + 4))
        } else {
            None
        },
        None => None,
    }
}

/// `n` questions from `pos` and the position after them.
pub open spec fn queries_from(b: Seq<u8>, pos: int, n: nat) -> Option<(Seq<QueryV>, int)>
    decreases n,
{
    if n == 0 {
        Some((Seq::empty(), pos))
    } else {
        match query_from(b, pos) {
            Some((q, e)) => prepend(seq![q], queries_from(b, e, (n - 1) as nat)),
            None => None,
        }
    }
}

fn decode_query(b: &[u8], pos: usize) -> (r: Option<(Query, usize)>)
    ensures
        match r {
            Some((q, e)) => query_from(b@, pos as int) == Some((q@, e as int)),
            None => query_from(b@, pos as int) is None,
        },
{
    let n = b.len();
    match decode_name(b, pos) {
        Some((name, e)) => {
            if e > n || n - e < 4 {
                return None;
            }
            let t = read_u16(b, e);
            let c = read_u16(b, e + 2);
            Some((Query { name, query_type: RecordType::from_code(t), query_class: c }, e + 4))
        },
        None => None,
    }
}

fn decode_queries(b: &[u8], pos: usize, count: u16) -> (r: Option<(Vec<Query>, usize)>)
    ensures
        match r {
            Some((qs, e)) => queries_from(b@, pos as int, count as nat) == Some((query_views(qs@), e as int)),
            None => queries_from(b@, pos as int, count as nat) is None,
        },
{
    let mut out: Vec<Query> = Vec::new();
    let mut p: usize = pos;
    let mut i: u16 = 0;
    while i < count
        invariant
            i <= count,
            queries_from(b@, pos as int, count as nat) == prepend(query_views(out@), queries_from(b@, p as int, (count - i) as nat)),
        decreases count - i,
    {
        match decode_query(b, p) {
            Some((q, e)) => {
                let ghost before = query_views(out@);
                out.push(q);
                proof {
                    assert(query_views(out@) =~= before.push(q@));
                    let rest = queries_from(b@, e as int, (count - i - 1) as nat);
                    if rest is Some {
                        assert(before.push(q@) + (rest->0).0 =~= before + (seq![q@] + (rest->0).0));
                    }
                }
                p = e;
            },
            None => return None,
        }
        i = i + 1;
    }
    assert(query_views(out@) + Seq::<QueryV>::empty() =~= query_views(out@));
    Some((out, p))
}

/// `n` additional records from `pos`, with the class and TTL of the one
/// OPT record among them taken apart (a second one is refused), and the
/// position after them.
pub open spec fn additionals_from(b: Seq<u8>, pos: int, n: nat) -> Option<(Seq<RecordV>, Option<(u16, u32)>, int)>
    decreases n,
{
    if n == 0 {
        Some((Seq::empty(), None, pos))
    } else {
        match record_head(b, pos) {
            Some(h) => if h.1 == 41 {
                match additionals_from(b, h.4 + h.5, (n - 1) as nat) {
                    Some((rs, opt, e)) => if opt is None {
                        Some((rs, Some((h.2, h.3)), e))
                    } else {
                        None
                    },
                    None => None,
                }
            } else {
                match record_from(b, pos) {
                    Some((r, e1)) => match additionals_from(b, e1, (n - 1) as nat) {
                        Some((rs, opt, e)) => Some((seq![r] + rs, opt, e)),
                        None => None,
                    },
                    None => None,
                }
            },
            None => None,
        }
    }
}

/// Additional records read so far (with the OPT record's fields, if met)
/// joined with the rest of the reading.
pub open spec fn join_additionals(acc: Seq<RecordV>, opt: Option<(u16, u32)>,
    r: Option<(Seq<RecordV>, Option<(u16, u32)>, int)>) -> Option<(Seq<RecordV>, Option<(u16, u32)>, int)>
{
    match r {
        Some((rs, o2, e)) => if opt is Some && o2 is Some {
            None
        } else {
            Some((acc + rs, if opt is Some { opt } else { o2 }, e))
        },
        None => None,
    }
}

fn decode_additionals(b: &[u8], pos: usize, count: u16) -> (r: Option<(Vec<Record>, Option<(u16, u32)>, usize)>)
    ensures
        match r {
            Some((rs, o, e)) => additionals_from(b@, pos as int, count as nat) == Some((record_views(rs@), o, e as int)),
            None => additionals_from(b@, pos as int, count as nat) is None,
        },
{
    let n = b.len();
    let mut out: Vec<Record> = Vec::new();
    let mut opt: Option<(u16, u32)> = None;
    let mut p: usize = pos;
    let mut i: u16 = 0;
    while i < count
        invariant
            n == b@.len(),
            i <= count,
            additionals_from(b@, pos as int, count as nat) == join_additionals(record_views(out@), opt,
                additionals_from(b@, p as int, (count - i) as nat)),
        decreases count - i,
    {
        match decode_head(b, p) {
            Some((_, t, c, ttl, start, len)) => {
                if t == 41 {
                    if opt.is_some() {
                        return None;
                    }
                    opt = Some((c, ttl));
                    p = start + len;
                } else {
                    match decode_record(b, p) {
                        Some((rec, e)) => {
                            let ghost before = record_views(out@);
                            out.push(rec);
                            proof {
                                assert(record_views(out@) =~= before.push(rec@));
                                let rest = additionals_from(b@, e as int, (count - i - 1) as nat);
                                if rest is Some {
                                    assert(before.push(rec@) + (rest->0).0 =~= before + (seq![rec@] + (rest->0).0));
                                }
                            }
                            p = e;
                        },
                        None => return None,
                    }
                }
            },
            None => return None,
        }
        i = i + 1;
    }
    assert(record_views(out@) + Seq::<RecordV>::empty() =~= record_views(out@));
    Some((out, opt, p))
}

/// The header fields in the first twelve bytes (the response code's low
/// bits only).
pub open spec fn header_from(b: Seq<u8>) -> Header {
    Header {
        id: be16_at(b, 0) as u16,
        is_response: b[2] >= 128,
        op_code: ((b[2] / 8) % 16) as u8,
        authoritative: (b[2] / 4) % 2 == 1,
        truncated: (b[2] / 2) % 2 == 1,
        recursion_desired: b[2] % 2 == 1,
        recursion_available: b[3] >= 128,
        authentic_data: (b[3] / 32) % 2 == 1,
        checking_disabled: (b[3] / 16) % 2 == 1,
        response_code: rcode_of_value((b[3] % 16) as u16),
    }
}

/// The EDNS record with an OPT record's class and TTL: the payload size
/// (at least 512) and the DO bit.
pub open spec fn edns_of(class: u16, ttl: u32) -> Edns {
    Edns { max_payload: if class < 512 { 512 } else { class }, dnssec_ok: (ttl / 32768) % 2 == 1 }
}

/// The message at the start of `b` and the position after it: the
/// header, then as many questions, answers, authority and additional
/// records as it counts; an OPT record among the additional ones becomes
/// the EDNS record and gives the response code its high bits.
#[verifier::opaque]
pub open spec fn read_message(b: Seq<u8>) -> Option<(MessageV, int)> {
    if b.len() < 12 {
        None
    } else {
        match queries_from(b, 12, be16_at(b, 4) as nat) {
            Some((qs, e1)) => match records_from(b, e1, be16_at(b, 6) as nat) {
                Some((ans, e2)) => match records_from(b, e2, be16_at(b, 8) as nat) {
                    Some((auths, e3)) => match additionals_from(b, e3, be16_at(b, 10) as nat) {
                        Some((adds, opt, e4)) => {
                            let h = header_from(b);
                            let (rcode, edns) = match opt {
                                Some((class, ttl)) => (
                                    rcode_of_value(((ttl / 16777216) * 16 + b[3] % 16) as u16),
                                    Some(edns_of(class, ttl)),
                                ),
                                None => (h.response_code, None),
                            };
                            Some((MessageV {
                                header: Header { response_code: rcode, ..h },
                                queries: qs,
                                answers: ans,
                                authorities: auths,
                                additionals: adds,
                                edns,
                            }, e4))
                        },
                        None => None,
                    },
                    None => None,
                },
                None => None,
            },
            None => None,
        }
    }
}

/// Reads the message at the start of `b`; also the position after it.
pub fn decode_message(b: &[u8]) -> (r: Option<(Message, usize)>)
    ensures
        match r {
            Some((m, e)) => read_message(b@) == Some((m@, e as int)),
            None => read_message(b@) is None,
        },
{
    reveal(read_message);
    if b.len() < 12 {
        return None;
    }
    let (qs, e1) = match decode_queries(b, 12, read_u16(b, 4)) {
        Some(x) => x,
        None => return None,
    };
    let (ans, e2) = match decode_records(b, e1, read_u16(b, 6)) {
        Some(x) => x,
        None => return None,
    };
    let (auths, e3) = match decode_records(b, e2, read_u16(b, 8)) {
        Some(x) => x,
        None => return None,
    };
    let (adds, opt, e4) = match decode_additionals(b, e3, read_u16(b, 10)) {
        Some(x) => x,
        None => return None,
    };
    let hi = b[2];
    let lo = b[3];
    let low = (lo % 16) as u16;
    let (rcode, edns) = match opt {
        Some((class, ttl)) => (
            ResponseCode::from_value(((ttl / 16777216) as u16) * 16 + low),
            Some(Edns { max_payload: if class < 512 { 512 } else { class }, dnssec_ok: (ttl / 32768) % 2 == 1 }),
        ),
        None => (ResponseCode::from_value(low), None),
    };
    let header = Header {
        id: read_u16(b, 0),
        is_response: hi >= 128,
        op_code: (hi / 8) % 16,
        authoritative: (hi / 4) % 2 == 1,
        truncated: (hi / 2) % 2 == 1,
        recursion_desired: hi % 2 == 1,
        recursion_available: lo >= 128,
        authentic_data: (lo / 32) % 2 == 1,
        checking_disabled: (lo / 16) % 2 == 1,
        response_code: rcode,
    };
    let m = Message { header, queries: qs, answers: ans, authorities: auths, additionals: adds, edns };
    Some((m, e4))
}

proof fn lemma_enc_name_len(ls: Seq<Seq<u8>>)
    ensures
        enc_name(ls).len() >= 1,
    decreases ls.len(),
{
    if ls.len() > 0 {
        lemma_enc_name_len(ls.drop_first());
    }
}

/// A name written without compression reads back.
proof fn lemma_read_enc_name(b: Seq<u8>, seg: int, pos: int, ls: Seq<Seq<u8>>)
    requires
        labels_ok(ls),
        0 <= seg <= pos,
        pos + enc_name(ls).len() <= b.len(),
        b.subrange(pos, pos + enc_name(ls).len()) == enc_name(ls),
    ensures
        name_from(b, seg, pos) == Some((ls, pos + enc_name(ls).len())),
    decreases ls.len(),
{
    let e = enc_name(ls);
    lemma_enc_name_len(ls);
    assert(b[pos] == e[0]);
    if ls.len() > 0 {
        let l = ls[0].len() as int;
        let rest = ls.drop_first();
        lemma_enc_name_len(rest);
        assert(1 <= l <= 63);
        assert(e == seq![l as u8] + ls[0] + enc_name(rest));
        assert(e.len() == 1 + l + enc_name(rest).len());
        assert(b.subrange(pos + 1 + l, pos + e.len()) =~= e.subrange(1 + l, e.len() as int));
        assert(e.subrange(1 + l, e.len() as int) =~= enc_name(rest));
        assert(labels_ok(rest)) by {
            assert forall|i: int| 0 <= i < rest.len() implies 1 <= #[trigger] rest[i].len() <= 63 by {
                assert(rest[i] == ls[i + 1]);
            }
        }
        lemma_read_enc_name(b, seg, pos + 1 + l, rest);
        assert(b.subrange(pos + 1, pos + 1 + l) =~= e.subrange(1, 1 + l));
        assert(e.subrange(1, 1 + l) =~= ls[0]);
        assert(seq![ls[0]] + rest =~= ls);
    }
}

proof fn lemma_be16(b: Seq<u8>, p: int, x: u16)
    requires
        0 <= p,
        p + 2 <= b.len(),
        b.subrange(p, p + 2) == be16(x),
    ensures
        be16_at(b, p) == x,
{
    assert(b[p] == be16(x)[0] && b[p + 1] == be16(x)[1]);
    assert((x / 256) * 256 + x % 256 == x) by (nonlinear_arith);
}

proof fn lemma_be32(b: Seq<u8>, p: int, x: u32)
    requires
        0 <= p,
        p + 4 <= b.len(),
        b.subrange(p, p + 4) == be32(x),
    ensures
        be32_at(b, p) == x,
{
    assert(b.subrange(p, p + 4) =~= be32(x));
    assert(((((x / 0x100_0000) as u8) as int * 256 + ((x / 0x1_0000) % 256) as u8 as int) * 256
        + ((x / 256) % 256) as u8 as int) * 256 + (x % 256) as u8 as int == x) by (nonlinear_arith);
}

proof fn lemma_i32_u32(x: i32)
    ensures
        ((x as u32) as i32) == x,
{
    assert(((x as u32) as i32) == x) by (bit_vector);
}

proof fn lemma_read_enc_strings(b: Seq<u8>, pos: int, t: Seq<Seq<u8>>)
    requires
        strings_ok(t),
        0 <= pos,
        pos + enc_strings(t).len() <= b.len(),
        b.subrange(pos, pos + enc_strings(t).len()) == enc_strings(t),
    ensures
        strings_from(b, pos, pos + enc_strings(t).len()) == Some(t),
    decreases t.len(),
{
    let e = enc_strings(t);
    if t.len() == 0 {
        assert(t =~= Seq::<Seq<u8>>::empty());
    } else {
        let l = t[0].len() as int;
        let rest = t.drop_first();
        assert(l <= 255);
        assert(e == seq![l as u8] + t[0] + enc_strings(rest));
        assert(b[pos] == e[0]);
        assert(b.subrange(pos + 1 + l, pos + e.len()) =~= e.subrange(1 + l, e.len() as int));
        assert(e.subrange(1 + l, e.len() as int) =~= enc_strings(rest));
        assert(strings_ok(rest)) by {
            assert forall|i: int| 0 <= i < rest.len() implies #[trigger] rest[i].len() <= 255 by {
                assert(rest[i] == t[i + 1]);
            }
        }
        lemma_read_enc_strings(b, pos + 1 + l, rest);
        assert(b.subrange(pos + 1, pos + 1 + l) =~= e.subrange(1, 1 + l));
        assert(e.subrange(1, 1 + l) =~= t[0]);
        assert(seq![t[0]] + rest =~= t);
    }
}

/// A name fits the wire format's 255-byte limit.
pub open spec fn name_fits(ls: Seq<Seq<u8>>) -> bool {
    name_wire_len(ls) <= 255
}

/// Record data that reads back as itself: its names fit, and raw data
/// does not carry the type code of a kind of data that is read apart.
pub open spec fn data_reads_back(d: RDataV) -> bool {
    match d {
        RDataV::CNAME(n) => name_fits(n),
        RDataV::NS(n) => name_fits(n),
        RDataV::SOA(s) => name_fits(s.mname) && name_fits(s.rname),
        RDataV::Other(c, _) => !(c == 1 || c == 2 || c == 5 || c == 6 || c == 16 || c == 28),
        _ => true,
    }
}

#[verifier::rlimit(40)]
proof fn lemma_read_enc_soa(b: Seq<u8>, start: int, s: SoaV)
    requires
        enc_rdata(RDataV::SOA(s)) is Some,
        data_reads_back(RDataV::SOA(s)),
        0 <= start,
        start + enc_rdata(RDataV::SOA(s))->0.len() <= b.len(),
        b.subrange(start, start + enc_rdata(RDataV::SOA(s))->0.len()) == enc_rdata(RDataV::SOA(s))->0,
    ensures
        rdata_from(b, 6, start, enc_rdata(RDataV::SOA(s))->0.len() as int) == Some(RDataV::SOA(s)),
{
    let e = enc_rdata(RDataV::SOA(s))->0;
    let m = enc_name(s.mname);
    let r = enc_name(s.rname);
    assert(e == m + r + be32(s.serial) + be32(s.refresh as u32) + be32(s.retry as u32) + be32(s.expire as u32)
        + be32(s.minimum));
    assert(b.subrange(start, start + m.len()) =~= e.subrange(0, m.len() as int));
    assert(e.subrange(0, m.len() as int) =~= m);
    lemma_read_enc_name(b, start, start, s.mname);
    let e1: int = start + m.len();
    assert(b.subrange(e1, e1 + r.len()) =~= e.subrange(m.len() as int, (m.len() + r.len()) as int));
    assert(e.subrange(m.len() as int, (m.len() + r.len()) as int) =~= r);
    lemma_read_enc_name(b, e1, e1, s.rname);
    let e2: int = e1 + r.len();
    let k: int = (m.len() + r.len()) as int;
    assert(b.subrange(e2, e2 + 4) =~= e.subrange(k, k + 4));
    assert(e.subrange(k, k + 4) =~= be32(s.serial));
    lemma_be32(b, e2, s.serial);
    assert(b.subrange(e2 + 4, e2 + 8) =~= e.subrange(k + 4, k + 8));
    assert(e.subrange(k + 4, k + 8) =~= be32(s.refresh as u32));
    lemma_be32(b, e2 + 4, s.refresh as u32);
    assert(b.subrange(e2 + 8, e2 + 12) =~= e.subrange(k + 8, k + 12));
    assert(e.subrange(k + 8, k + 12) =~= be32(s.retry as u32));
    lemma_be32(b, e2 + 8, s.retry as u32);
    assert(b.subrange(e2 + 12, e2 + 16) =~= e.subrange(k + 12, k + 16));
    assert(e.subrange(k + 12, k + 16) =~= be32(s.expire as u32));
    lemma_be32(b, e2 + 12, s.expire as u32);
    assert(b.subrange(e2 + 16, e2 + 20) =~= e.subrange(k + 16, k + 20));
    assert(e.subrange(k + 16, k + 20) =~= be32(s.minimum));
    lemma_be32(b, e2 + 16, s.minimum);
    lemma_i32_u32(s.refresh);
    lemma_i32_u32(s.retry);
    lemma_i32_u32(s.expire);
}

proof fn lemma_read_enc_rdata(b: Seq<u8>, start: int, d: RDataV)
    requires
        enc_rdata(d) is Some,
        data_reads_back(d),
        0 <= start,
        start + enc_rdata(d)->0.len() <= b.len(),
        b.subrange(start, start + enc_rdata(d)->0.len()) == enc_rdata(d)->0,
    ensures
        rdata_from(b, type_code(crate::message::rdata_type(d)), start, enc_rdata(d)->0.len() as int) == Some(d),
{
    let e = enc_rdata(d)->0;
    let len = e.len() as int;
    match d {
        RDataV::A(a) => {
            assert(b.subrange(start, start + len) =~= a@);
            let c = arr4(b.subrange(start, start + len));
            assert(c =~= a);
        },
        RDataV::AAAA(a) => {
            assert(b.subrange(start, start + len) =~= a@);
            let c = arr16(b.subrange(start, start + len));
            assert(c =~= a);
        },
        RDataV::CNAME(n) => {
            lemma_read_enc_name(b, start, start, n);
        },
        RDataV::NS(n) => {
            lemma_read_enc_name(b, start, start, n);
        },
        RDataV::SOA(s) => {
            lemma_read_enc_soa(b, start, s);
        },
        RDataV::TXT(t) => {
            lemma_read_enc_strings(b, start, t);
        },
        RDataV::Other(c, raw) => {
            assert(b.subrange(start, start + len) =~= raw);
        },
    }
}

/// A record that reads back as itself.
pub open spec fn record_reads_back(r: RecordV) -> bool {
    name_fits(r.name) && data_reads_back(r.data)
}

#[verifier::rlimit(40)]
proof fn lemma_read_enc_record(b: Seq<u8>, pos: int, r: RecordV)
    requires
        enc_record(r) is Some,
        record_reads_back(r),
        0 <= pos,
        pos + enc_record(r)->0.len() <= b.len(),
        b.subrange(pos, pos + enc_record(r)->0.len()) == enc_record(r)->0,
    ensures
        record_from(b, pos) == Some((r, pos + enc_record(r)->0.len())),
        record_head(b, pos) == Some((r.name, type_code(rdata_type(r.data)), r.dns_class, r.ttl,
            pos + enc_name(r.name).len() + 10, enc_rdata(r.data)->0.len() as int)),
{
    let e = enc_record(r)->0;
    let n = enc_name(r.name);
    let d = enc_rdata(r.data)->0;
    let t = type_code(rdata_type(r.data));
    assert(e == n + be16(t) + be16(r.dns_class) + be32(r.ttl) + be16(d.len() as u16) + d);
    let k: int = n.len() as int;
    assert(b.subrange(pos, pos + k) =~= e.subrange(0, k));
    assert(e.subrange(0, k) =~= n);
    lemma_read_enc_name(b, pos, pos, r.name);
    let p1 = pos + k;
    assert(b.subrange(p1, p1 + 2) =~= e.subrange(k, k + 2));
    assert(e.subrange(k, k + 2) =~= be16(t));
    lemma_be16(b, p1, t);
    assert(b.subrange(p1 + 2, p1 + 4) =~= e.subrange(k + 2, k + 4));
    assert(e.subrange(k + 2, k + 4) =~= be16(r.dns_class));
    lemma_be16(b, p1 + 2, r.dns_class);
    assert(b.subrange(p1 + 4, p1 + 8) =~= e.subrange(k + 4, k + 8));
    assert(e.subrange(k + 4, k + 8) =~= be32(r.ttl));
    lemma_be32(b, p1 + 4, r.ttl);
    assert(b.subrange(p1 + 8, p1 + 10) =~= e.subrange(k + 8, k + 10));
    assert(e.subrange(k + 8, k + 10) =~= be16(d.len() as u16));
    lemma_be16(b, p1 + 8, d.len() as u16);
    assert(b.subrange(p1 + 10, p1 + 10 + d.len()) =~= e.subrange(k + 10, e.len() as int));
    assert(e.subrange(k + 10, e.len() as int) =~= d);
    lemma_read_enc_rdata(b, p1 + 10, r.data);
}

proof fn lemma_read_enc_records(b: Seq<u8>, pos: int, rs: Seq<RecordV>)
    requires
        enc_records(rs) is Some,
        forall|i: int| 0 <= i < rs.len() ==> record_reads_back(#[trigger] rs[i]),
        0 <= pos,
        pos + enc_records(rs)->0.len() <= b.len(),
        b.subrange(pos, pos + enc_records(rs)->0.len()) == enc_records(rs)->0,
    ensures
        records_from(b, pos, rs.len()) == Some((rs, pos + enc_records(rs)->0.len())),
    decreases rs.len(),
{
    if rs.len() == 0 {
        assert(rs =~= Seq::<RecordV>::empty());
    } else {
        let e = enc_records(rs)->0;
        let a = enc_record(rs[0])->0;
        let rest = rs.drop_first();
        let tail = enc_records(rest)->0;
        assert(e == a + tail);
        assert(b.subrange(pos, pos + a.len()) =~= e.subrange(0, a.len() as int));
        assert(e.subrange(0, a.len() as int) =~= a);
        assert(record_reads_back(rs[0]));
        lemma_read_enc_record(b, pos, rs[0]);
        let p1 = pos + a.len();
        assert(b.subrange(p1, p1 + tail.len()) =~= e.subrange(a.len() as int, e.len() as int));
        assert(e.subrange(a.len() as int, e.len() as int) =~= tail);
        assert forall|i: int| 0 <= i < rest.len() implies record_reads_back(#[trigger] rest[i]) by {
            assert(rest[i] == rs[i + 1]);
        }
        lemma_read_enc_records(b, p1, rest);
        assert(seq![rs[0]] + rest =~= rs);
    }
}

/// A record type that its code reads back as.
pub open spec fn type_canonical(t: RecordType) -> bool {
    type_of_code(type_code(t)) == t
}

/// A question that reads back as itself.
pub open spec fn query_reads_back(q: QueryV) -> bool {
    name_fits(q.name) && type_canonical(q.query_type)
}

proof fn lemma_read_enc_queries(b: Seq<u8>, pos: int, qs: Seq<QueryV>)
    requires
        queries_ok(qs),
        forall|i: int| 0 <= i < qs.len() ==> query_reads_back(#[trigger] qs[i]),
        0 <= pos,
        pos + enc_queries(qs).len() <= b.len(),
        b.subrange(pos, pos + enc_queries(qs).len()) == enc_queries(qs),
    ensures
        queries_from(b, pos, qs.len()) == Some((qs, pos + enc_queries(qs).len())),
    decreases qs.len(),
{
    if qs.len() == 0 {
        assert(qs =~= Seq::<QueryV>::empty());
    } else {
        let e = enc_queries(qs);
        let q = qs[0];
        let a = enc_query(q);
        let rest = qs.drop_first();
        let tail = enc_queries(rest);
        assert(e == a + tail);
        let n = enc_name(q.name);
        assert(a == n + be16(type_code(q.query_type)) + be16(q.query_class));
        let k: int = n.len() as int;
        assert(labels_ok(q.name));
        assert(query_reads_back(q));
        assert(b.subrange(pos, pos + k) =~= e.subrange(0, k));
        assert(e.subrange(0, k) =~= n);
        lemma_read_enc_name(b, pos, pos, q.name);
        assert(b.subrange(pos + k, pos + k + 2) =~= e.subrange(k, k + 2));
        assert(e.subrange(k, k + 2) =~= be16(type_code(q.query_type)));
        lemma_be16(b, pos + k, type_code(q.query_type));
        assert(b.subrange(pos + k + 2, pos + k + 4) =~= e.subrange(k + 2, k + 4));
        assert(e.subrange(k + 2, k + 4) =~= be16(q.query_class));
        lemma_be16(b, pos + k + 2, q.query_class);
        let p1 = pos + a.len();
        assert(b.subrange(p1, p1 + tail.len()) =~= e.subrange(a.len() as int, e.len() as int));
        assert(e.subrange(a.len() as int, e.len() as int) =~= tail);
        assert(queries_ok(rest)) by {
            assert forall|i: int| 0 <= i < rest.len() implies labels_ok(#[trigger] rest[i].name) by {
                assert(rest[i] == qs[i + 1]);
            }
        }
        assert forall|i: int| 0 <= i < rest.len() implies query_reads_back(#[trigger] rest[i]) by {
            assert(rest[i] == qs[i + 1]);
        }
        lemma_read_enc_queries(b, p1, rest);
        assert(seq![q] + rest =~= qs);
    }
}

/// An additional record that is no OPT record.
pub open spec fn not_opt(r: RecordV) -> bool {
    !(rdata_type(r.data) is OPT)
}

proof fn lemma_read_enc_additionals(b: Seq<u8>, pos: int, rs: Seq<RecordV>, k: nat)
    requires
        enc_records(rs) is Some,
        forall|i: int| 0 <= i < rs.len() ==> record_reads_back(#[trigger] rs[i]) && not_opt(rs[i]),
        0 <= pos,
        pos + enc_records(rs)->0.len() <= b.len(),
        b.subrange(pos, pos + enc_records(rs)->0.len()) == enc_records(rs)->0,
    ensures
        additionals_from(b, pos, rs.len() + k) == join_additionals(rs, None,
            additionals_from(b, pos + enc_records(rs)->0.len(), k)),
    decreases rs.len(),
{
    if rs.len() == 0 {
        assert(rs =~= Seq::<RecordV>::empty());
        let r = additionals_from(b, pos, k);
        if r is Some {
            assert(Seq::<RecordV>::empty() + (r->0).0 =~= (r->0).0);
        }
    } else {
        let e = enc_records(rs)->0;
        let a = enc_record(rs[0])->0;
        let rest = rs.drop_first();
        let tail = enc_records(rest)->0;
        assert(e == a + tail);
        assert(b.subrange(pos, pos + a.len()) =~= e.subrange(0, a.len() as int));
        assert(e.subrange(0, a.len() as int) =~= a);
        assert(record_reads_back(rs[0]) && not_opt(rs[0]));
        lemma_read_enc_record(b, pos, rs[0]);
        assert(type_code(rdata_type(rs[0].data)) != 41);
        let p1 = pos + a.len();
        assert(b.subrange(p1, p1 + tail.len()) =~= e.subrange(a.len() as int, e.len() as int));
        assert(e.subrange(a.len() as int, e.len() as int) =~= tail);
        assert forall|i: int| 0 <= i < rest.len() implies record_reads_back(#[trigger] rest[i]) && not_opt(rest[i]) by {
            assert(rest[i] == rs[i + 1]);
        }
        lemma_read_enc_additionals(b, p1, rest, k);
        assert((rs.len() + k - 1) as nat == rest.len() + k);
        let r = additionals_from(b, p1 + tail.len(), k);
        if r is Some {
            assert(seq![rs[0]] + (rest + (r->0).0) =~= rs + (r->0).0);
        }
    }
}

proof fn lemma_flags_high(h: Header)
    requires
        h.op_code < 16,
    ensures
        (flags_high(h) >= 128) == h.is_response,
        ((flags_high(h) / 8) % 16) as u8 == h.op_code,
        ((flags_high(h) / 4) % 2 == 1) == h.authoritative,
        ((flags_high(h) / 2) % 2 == 1) == h.truncated,
        (flags_high(h) % 2 == 1) == h.recursion_desired,
{
    let q: int = if h.is_response { 1 } else { 0 };
    let a: int = if h.authoritative { 1 } else { 0 };
    let t: int = if h.truncated { 1 } else { 0 };
    let r: int = if h.recursion_desired { 1 } else { 0 };
    let o: int = h.op_code as int;
    let v: int = q * 128 + o * 8 + a * 4 + t * 2 + r;
    assert(0 <= v < 256);
    assert(flags_high(h) as int == v);
    assert((v >= 128) == (q == 1) && (v / 8) % 16 == o && (v / 4) % 2 == a && (v / 2) % 2 == t && v % 2 == r)
        by (nonlinear_arith)
        requires
            v == q * 128 + o * 8 + a * 4 + t * 2 + r,
            0 <= q <= 1,
            0 <= a <= 1,
            0 <= t <= 1,
            0 <= r <= 1,
            0 <= o < 16,
    ;
}

proof fn lemma_flags_low(h: Header)
    ensures
        (flags_low(h) >= 128) == h.recursion_available,
        ((flags_low(h) / 32) % 2 == 1) == h.authentic_data,
        ((flags_low(h) / 16) % 2 == 1) == h.checking_disabled,
        flags_low(h) % 16 == rcode_value(h.response_code) % 16,
{
    let ra: int = if h.recursion_available { 1 } else { 0 };
    let ad: int = if h.authentic_data { 1 } else { 0 };
    let cd: int = if h.checking_disabled { 1 } else { 0 };
    let c: int = rcode_value(h.response_code) as int % 16;
    let v: int = ra * 128 + ad * 32 + cd * 16 + c;
    assert(0 <= v < 256);
    assert(flags_low(h) as int == v);
    assert((v >= 128) == (ra == 1) && (v / 32) % 2 == ad && (v / 16) % 2 == cd && v % 16 == c)
        by (nonlinear_arith)
        requires
            v == ra * 128 + ad * 32 + cd * 16 + c,
            0 <= ra <= 1,
            0 <= ad <= 1,
            0 <= cd <= 1,
            0 <= c < 16,
    ;
}

/// A message that reads back as itself once written: it can be written,
/// its names fit, its question types and response code are the ones their
/// numbers read as, raw record data carries no code of data read apart,
/// no additional record is an OPT record, and an EDNS payload size is at
/// least 512 (smaller ones read as 512).
pub open spec fn message_reads_back(m: MessageV) -> bool {
    &&& message_ok(m)
    &&& forall|i: int| 0 <= i < m.queries.len() ==> query_reads_back(#[trigger] m.queries[i])
    &&& forall|i: int| 0 <= i < m.answers.len() ==> record_reads_back(#[trigger] m.answers[i])
    &&& forall|i: int| 0 <= i < m.authorities.len() ==> record_reads_back(#[trigger] m.authorities[i])
    &&& forall|i: int| 0 <= i < m.additionals.len() ==> record_reads_back(#[trigger] m.additionals[i])
        && not_opt(m.additionals[i])
    &&& rcode_of_value(rcode_value(m.header.response_code)) == m.header.response_code
    &&& m.edns matches Some(e) ==> e.max_payload >= 512
}

proof fn lemma_read_opt(b: Seq<u8>, pos: int, e: Edns, rc: ResponseCode)
    requires
        0 <= pos,
        pos + enc_opt(e, rc).len() <= b.len(),
        b.subrange(pos, pos + enc_opt(e, rc).len()) == enc_opt(e, rc),
    ensures
        enc_opt(e, rc).len() == 11,
        additionals_from(b, pos, 1) == Some((Seq::<RecordV>::empty(), Some((e.max_payload,
            be32_at(b, pos + 5) as u32)), pos + 11)),
        be32_at(b, pos + 5) == ((rcode_value(rc) / 16) % 256) * 16777216 + (if e.dnssec_ok { 32768int } else { 0int }),
{
    let o = enc_opt(e, rc);
    assert(o.len() == 11);
    assert(b[pos] == o[0]);
    assert(name_from(b, pos, pos) == Some((Seq::<Seq<u8>>::empty(), pos + 1)));
    assert(name_wire_len(Seq::<Seq<u8>>::empty()) == 1);
    assert(b.subrange(pos + 1, pos + 3) =~= o.subrange(1, 3));
    assert(o.subrange(1, 3) =~= be16(41));
    lemma_be16(b, pos + 1, 41);
    assert(b.subrange(pos + 3, pos + 5) =~= o.subrange(3, 5));
    assert(o.subrange(3, 5) =~= be16(e.max_payload));
    lemma_be16(b, pos + 3, e.max_payload);
    assert(b.subrange(pos + 9, pos + 11) =~= o.subrange(9, 11));
    assert(o.subrange(9, 11) =~= be16(0));
    lemma_be16(b, pos + 9, 0);
    let hi = ((rcode_value(rc) / 16) % 256) as u8;
    let d: u8 = if e.dnssec_ok { 128 } else { 0 };
    assert(o.subrange(5, 9) =~= seq![hi, 0u8, d, 0u8]);
    assert(b.subrange(pos + 5, pos + 9) =~= o.subrange(5, 9));
    assert(be32_at(b, pos + 5) == ((hi as int * 256 + 0) * 256 + d as int) * 256 + 0);
    assert(((hi as int * 256 + 0) * 256 + d as int) * 256 + 0 == hi as int * 16777216 + d as int * 256) by (nonlinear_arith);
    assert(read_name(b, pos) == Some((Seq::<Seq<u8>>::empty(), pos + 1)));
    assert(record_head(b, pos) == Some((Seq::<Seq<u8>>::empty(), 41u16, e.max_payload, be32_at(b, pos + 5) as u32, pos + 11, 0int)));
    assert(additionals_from(b, pos + 11, 0) == Some((Seq::<RecordV>::empty(), None::<(u16, u32)>, pos + 11)));
}

proof fn lemma_opt_fields(ttl: int, rc: int, d: int)
    requires
        0 <= rc < 4096,
        0 <= d <= 1,
        ttl == ((rc / 16) % 256) * 16777216 + d * 32768,
    ensures
        (ttl / 16777216) * 16 + rc % 16 == rc,
        (ttl / 32768) % 2 == d,
{
    assert((ttl / 16777216) * 16 + rc % 16 == rc && (ttl / 32768) % 2 == d) by (nonlinear_arith)
        requires
            0 <= rc < 4096,
            0 <= d <= 1,
            ttl == ((rc / 16) % 256) * 16777216 + d * 32768,
    ;
}

/// Where the parts of a written message lie.
pub open spec fn layout(m: MessageV) -> (int, int, int, int) {
    let e1 = 12 + enc_queries(m.queries).len();
    let e2 = e1 + enc_records(m.answers)->0.len();
    let e3 = e2 + enc_records(m.authorities)->0.len();
    let e4 = e3 + enc_records(m.additionals)->0.len();
    (e1 as int, e2 as int, e3 as int, e4 as int)
}

/// The OPT record of a written message, if any.
pub open spec fn opt_part(m: MessageV) -> Seq<u8> {
    match m.edns {
        Some(e) => enc_opt(e, m.header.response_code),
        None => Seq::empty(),
    }
}

proof fn lemma_layout(m: MessageV)
    requires
        message_ok(m),
    ensures
        encode_message(m) is Some,
        ({
            let b = encode_message(m)->0;
            let (e1, e2, e3, e4) = layout(m);
            &&& b.len() == e4 + opt_part(m).len()
            &&& b.subrange(0, 12) == enc_header(m)
            &&& b.subrange(12, e1) == enc_queries(m.queries)
            &&& b.subrange(e1, e2) == enc_records(m.answers)->0
            &&& b.subrange(e2, e3) == enc_records(m.authorities)->0
            &&& b.subrange(e3, e4) == enc_records(m.additionals)->0
            &&& b.subrange(e4, b.len() as int) == opt_part(m)
        }),
{
    let h = enc_header(m);
    let q = enc_queries(m.queries);
    let an = enc_records(m.answers)->0;
    let au = enc_records(m.authorities)->0;
    let ad = enc_records(m.additionals)->0;
    let op = opt_part(m);
    let b = encode_message(m)->0;
    assert(b == h + q + an + au + ad + op);
    let (e1, e2, e3, e4) = layout(m);
    assert(b.subrange(0, 12) =~= h);
    assert(b.subrange(12, e1) =~= q);
    assert(b.subrange(e1, e2) =~= an);
    assert(b.subrange(e2, e3) =~= au);
    assert(b.subrange(e3, e4) =~= ad);
    assert(b.subrange(e4, b.len() as int) =~= op);
}

proof fn lemma_read_header(m: MessageV, b: Seq<u8>)
    requires
        message_ok(m),
        b.len() >= 12,
        b.subrange(0, 12) == enc_header(m),
    ensures
        be16_at(b, 4) == m.queries.len(),
        be16_at(b, 6) == m.answers.len(),
        be16_at(b, 8) == m.authorities.len(),
        be16_at(b, 10) == m.additionals.len() + (if m.edns is Some { 1int } else { 0int }),
        header_from(b) == (Header { response_code: header_from(b).response_code, ..m.header }),
        b[3] % 16 == rcode_value(m.header.response_code) % 16,
{
    let h = enc_header(m);
    let extra: int = if m.edns is Some { 1 } else { 0 };
    assert(b.subrange(0, 2) =~= h.subrange(0, 2));
    assert(h.subrange(0, 2) =~= be16(m.header.id));
    lemma_be16(b, 0, m.header.id);
    assert(b.subrange(4, 6) =~= h.subrange(4, 6));
    assert(h.subrange(4, 6) =~= be16(m.queries.len() as u16));
    lemma_be16(b, 4, m.queries.len() as u16);
    assert(b.subrange(6, 8) =~= h.subrange(6, 8));
    assert(h.subrange(6, 8) =~= be16(m.answers.len() as u16));
    lemma_be16(b, 6, m.answers.len() as u16);
    assert(b.subrange(8, 10) =~= h.subrange(8, 10));
    assert(h.subrange(8, 10) =~= be16(m.authorities.len() as u16));
    lemma_be16(b, 8, m.authorities.len() as u16);
    assert(b.subrange(10, 12) =~= h.subrange(10, 12));
    assert(h.subrange(10, 12) =~= be16((m.additionals.len() + extra) as u16));
    lemma_be16(b, 10, (m.additionals.len() + extra) as u16);
    assert(b[2] == h[2] && b[3] == h[3]);
    assert(h[2] == flags_high(m.header) && h[3] == flags_low(m.header));
    lemma_flags_high(m.header);
    lemma_flags_low(m.header);
}

proof fn lemma_assemble(b: Seq<u8>, m: MessageV, e1: int, e2: int, e3: int, end: int, opt: Option<(u16, u32)>)
    requires
        b.len() >= 12,
        header_from(b) == (Header { response_code: header_from(b).response_code, ..m.header }),
        queries_from(b, 12, be16_at(b, 4) as nat) == Some((m.queries, e1)),
        records_from(b, e1, be16_at(b, 6) as nat) == Some((m.answers, e2)),
        records_from(b, e2, be16_at(b, 8) as nat) == Some((m.authorities, e3)),
        additionals_from(b, e3, be16_at(b, 10) as nat) == Some((m.additionals, opt, end)),
        match opt {
            None => m.edns is None && rcode_of_value((b[3] % 16) as u16) == m.header.response_code,
            Some((c, t)) => m.edns == Some(edns_of(c, t)) && rcode_of_value(((t / 16777216) * 16 + b[3] % 16) as u16)
                == m.header.response_code,
        },
    ensures
        read_message(b) == Some((m, end)),
{
    reveal(read_message);
    let r = (read_message(b)->0).0;
    assert(r =~= m);
}

/// Bytes that hold the parts of a written message at their places read
/// as that message.
#[verifier::rlimit(100)]
#[verifier::spinoff_prover]
proof fn lemma_read_parts(m: MessageV, b: Seq<u8>)
    requires
        message_reads_back(m),
        layout(m).3 + opt_part(m).len() <= b.len(),
        b.subrange(0, 12) == enc_header(m),
        b.subrange(12, layout(m).0) == enc_queries(m.queries),
        b.subrange(layout(m).0, layout(m).1) == enc_records(m.answers)->0,
        b.subrange(layout(m).1, layout(m).2) == enc_records(m.authorities)->0,
        b.subrange(layout(m).2, layout(m).3) == enc_records(m.additionals)->0,
        b.subrange(layout(m).3, layout(m).3 + opt_part(m).len()) == opt_part(m),
    ensures
        read_message(b) == Some((m, layout(m).3 + opt_part(m).len())),
{
    let (e1, e2, e3, e4) = layout(m);
    let extra: nat = if m.edns is Some { 1 } else { 0 };
    lemma_read_header(m, b);
    lemma_read_enc_queries(b, 12, m.queries);
    lemma_read_enc_records(b, e1, m.answers);
    lemma_read_enc_records(b, e2, m.authorities);
    lemma_read_enc_additionals(b, e3, m.additionals, extra);
    assert(m.additionals + Seq::<RecordV>::empty() =~= m.additionals);
    let rc = rcode_value(m.header.response_code) as int;
    match m.edns {
        Some(e) => {
            lemma_read_opt(b, e4, e, m.header.response_code);
            let ttl = be32_at(b, e4 + 5);
            let d: int = if e.dnssec_ok { 1 } else { 0 };
            lemma_opt_fields(ttl, rc, d);
            assert(edns_of(e.max_payload, ttl as u32) == e);
            lemma_assemble(b, m, e1, e2, e3, e4 + 11, Some((e.max_payload, ttl as u32)));
        },
        None => {
            assert(additionals_from(b, e4, 0) == Some((Seq::<RecordV>::empty(), None::<(u16, u32)>, e4)));
            assert(rc % 16 == rc);
            lemma_assemble(b, m, e1, e2, e3, e4, None);
        },
    }
}

proof fn lemma_sub_prefix(b: Seq<u8>, w: Seq<u8>, x: int, y: int)
    requires
        w.len() <= b.len(),
        b.subrange(0, w.len() as int) == w,
        0 <= x <= y <= w.len(),
    ensures
        b.subrange(x, y) == w.subrange(x, y),
{
    assert(b.subrange(x, y) =~= w.subrange(x, y));
}

/// Bytes that start with a written message read as that message, ending
/// where the written bytes end.
pub proof fn lemma_read_message_prefix(m: MessageV, b: Seq<u8>)
    requires
        message_reads_back(m),
        encode_message(m) is Some,
        encode_message(m)->0.len() <= b.len(),
        b.subrange(0, encode_message(m)->0.len() as int) == encode_message(m)->0,
    ensures
        read_message(b) == Some((m, encode_message(m)->0.len() as int)),
{
    lemma_layout(m);
    let w = encode_message(m)->0;
    let (e1, e2, e3, e4) = layout(m);
    lemma_sub_prefix(b, w, 0, 12);
    lemma_sub_prefix(b, w, 12, e1);
    lemma_sub_prefix(b, w, e1, e2);
    lemma_sub_prefix(b, w, e2, e3);
    lemma_sub_prefix(b, w, e3, e4);
    lemma_sub_prefix(b, w, e4, w.len() as int);
    lemma_read_parts(m, b);
}

/// Writing a message and reading the bytes back gives the message, and
/// the reading ends where the bytes end.
pub proof fn law_read_written_message(m: MessageV)
    requires
        message_reads_back(m),
    ensures
        encode_message(m) is Some,
        read_message(encode_message(m)->0) == Some((m, encode_message(m)->0.len() as int)),
{
    lemma_layout(m);
    let w = encode_message(m)->0;
    assert(w.subrange(0, w.len() as int) =~= w);
    lemma_read_message_prefix(m, w);
}


/// The header of a datagram that holds at least the twelve header bytes.
pub fn decode_header(b: &[u8]) -> (r: Option<Header>)
    ensures
        b@.len() >= 12 ==> r == Some(header_from(b@)),
        b@.len() < 12 ==> r is None,
{
    if b.len() < 12 {
        return None;
    }
    let hi = b[2];
    let lo = b[3];
    Some(Header {
        id: read_u16(b, 0),
        is_response: hi >= 128,
        op_code: (hi / 8) % 16,
        authoritative: (hi / 4) % 2 == 1,
        truncated: (hi / 2) % 2 == 1,
        recursion_desired: hi % 2 == 1,
        recursion_available: lo >= 128,
        authentic_data: (lo / 32) % 2 == 1,
        checking_disabled: (lo / 16) % 2 == 1,
        response_code: ResponseCode::from_value((lo % 16) as u16),
    })
}

/// The bytes a response gives out read back as its message, when the
/// message can be read back at all (see [`message_reads_back`]).
pub proof fn law_response_reads_back(r: crate::response::DnsResponse)
    requires
        message_reads_back(r.spec_message()),
    ensures
        encode_message(r.spec_message()) matches Some(b) && read_message(b) == Some((r.spec_message(), b.len() as int)),
{
    law_read_written_message(r.spec_message());
}

} // verus!
