//! The DNS wire format: encoding of messages (names are written without
//! compression).
use vstd::prelude::*;
use crate::octets::{be16, be32, push_be16, push_be32, extend_bytes};
use crate::message::{Name, label_seqs, RData, RDataV, Record, RecordV, record_views, Query, QueryV,
    query_views, Message, MessageV, Header, Edns, ResponseCode, type_code, rcode_value, rdata_type};

verus! {

/// Labels that the wire format can carry: each 1 to 63 bytes.
pub open spec fn labels_ok(labels: Seq<Seq<u8>>) -> bool {
    forall|i: int| 0 <= i < labels.len() ==> 1 <= #[trigger] labels[i].len() <= 63
}

/// The uncompressed wire form of a name.
pub open spec fn enc_name(labels: Seq<Seq<u8>>) -> Seq<u8>
    decreases labels.len(),
{
    if labels.len() == 0 {
        seq![0u8]
    } else {
        seq![labels[0].len() as u8] + labels[0] + enc_name(labels.drop_first())
    }
}

/// Appends the wire form of `name`.
pub fn emit_name(v: &mut Vec<u8>, name: &Name)
    requires
        labels_ok(name.view_labels()),
    ensures
        final(v)@ == old(v)@ + enc_name(name.view_labels()),
{
    let ghost labels = name.view_labels();
    assert(labels.skip(0) =~= labels);
    let mut i: usize = 0;
    while i < name.labels.len()
        invariant
            i <= name.labels@.len(),
            labels == name.view_labels(),
            labels.len() == name.labels@.len(),
            labels_ok(labels),
            v@ + enc_name(labels.skip(i as int)) == old(v)@ + enc_name(labels),
        decreases name.labels.len() - i,
    {
        let label = &name.labels[i];
        assert(labels[i as int] == label@);
        assert(1 <= labels[i as int].len() <= 63);
        v.push(label.len() as u8);
        extend_bytes(v, label.as_slice());
        assert(labels.skip(i as int).drop_first() =~= labels.skip(i + 1));
        i = i + 1;
    }
    assert(labels.skip(i as int) =~= Seq::<Seq<u8>>::empty());
    v.push(0);
}

/// Whether every label of a name is between 1 and 63 bytes.
pub fn name_ok(name: &Name) -> (r: bool)
    ensures
        r == labels_ok(name.view_labels()),
{
    let mut i: usize = 0;
    while i < name.labels.len()
        invariant
            i <= name.labels@.len(),
            name.view_labels().len() == name.labels@.len(),
            forall|j: int| 0 <= j < i ==> 1 <= #[trigger] name.view_labels()[j].len() <= 63,
        decreases name.labels.len() - i,
    {
        let l = name.labels[i].len();
        assert(name.view_labels()[i as int] == name.labels@[i as int]@);
        if l == 0 || l > 63 {
            return false;
        }
        i = i + 1;
    }
    true
}

/// Character strings of TXT data: each at most 255 bytes.
pub open spec fn strings_ok(s: Seq<Seq<u8>>) -> bool {
    forall|i: int| 0 <= i < s.len() ==> #[trigger] s[i].len() <= 255
}

/// The wire form of TXT character strings.
pub open spec fn enc_strings(s: Seq<Seq<u8>>) -> Seq<u8>
    decreases s.len(),
{
    if s.len() == 0 {
        Seq::empty()
    } else {
        seq![s[0].len() as u8] + s[0] + enc_strings(s.drop_first())
    }
}

/// Record data that the wire format can carry, with its encoding.
pub open spec fn enc_rdata(d: RDataV) -> Option<Seq<u8>> {
    match d {
        RDataV::A(a) => Some(a@),
        RDataV::AAAA(a) => Some(a@),
        RDataV::CNAME(n) => if labels_ok(n) {
            Some(enc_name(n))
        } else {
            None
        },
        RDataV::NS(n) => if labels_ok(n) {
            Some(enc_name(n))
        } else {
            None
        },
        RDataV::SOA(s) => if labels_ok(s.mname) && labels_ok(s.rname) {
            Some(
                enc_name(s.mname) + enc_name(s.rname) + be32(s.serial)
                    + be32(s.refresh as u32) + be32(s.retry as u32) + be32(s.expire as u32) + be32(
                    s.minimum,
                ),
            )
        } else {
            None
        },
        RDataV::TXT(t) => if strings_ok(t) {
            Some(enc_strings(t))
        } else {
            None
        },
        RDataV::Other(_, raw) => Some(raw),
    }
}

fn emit_strings(v: &mut Vec<u8>, t: &Vec<Vec<u8>>) -> (ok: bool)
    ensures
        ok == strings_ok(label_seqs(t@)),
        ok ==> final(v)@ == old(v)@ + enc_strings(label_seqs(t@)),
{
    let ghost s = label_seqs(t@);
    assert(s.skip(0) =~= s);
    let mut i: usize = 0;
    while i < t.len()
        invariant
            i <= t@.len(),
            s == label_seqs(t@),
            s.len() == t@.len(),
            forall|j: int| 0 <= j < i ==> #[trigger] s[j].len() <= 255,
            v@ + enc_strings(s.skip(i as int)) == old(v)@ + enc_strings(s),
        decreases t.len() - i,
    {
        let str = &t[i];
        assert(s[i as int] == str@);
        if str.len() > 255 {
            return false;
        }
        v.push(str.len() as u8);
        extend_bytes(v, str.as_slice());
        assert(s.skip(i as int).drop_first() =~= s.skip(i + 1));
        i = i + 1;
    }
    assert(s.skip(i as int) =~= Seq::<Seq<u8>>::empty());
    assert(v@ + Seq::<u8>::empty() =~= v@);
    true
}

/// Appends the wire form of record data; `false` when it has none.
pub fn emit_rdata(v: &mut Vec<u8>, d: &RData) -> (ok: bool)
    ensures
        ok == (enc_rdata(d@) is Some),
        ok ==> final(v)@ == old(v)@ + enc_rdata(d@)->0,
{
    match d {
        RData::A(a) => {
            extend_bytes(v, a);
            true
        },
        RData::AAAA(a) => {
            extend_bytes(v, a);
            true
        },
        RData::CNAME(n) | RData::NS(n) => {
            if !name_ok(n) {
                return false;
            }
            emit_name(v, n);
            true
        },
        RData::SOA(s) => {
            if !name_ok(&s.mname) || !name_ok(&s.rname) {
                return false;
            }
            emit_name(v, &s.mname);
            emit_name(v, &s.rname);
            push_be32(v, s.serial);
            push_be32(v, s.refresh as u32);
            push_be32(v, s.retry as u32);
            push_be32(v, s.expire as u32);
            push_be32(v, s.minimum);
            assert(v@ =~= old(v)@ + enc_rdata(d@)->0);
            true
        },
        RData::TXT(t) => emit_strings(v, t),
        RData::Other(_, raw) => {
            extend_bytes(v, raw.as_slice());
            true
        },
    }
}

/// The wire form of a record, when its name and data can be carried and
/// its data fits in 65535 bytes.
pub open spec fn enc_record(r: RecordV) -> Option<Seq<u8>> {
    if !labels_ok(r.name) {
        None
    } else {
        match enc_rdata(r.data) {
            None => None,
            Some(d) => if d.len() > 65535 {
                None
            } else {
                Some(
                    enc_name(r.name) + be16(type_code(rdata_type(r.data)))
                        + be16(r.dns_class) + be32(r.ttl) + be16(d.len() as u16) + d,
                )
            },
        }
    }
}

/// Appends the wire form of a record; `false` when it has none.
pub fn emit_record(v: &mut Vec<u8>, r: &Record) -> (ok: bool)
    ensures
        ok == (enc_record(r@) is Some),
        ok ==> final(v)@ == old(v)@ + enc_record(r@)->0,
{
    if !name_ok(&r.name) {
        return false;
    }
    let mut data: Vec<u8> = Vec::new();
    if !emit_rdata(&mut data, &r.data) {
        return false;
    }
    assert(data@ =~= enc_rdata(r.data@)->0);
    if data.len() > 65535 {
        return false;
    }
    emit_name(v, &r.name);
    push_be16(v, r.record_type().code());
    push_be16(v, r.dns_class);
    push_be32(v, r.ttl);
    push_be16(v, data.len() as u16);
    extend_bytes(v, data.as_slice());
    assert(v@ =~= old(v)@ + enc_record(r@)->0);
    true
}

/// The wire form of a list of records.
pub open spec fn enc_records(rs: Seq<RecordV>) -> Option<Seq<u8>>
    decreases rs.len(),
{
    if rs.len() == 0 {
        Some(Seq::empty())
    } else {
        match (enc_record(rs[0]), enc_records(rs.drop_first())) {
            (Some(a), Some(b)) => Some(a + b),
            _ => None,
        }
    }
}

proof fn lemma_enc_records_snoc(rs: Seq<RecordV>, i: int)
    requires
        0 <= i < rs.len(),
    ensures
        enc_records(rs.take(i + 1)) == (match (enc_records(rs.take(i)), enc_record(rs[i])) {
            (Some(a), Some(b)) => Some(a + b),
            _ => None::<Seq<u8>>,
        }),
    decreases i,
{
    let t = rs.take(i + 1);
    if i == 0 {
        assert(t.drop_first() =~= Seq::<RecordV>::empty());
        assert(rs.take(0) =~= Seq::<RecordV>::empty());
        if let Some(a) = enc_record(rs[0]) {
            assert(a + Seq::<u8>::empty() =~= a);
            assert(Seq::<u8>::empty() + a =~= a);
        }
    } else {
        lemma_enc_records_snoc(rs.drop_first(), i - 1);
        assert(t.drop_first() =~= rs.drop_first().take(i));
        assert(rs.take(i).drop_first() =~= rs.drop_first().take(i - 1));
        assert(rs.drop_first()[i - 1] == rs[i]);
        match (enc_record(rs[0]), enc_records(rs.drop_first().take(i - 1)), enc_record(rs[i])) {
            (Some(a), Some(b), Some(c)) => {
                assert(a + (b + c) =~= (a + b) + c);
            },
            _ => {},
        }
    }
}

/// Appends the wire form of records; `false` when one has none.
pub fn emit_records(v: &mut Vec<u8>, rs: &Vec<Record>) -> (ok: bool)
    ensures
        ok == (enc_records(record_views(rs@)) is Some),
        ok ==> final(v)@ == old(v)@ + enc_records(record_views(rs@))->0,
{
    let ghost vs = record_views(rs@);
    let mut i: usize = 0;
    assert(vs.take(0) =~= Seq::<RecordV>::empty());
    assert(old(v)@ + Seq::<u8>::empty() =~= old(v)@);
    while i < rs.len()
        invariant
            i <= rs@.len(),
            vs == record_views(rs@),
            enc_records(vs.take(i as int)) is Some,
            v@ == old(v)@ + enc_records(vs.take(i as int))->0,
        decreases rs.len() - i,
    {
        proof {
            lemma_enc_records_snoc(vs, i as int);
        }
        assert(vs[i as int] == rs@[i as int]@);
        let ghost before = v@;
        if !emit_record(v, &rs[i]) {
            proof {
                lemma_enc_records_prefix_none(vs, i + 1);
            }
            return false;
        }
        assert(v@ =~= old(v)@ + enc_records(vs.take(i + 1))->0);
        i = i + 1;
    }
    assert(vs.take(vs.len() as int) =~= vs);
    true
}

proof fn lemma_enc_records_prefix_none(rs: Seq<RecordV>, i: int)
    requires
        0 <= i <= rs.len(),
        enc_records(rs.take(i)) is None,
    ensures
        enc_records(rs) is None,
    decreases rs.len() - i,
{
    if i < rs.len() {
        lemma_enc_records_snoc(rs, i);
        lemma_enc_records_prefix_none(rs, i + 1);
    } else {
        assert(rs.take(i) =~= rs);
    }
}

/// The wire form of a question.
pub open spec fn enc_query(q: QueryV) -> Seq<u8> {
    enc_name(q.name) + be16(type_code(q.query_type)) + be16(q.query_class)
}

/// The wire form of the question section.
pub open spec fn enc_queries(qs: Seq<QueryV>) -> Seq<u8>
    decreases qs.len(),
{
    if qs.len() == 0 {
        Seq::empty()
    } else {
        enc_query(qs[0]) + enc_queries(qs.drop_first())
    }
}

/// Questions whose names the wire format can carry.
pub open spec fn queries_ok(qs: Seq<QueryV>) -> bool {
    forall|i: int| 0 <= i < qs.len() ==> labels_ok(#[trigger] qs[i].name)
}

proof fn lemma_enc_queries_snoc(qs: Seq<QueryV>, i: int)
    requires
        0 <= i < qs.len(),
    ensures
        enc_queries(qs.take(i + 1)) == enc_queries(qs.take(i)) + enc_query(qs[i]),
    decreases i,
{
    let t = qs.take(i + 1);
    if i == 0 {
        assert(t.drop_first() =~= Seq::<QueryV>::empty());
        assert(qs.take(0) =~= Seq::<QueryV>::empty());
        assert(enc_query(qs[0]) + Seq::<u8>::empty() =~= enc_query(qs[0]));
        assert(Seq::<u8>::empty() + enc_query(qs[0]) =~= enc_query(qs[0]));
    } else {
        lemma_enc_queries_snoc(qs.drop_first(), i - 1);
        assert(t.drop_first() =~= qs.drop_first().take(i));
        assert(qs.take(i).drop_first() =~= qs.drop_first().take(i - 1));
        assert(enc_query(qs[0]) + (enc_queries(qs.drop_first().take(i - 1)) + enc_query(qs[i]))
            =~= (enc_query(qs[0]) + enc_queries(qs.drop_first().take(i - 1))) + enc_query(qs[i]));
    }
}

/// Appends the question section; `false` when a name cannot be carried.
pub fn emit_queries(v: &mut Vec<u8>, qs: &Vec<Query>) -> (ok: bool)
    ensures
        ok == queries_ok(query_views(qs@)),
        ok ==> final(v)@ == old(v)@ + enc_queries(query_views(qs@)),
{
    let ghost vs = query_views(qs@);
    let mut i: usize = 0;
    assert(vs.take(0) =~= Seq::<QueryV>::empty());
    assert(old(v)@ + Seq::<u8>::empty() =~= old(v)@);
    while i < qs.len()
        invariant
            i <= qs@.len(),
            vs == query_views(qs@),
            forall|j: int| 0 <= j < i ==> labels_ok(#[trigger] vs[j].name),
            v@ == old(v)@ + enc_queries(vs.take(i as int)),
        decreases qs.len() - i,
    {
        let q = &qs[i];
        assert(vs[i as int] == q@);
        if !name_ok(&q.name) {
            assert(q.name@ == q.name.view_labels());
            assert(!labels_ok(vs[i as int].name));
            assert(!queries_ok(query_views(qs@)));
            return false;
        }
        proof {
            lemma_enc_queries_snoc(vs, i as int);
        }
        emit_name(v, &q.name);
        push_be16(v, q.query_type.code());
        push_be16(v, q.query_class);
        assert(v@ =~= old(v)@ + enc_queries(vs.take(i + 1)));
        i = i + 1;
    }
    assert(vs.take(vs.len() as int) =~= vs);
    true
}

/// The flag byte that holds QR, the opcode, AA, TC and RD.
pub open spec fn flags_high(h: Header) -> u8 {
    ((if h.is_response { 128int } else { 0int }) + (h.op_code % 16) * 8 + (if h.authoritative { 4int } else { 0int })
        + (if h.truncated { 2int } else { 0int }) + (if h.recursion_desired { 1int } else { 0int })) as u8
}

/// The flag byte that holds RA, AD, CD and the low bits of the response code.
pub open spec fn flags_low(h: Header) -> u8 {
    ((if h.recursion_available { 128int } else { 0int }) + (if h.authentic_data { 32int } else { 0int })
        + (if h.checking_disabled { 16int } else { 0int }) + rcode_value(h.response_code) % 16) as u8
}

/// The OPT pseudo-record that carries EDNS and the high bits of the response code.
pub open spec fn enc_opt(e: Edns, rcode: ResponseCode) -> Seq<u8> {
    seq![0u8] + be16(41) + be16(e.max_payload) + seq![
        ((rcode_value(rcode) / 16) % 256) as u8,
        0u8,
        if e.dnssec_ok {
            128u8
        } else {
            0u8
        },
        0u8,
    ] + be16(0)
}

/// Messages that the wire format can carry: section counts fit in 16 bits,
/// names and data can be written, the opcode fits in 4 bits and the
/// response code fits in 4 bits (12 bits with EDNS).
pub open spec fn message_ok(m: MessageV) -> bool {
    &&& m.queries.len() <= 65535
    &&& m.answers.len() <= 65535
    &&& m.authorities.len() <= 65535
    &&& m.additionals.len() + (if m.edns is Some { 1int } else { 0int }) <= 65535
    &&& m.header.op_code < 16
    &&& rcode_value(m.header.response_code) < (if m.edns is Some { 4096int } else { 16int })
    &&& queries_ok(m.queries)
    &&& enc_records(m.answers) is Some
    &&& enc_records(m.authorities) is Some
    &&& enc_records(m.additionals) is Some
}

/// The twelve header bytes of a message.
pub open spec fn enc_header(m: MessageV) -> Seq<u8> {
    be16(m.header.id) + seq![flags_high(m.header), flags_low(m.header)] + be16(
        m.queries.len() as u16,
    ) + be16(m.answers.len() as u16) + be16(m.authorities.len() as u16) + be16(
        (m.additionals.len() + (if m.edns is Some { 1int } else { 0int })) as u16,
    )
}

fn header_flags(h: &Header, rc: u16) -> (r: (u8, u8))
    requires
        h.op_code < 16,
        rc == rcode_value(h.response_code),
    ensures
        r == (flags_high(*h), flags_low(*h)),
{
    let qr: u8 = if h.is_response { 128 } else { 0 };
    let aa: u8 = if h.authoritative { 4 } else { 0 };
    let tc: u8 = if h.truncated { 2 } else { 0 };
    let rd: u8 = if h.recursion_desired { 1 } else { 0 };
    let op: u8 = h.op_code * 8;
    let ra: u8 = if h.recursion_available { 128 } else { 0 };
    let ad: u8 = if h.authentic_data { 32 } else { 0 };
    let cd: u8 = if h.checking_disabled { 16 } else { 0 };
    let low: u8 = (rc % 16) as u8;
    (qr + op + aa + tc + rd, ra + ad + cd + low)
}

/// The two flag bytes of a header: the opcode and the response code each
/// keep their low four bits.
pub fn flag_bytes(h: &Header) -> (r: (u8, u8))
    ensures
        r == (flags_high(*h), flags_low(*h)),
{
    let mut op = *h;
    op.op_code = h.op_code % 16;
    let (hi, lo) = header_flags(&op, h.response_code.value());
    (hi, lo)
}

fn emit_header(v: &mut Vec<u8>, m: &Message)
    requires
        m.queries@.len() <= 65535,
        m.answers@.len() <= 65535,
        m.authorities@.len() <= 65535,
        m.additionals@.len() + (if m.edns is Some { 1int } else { 0int }) <= 65535,
        m.header.op_code < 16,
    ensures
        final(v)@ == old(v)@ + enc_header(m@),
{
    let extra: usize = if m.edns.is_some() { 1 } else { 0 };
    let rc = m.header.response_code.value();
    let (hi, lo) = header_flags(&m.header, rc);
    push_be16(v, m.header.id);
    v.push(hi);
    v.push(lo);
    push_be16(v, m.queries.len() as u16);
    push_be16(v, m.answers.len() as u16);
    push_be16(v, m.authorities.len() as u16);
    push_be16(v, (m.additionals.len() + extra) as u16);
    assert(v@ =~= old(v)@ + enc_header(m@));
}

/// The wire form of a message, when it has one.
pub open spec fn encode_message(m: MessageV) -> Option<Seq<u8>> {
    if !message_ok(m) {
        None
    } else {
        Some(
            enc_header(m) + enc_queries(m.queries) + enc_records(m.answers)->0 + enc_records(
                m.authorities,
            )->0 + enc_records(m.additionals)->0 + match m.edns {
                Some(e) => enc_opt(e, m.header.response_code),
                None => Seq::empty(),
            },
        )
    }
}

/// Why a message has no wire form.
#[derive(Clone, Copy, Debug, PartialEq, Eq, Structural)]
pub enum EncodeError {
    /// A section holds more than 65535 entries.
    TooManyRecords,
    /// The opcode or response code does not fit its field.
    InvalidHeader,
    /// A name has an empty label or one longer than 63 bytes.
    InvalidName,
    /// Record data cannot be written or exceeds 65535 bytes.
    InvalidData,
}

/// Encodes `m` in the wire format.
#[verifier::rlimit(40)]
pub fn to_vec(m: &Message) -> (r: Result<Vec<u8>, EncodeError>)
    ensures
        r is Ok <==> message_ok(m@),
        r matches Ok(b) ==> encode_message(m@) == Some(b@),
{
    let extra: usize = if m.edns.is_some() { 1 } else { 0 };
    if m.queries.len() > 65535 || m.answers.len() > 65535 || m.authorities.len() > 65535
        || m.additionals.len() > 65535 - extra {
        return Err(EncodeError::TooManyRecords);
    }
    let rc = m.header.response_code.value();
    if m.header.op_code >= 16 || (extra == 1 && rc >= 4096) || (extra == 0 && rc >= 16) {
        return Err(EncodeError::InvalidHeader);
    }
    let mut scratch: Vec<u8> = Vec::new();
    if !emit_queries(&mut scratch, &m.queries) {
        return Err(EncodeError::InvalidName);
    }
    if !emit_records(&mut scratch, &m.answers) {
        return Err(EncodeError::InvalidData);
    }
    if !emit_records(&mut scratch, &m.authorities) {
        return Err(EncodeError::InvalidData);
    }
    if !emit_records(&mut scratch, &m.additionals) {
        return Err(EncodeError::InvalidData);
    }
    assert(message_ok(m@));
    let mut v: Vec<u8> = Vec::new();
    emit_header(&mut v, m);
    extend_bytes(&mut v, scratch.as_slice());
    let ghost body = v@;
    match m.edns {
        Some(e) => {
            v.push(0);
            push_be16(&mut v, 41);
            push_be16(&mut v, e.max_payload);
            v.push(((rc / 16) % 256) as u8);
            v.push(0);
            v.push(if e.dnssec_ok { 128u8 } else { 0u8 });
            v.push(0);
            push_be16(&mut v, 0);
            assert(v@ =~= body + enc_opt(e, m.header.response_code));
        },
        None => {
            assert(v@ =~= body + Seq::<u8>::empty());
        },
    }
    assert(v@ =~= encode_message(m@)->0);
    Ok(v)
}

} // verus!
