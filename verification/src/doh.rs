//! DNS over HTTPS: how a request arrives (wire query in the body or in the
//! `dns` parameter, or a JSON-style name and type), which content type the
//! answer takes, and the JSON view of an answer.
use vstd::prelude::*;
use base64::Engine as _;
use crate::message::{Message, MessageV, Name, Query, QueryV, RecordType, Edns, Header, ResponseCode, rcode_value,
    type_code};
use crate::dname::dotted_labels;
use crate::text::str_eq;
use crate::message::{RData, RDataV, Record, RecordV, SoaV};
use crate::bench::{decimal, push_decimal};

verus! {

/// The parameters of a GET request.
#[derive(Debug)]
pub struct QueryParam {
    /// A wire query in URL-safe base64 without padding.
    pub dns: Option<String>,
    /// The name asked.
    pub name: Option<String>,
    /// The type asked, by name.
    pub query_type: String,
    /// The DO bit.
    pub dnssec: bool,
    /// The CD bit.
    pub checking_disabled: bool,
}

impl QueryParam {
    /// The type asked when the request names none.
    pub fn default_query_type() -> (r: String)
        ensures
            r@ == "A"@,
    {
        "A".to_string()
    }
}

/// The content type of wire answers.
pub const APPLICATION_DNS_MESSAGE: &'static str = "application/dns-message";

/// The content type of JSON answers.
pub const APPLICATION_JSON: &'static str = "application/json";

/// Whether the answer goes out as a wire message: when the client accepts
/// one, when the query came in wire form, and for a POST unless the client
/// asks for JSON.
pub open spec fn spec_wants_wire(accept: Seq<char>, param: Option<QueryParam>) -> bool {
    ||| accept == APPLICATION_DNS_MESSAGE@
    ||| (param matches Some(p) && p.dns is Some)
    ||| (param is None && accept != APPLICATION_JSON@)
}

pub fn wants_wire(accept: &str, param: Option<&QueryParam>) -> (r: bool)
    ensures
        r == spec_wants_wire(accept@, match param {
            Some(p) => Some(*p),
            None => None,
        }),
{
    if str_eq(accept, APPLICATION_DNS_MESSAGE) {
        return true;
    }
    match param {
        Some(p) => p.dns.is_some(),
        None => !str_eq(accept, APPLICATION_JSON),
    }
}

/// The content type of an answer.
pub fn content_type(wire: bool) -> (r: &'static str)
    ensures
        r@ == (if wire { APPLICATION_DNS_MESSAGE@ } else { APPLICATION_JSON@ }),
{
    if wire {
        APPLICATION_DNS_MESSAGE
    } else {
        APPLICATION_JSON
    }
}

/// What `base64`'s URL-safe engine without padding decodes `s` to (`None`
/// when `s` is not such text).
pub uninterp spec fn base64_url_decoded(s: Seq<char>) -> Option<Seq<u8>>;

/// `URL_SAFE_NO_PAD.decode` of the `base64` crate: the bytes that `s`
/// encodes, or `None` on a decode error. Nothing more is claimed of the
/// decoding than that it is a function of `s`.
#[verifier::external_body]
fn decode_base64_url(s: &str) -> (r: Option<Vec<u8>>)
    ensures
        match r {
            Some(b) => base64_url_decoded(s@) == Some(b@),
            None => base64_url_decoded(s@) is None,
        },
{
    base64::engine::general_purpose::URL_SAFE_NO_PAD.decode(s).ok()
}

/// The record type with a name (upper case), if any.
pub open spec fn type_of_name(s: Seq<char>) -> Option<RecordType> {
    if s == "A"@ {
        Some(RecordType::A)
    } else if s == "NS"@ {
        Some(RecordType::NS)
    } else if s == "CNAME"@ {
        Some(RecordType::CNAME)
    } else if s == "SOA"@ {
        Some(RecordType::SOA)
    } else if s == "PTR"@ {
        Some(RecordType::PTR)
    } else if s == "MX"@ {
        Some(RecordType::MX)
    } else if s == "TXT"@ {
        Some(RecordType::TXT)
    } else if s == "AAAA"@ {
        Some(RecordType::AAAA)
    } else if s == "SRV"@ {
        Some(RecordType::SRV)
    } else if s == "OPT"@ {
        Some(RecordType::OPT)
    } else if s == "SVCB"@ {
        Some(RecordType::SVCB)
    } else if s == "HTTPS"@ {
        Some(RecordType::HTTPS)
    } else if s == "ANY"@ {
        Some(RecordType::ANY)
    } else {
        None
    }
}

/// The record type with a name; A for any other text.
pub fn parse_type(s: &str) -> (r: RecordType)
    ensures
        r == match type_of_name(s@) {
            Some(t) => t,
            None => RecordType::A,
        },
{
    if str_eq(s, "A") {
        RecordType::A
    } else if str_eq(s, "NS") {
        RecordType::NS
    } else if str_eq(s, "CNAME") {
        RecordType::CNAME
    } else if str_eq(s, "SOA") {
        RecordType::SOA
    } else if str_eq(s, "PTR") {
        RecordType::PTR
    } else if str_eq(s, "MX") {
        RecordType::MX
    } else if str_eq(s, "TXT") {
        RecordType::TXT
    } else if str_eq(s, "AAAA") {
        RecordType::AAAA
    } else if str_eq(s, "SRV") {
        RecordType::SRV
    } else if str_eq(s, "OPT") {
        RecordType::OPT
    } else if str_eq(s, "SVCB") {
        RecordType::SVCB
    } else if str_eq(s, "HTTPS") {
        RecordType::HTTPS
    } else if str_eq(s, "ANY") {
        RecordType::ANY
    } else {
        RecordType::A
    }
}

/// A request as it goes to the server.
#[derive(Debug)]
pub enum DohRequest {
    /// A wire message.
    Binary(Vec<u8>),
    /// A message built from the parameters.
    Raw(Message),
}

/// Why a request was refused.
#[derive(Debug, PartialEq, Eq, Structural)]
pub enum DohError {
    /// The `dns` parameter is not URL-safe base64.
    BadBase64,
    /// Neither `dns` nor `name` was given.
    MissingQuery,
    /// The name is not a domain name.
    BadName,
}

/// The query message for a name and type: id 0, one question, the CD bit
/// as asked, and an EDNS record with the DO bit when DNSSEC is asked.
pub open spec fn param_message(name: Seq<Seq<u8>>, query_type: RecordType, dnssec: bool, checking_disabled: bool) -> MessageV {
    MessageV {
        header: Header {
            id: 0,
            is_response: false,
            op_code: 0,
            authoritative: false,
            truncated: false,
            recursion_desired: false,
            recursion_available: false,
            authentic_data: false,
            checking_disabled,
            response_code: ResponseCode::NoError,
        },
        queries: seq![QueryV { name, query_type, query_class: 1 }],
        answers: Seq::empty(),
        authorities: Seq::empty(),
        additionals: Seq::empty(),
        edns: if dnssec {
            Some(Edns { max_payload: 512, dnssec_ok: true })
        } else {
            None
        },
    }
}

/// The request value: `Ok(Ok(bytes))` for a wire message, `Ok(Err(m))` for
/// a built message.
pub open spec fn request_view(r: Result<DohRequest, DohError>) -> Result<Result<Seq<u8>, MessageV>, DohError> {
    match r {
        Ok(DohRequest::Binary(b)) => Ok(Ok(b@)),
        Ok(DohRequest::Raw(m)) => Ok(Err(m@)),
        Err(e) => Err(e),
    }
}

/// The request a DoH call makes: the decoded `dns` parameter; else, for a
/// GET with parameters, the message for `name` and `type` (an unknown type
/// asks for A); else the body as a wire message.
pub open spec fn spec_request(param: Option<QueryParam>, body: Seq<u8>) -> Result<Result<Seq<u8>, MessageV>, DohError> {
    match param {
        Some(p) => match p.dns {
            Some(d) => match base64_url_decoded(d@) {
                Some(b) => Ok(Ok(b)),
                None => Err(DohError::BadBase64),
            },
            None => match p.name {
                None => Err(DohError::MissingQuery),
                Some(n) => match dotted_labels(vstd::utf8::encode_utf8(n@)) {
                    Some(labels) => Ok(Err(param_message(labels, match type_of_name(p.query_type@) {
                        Some(t) => t,
                        None => RecordType::A,
                    }, p.dnssec, p.checking_disabled))),
                    None => Err(DohError::BadName),
                },
            },
        },
        None => Ok(Ok(body)),
    }
}

/// The request a DoH call hands to the server.
pub fn request(param: Option<QueryParam>, body: Vec<u8>) -> (r: Result<DohRequest, DohError>)
    ensures
        request_view(r) == spec_request(param, body@),
{
    match param {
        Some(p) => match &p.dns {
            Some(d) => match decode_base64_url(d.as_str()) {
                Some(b) => Ok(DohRequest::Binary(b)),
                None => Err(DohError::BadBase64),
            },
            None => match &p.name {
                None => Err(DohError::MissingQuery),
                Some(n) => match Name::from_ascii(n.as_str()) {
                    Some(name) => {
                        let query_type = parse_type(p.query_type.as_str());
                        let mut message = Message::query(0);
                        message.header.checking_disabled = p.checking_disabled;
                        message.queries.push(Query::query(name, query_type));
                        if p.dnssec {
                            message.edns = Some(Edns { max_payload: 512, dnssec_ok: true });
                        }
                        proof {
                            assert(message@.queries =~= param_message(name@, query_type, p.dnssec, p.checking_disabled).queries);
                            assert(message@.answers =~= Seq::empty());
                            assert(message@.authorities =~= Seq::empty());
                            assert(message@.additionals =~= Seq::empty());
                        }
                        Ok(DohRequest::Raw(message))
                    },
                    None => Err(DohError::BadName),
                },
            },
        },
        None => Ok(DohRequest::Binary(body)),
    }
}

/// The ASCII text of a name: each label followed by a dot; `.` for the
/// root.
pub open spec fn name_text(labels: Seq<Seq<u8>>) -> Seq<u8> {
    if labels.len() == 0 {
        seq![46u8]
    } else {
        labels_text(labels)
    }
}

/// Each label followed by a dot.
pub open spec fn labels_text(labels: Seq<Seq<u8>>) -> Seq<u8>
    decreases labels.len(),
{
    if labels.len() == 0 {
        Seq::empty()
    } else {
        labels_text(labels.drop_last()) + labels.last() + seq![46u8]
    }
}

/// Lower-case hex digits of `n`, without leading zeros.
pub open spec fn hex_text(n: nat) -> Seq<u8>
    decreases n,
{
    if n < 16 {
        seq![hex_digit(n)]
    } else {
        hex_text(n / 16).push(hex_digit(n % 16))
    }
}

pub open spec fn hex_digit(d: nat) -> u8 {
    if d < 10 {
        (48 + d) as u8
    } else {
        (87 + d) as u8
    }
}

/// The dotted-decimal text of an IPv4 address.
pub open spec fn ipv4_text(a: Seq<u8>) -> Seq<u8> {
    decimal(a[0] as nat) + seq![46u8] + decimal(a[1] as nat) + seq![46u8] + decimal(a[2] as nat) + seq![46u8]
        + decimal(a[3] as nat)
}

/// The 16-bit group `i` of an IPv6 address.
pub open spec fn group(a: Seq<u8>, i: int) -> nat {
    (a[2 * i] as nat) * 256 + (a[2 * i + 1] as nat)
}

/// The groups `lo..hi` in hex, separated by colons.
pub open spec fn groups_text(a: Seq<u8>, lo: int, hi: int) -> Seq<u8>
    decreases hi - lo,
{
    if hi <= lo {
        Seq::empty()
    } else if hi == lo + 1 {
        hex_text(group(a, lo))
    } else {
        groups_text(a, lo, hi - 1) + seq![58u8] + hex_text(group(a, hi - 1))
    }
}

/// Scanning the first `n` groups: the first longest run of zero groups so
/// far (start, length) and the current run (start, length).
pub open spec fn zero_runs(a: Seq<u8>, n: int) -> (int, int, int, int)
    decreases n,
{
    if n <= 0 {
        (0, 0, 0, 0)
    } else {
        let prev = zero_runs(a, n - 1);
        if group(a, n - 1) == 0 {
            let cur = if prev.3 == 0 { (n - 1, 1) } else { (prev.2, prev.3 + 1) };
            if cur.1 > prev.1 {
                (cur.0, cur.1, cur.0, cur.1)
            } else {
                (prev.0, prev.1, cur.0, cur.1)
            }
        } else {
            (prev.0, prev.1, 0, 0)
        }
    }
}

/// Whether an IPv6 address maps an IPv4 one (`::ffff:a.b.c.d`).
pub open spec fn is_v4_mapped(a: Seq<u8>) -> bool {
    &&& forall|i: int| 0 <= i < 10 ==> a[i] == 0
    &&& a[10] == 255 && a[11] == 255
}

/// The text of an IPv6 address as the standard library writes it: a
/// mapped IPv4 address as `::ffff:` and its dotted text; else the groups in
/// hex, with the first longest run of two or more zero groups written `::`.
pub open spec fn ipv6_text(a: Seq<u8>) -> Seq<u8> {
    if is_v4_mapped(a) {
        seq![58u8, 58u8, 102u8, 102u8, 102u8, 102u8, 58u8] + ipv4_text(a.subrange(12, 16))
    } else {
        let r = zero_runs(a, 8);
        if r.1 > 1 {
            groups_text(a, 0, r.0) + seq![58u8, 58u8] + groups_text(a, r.0 + r.1, 8)
        } else {
            groups_text(a, 0, 8)
        }
    }
}

/// The text of record data: addresses, names, the SOA fields separated by
/// spaces, the TXT strings one after the other; nothing for other data.
pub open spec fn rdata_text(d: RDataV) -> Seq<u8> {
    match d {
        RDataV::A(a) => ipv4_text(a@),
        RDataV::AAAA(a) => ipv6_text(a@),
        RDataV::CNAME(n) => name_text(n),
        RDataV::NS(n) => name_text(n),
        RDataV::SOA(s) => soa_text(s),
        RDataV::TXT(t) => strings_text(t),
        RDataV::Other(_, _) => Seq::empty(),
    }
}

pub open spec fn soa_text(s: SoaV) -> Seq<u8> {
    name_text(s.mname) + seq![32u8] + name_text(s.rname) + seq![32u8] + decimal(s.serial as nat) + seq![32u8]
        + signed_text(s.refresh as int) + seq![32u8] + signed_text(s.retry as int) + seq![32u8]
        + signed_text(s.expire as int) + seq![32u8] + decimal(s.minimum as nat)
}

/// Decimal text of a signed number.
pub open spec fn signed_text(x: int) -> Seq<u8> {
    if x < 0 {
        seq![45u8] + decimal((-x) as nat)
    } else {
        decimal(x as nat)
    }
}

fn push_signed(v: &mut Vec<u8>, x: i32)
    ensures
        final(v)@ == old(v)@ + signed_text(x as int),
{
    if x < 0 {
        v.push(45);
        let m: i64 = -(x as i64);
        push_decimal(v, m as u32);
        assert(v@ =~= old(v)@ + signed_text(x as int));
    } else {
        push_decimal(v, x as u32);
    }
}

pub open spec fn strings_text(t: Seq<Seq<u8>>) -> Seq<u8>
    decreases t.len(),
{
    if t.len() == 0 {
        Seq::empty()
    } else {
        strings_text(t.drop_last()) + t.last()
    }
}

fn push_bytes(v: &mut Vec<u8>, b: &Vec<u8>)
    ensures
        final(v)@ == old(v)@ + b@,
{
    crate::octets::extend_bytes(v, b.as_slice());
}

/// Appends the text of a name.
pub fn push_name_text(v: &mut Vec<u8>, name: &Name)
    ensures
        final(v)@ == old(v)@ + name_text(name@),
{
    let n = name.labels.len();
    if n == 0 {
        v.push(46);
        return;
    }
    let ghost base = v@;
    let mut i: usize = 0;
    while i < n
        invariant
            n == name.labels@.len(),
            i <= n,
            v@ == base + labels_text(name@.take(i as int)),
        decreases n - i,
    {
        proof {
            assert(name@.take(i as int + 1).drop_last() =~= name@.take(i as int));
        }
        push_bytes(v, &name.labels[i]);
        v.push(46);
        i = i + 1;
        assert(v@ =~= base + labels_text(name@.take(i as int)));
    }
    assert(name@.take(n as int) =~= name@);
}

fn push_hex(v: &mut Vec<u8>, n: u16)
    ensures
        final(v)@ == old(v)@ + hex_text(n as nat),
    decreases n,
{
    if n >= 16 {
        push_hex(v, n / 16);
    }
    let d = n % 16;
    if d < 10 {
        v.push((48 + d) as u8);
    } else {
        v.push((87 + d) as u8);
    }
}

fn push_ipv4_text(v: &mut Vec<u8>, a: &[u8; 4])
    ensures
        final(v)@ == old(v)@ + ipv4_text(a@),
{
    let ghost base = v@;
    push_decimal(v, a[0] as u32);
    v.push(46);
    push_decimal(v, a[1] as u32);
    v.push(46);
    push_decimal(v, a[2] as u32);
    v.push(46);
    push_decimal(v, a[3] as u32);
    assert(v@ =~= base + ipv4_text(a@));
}

fn group_of(a: &[u8; 16], i: usize) -> (r: u16)
    requires
        i < 8,
    ensures
        r == group(a@, i as int),
{
    (a[2 * i] as u16) * 256 + (a[2 * i + 1] as u16)
}

fn push_groups(v: &mut Vec<u8>, a: &[u8; 16], lo: usize, hi: usize)
    requires
        lo <= hi <= 8,
    ensures
        final(v)@ == old(v)@ + groups_text(a@, lo as int, hi as int),
{
    let ghost base = v@;
    let mut i: usize = lo;
    while i < hi
        invariant
            lo <= i <= hi <= 8,
            v@ == base + groups_text(a@, lo as int, i as int),
        decreases hi - i,
    {
        if i > lo {
            v.push(58);
        }
        let g = group_of(a, i);
        push_hex(v, g);
        i = i + 1;
        assert(v@ =~= base + groups_text(a@, lo as int, i as int));
    }
}

/// Appends the text of an IPv6 address.
pub fn push_ipv6_text(v: &mut Vec<u8>, a: &[u8; 16])
    ensures
        final(v)@ == old(v)@ + ipv6_text(a@),
{
    let ghost base = v@;
    let mut mapped = a[10] == 255 && a[11] == 255;
    let mut k: usize = 0;
    while k < 10
        invariant
            k <= 10,
            mapped == ((forall|i: int| 0 <= i < k ==> a@[i] == 0) && a@[10] == 255 && a@[11] == 255),
        decreases 10 - k,
    {
        if a[k] != 0 {
            mapped = false;
        }
        k = k + 1;
    }
    if mapped {
        v.push(58);
        v.push(58);
        v.push(102);
        v.push(102);
        v.push(102);
        v.push(102);
        v.push(58);
        let b: [u8; 4] = [a[12], a[13], a[14], a[15]];
        assert(b@ =~= a@.subrange(12, 16));
        push_ipv4_text(v, &b);
        assert(v@ =~= base + ipv6_text(a@));
        return;
    }
    let mut best_start: usize = 0;
    let mut best_len: usize = 0;
    let mut cur_start: usize = 0;
    let mut cur_len: usize = 0;
    let mut i: usize = 0;
    while i < 8
        invariant
            i <= 8,
            zero_runs(a@, i as int) == (best_start as int, best_len as int, cur_start as int, cur_len as int),
            best_start + best_len <= i,
            cur_start + cur_len <= i,
        decreases 8 - i,
    {
        if group_of(a, i) == 0 {
            if cur_len == 0 {
                cur_start = i;
            }
            cur_len = cur_len + 1;
            if cur_len > best_len {
                best_start = cur_start;
                best_len = cur_len;
            }
        } else {
            cur_start = 0;
            cur_len = 0;
        }
        i = i + 1;
    }
    if best_len > 1 {
        push_groups(v, a, 0, best_start);
        v.push(58);
        v.push(58);
        push_groups(v, a, best_start + best_len, 8);
    } else {
        push_groups(v, a, 0, 8);
    }
    assert(v@ =~= base + ipv6_text(a@));
}

fn push_soa_text(v: &mut Vec<u8>, s: &crate::message::Soa)
    ensures
        final(v)@ == old(v)@ + soa_text(s@),
{
    let ghost base = v@;
    push_name_text(v, &s.mname);
    v.push(32);
    push_name_text(v, &s.rname);
    v.push(32);
    push_decimal(v, s.serial);
    v.push(32);
    push_signed(v, s.refresh);
    v.push(32);
    push_signed(v, s.retry);
    v.push(32);
    push_signed(v, s.expire);
    v.push(32);
    push_decimal(v, s.minimum);
    assert(v@ =~= base + soa_text(s@));
}

fn push_strings_text(v: &mut Vec<u8>, t: &Vec<Vec<u8>>)
    ensures
        final(v)@ == old(v)@ + strings_text(crate::message::label_seqs(t@)),
{
    let ghost base = v@;
    let ghost all = crate::message::label_seqs(t@);
    let n = t.len();
    let mut i: usize = 0;
    while i < n
        invariant
            n == t@.len(),
            all == crate::message::label_seqs(t@),
            i <= n,
            v@ == base + strings_text(all.take(i as int)),
        decreases n - i,
    {
        proof {
            assert(all.take(i as int + 1).drop_last() =~= all.take(i as int));
            assert(all[i as int] == t@[i as int]@);
        }
        push_bytes(v, &t[i]);
        i = i + 1;
        assert(v@ =~= base + strings_text(all.take(i as int)));
    }
    assert(all.take(n as int) =~= all);
}

/// Appends the text of record data.
pub fn push_rdata_text(v: &mut Vec<u8>, d: &RData)
    ensures
        final(v)@ == old(v)@ + rdata_text(d@),
{
    match d {
        RData::A(a) => push_ipv4_text(v, a),
        RData::AAAA(a) => push_ipv6_text(v, a),
        RData::CNAME(n) => push_name_text(v, n),
        RData::NS(n) => push_name_text(v, n),
        RData::SOA(s) => push_soa_text(v, s),
        RData::TXT(t) => push_strings_text(v, t),
        RData::Other(_, _) => {
            assert(v@ =~= old(v)@ + rdata_text(d@));
        },
    }
}

/// A question of the JSON view: the name's text and the type's number.
#[derive(Debug)]
pub struct DohQuestion {
    pub name: Vec<u8>,
    pub qtype: u16,
}

/// An answer record of the JSON view: name, type number, TTL and data, as
/// text.
#[derive(Debug)]
pub struct DohAnswer {
    pub name: Vec<u8>,
    pub rtype: u16,
    pub ttl: u32,
    pub data: Vec<u8>,
}

/// The JSON view of an answer: response code, the TC, RD, RA, AD and CD
/// bits, the questions and the answer records.
#[derive(Debug)]
pub struct DohJson {
    pub status: u16,
    pub tc: bool,
    pub rd: bool,
    pub ra: bool,
    pub ad: bool,
    pub cd: bool,
    pub question: Vec<DohQuestion>,
    pub answer: Vec<DohAnswer>,
}

/// The value of a JSON question.
pub open spec fn question_view(q: DohQuestion) -> (Seq<u8>, u16) {
    (q.name@, q.qtype)
}

/// The value of a JSON answer.
pub open spec fn answer_view(a: DohAnswer) -> (Seq<u8>, u16, u32, Seq<u8>) {
    (a.name@, a.rtype, a.ttl, a.data@)
}

/// The JSON question for a question.
pub open spec fn json_question(q: QueryV) -> (Seq<u8>, u16) {
    (name_text(q.name), type_code(q.query_type))
}

/// The JSON answer for a record.
pub open spec fn json_answer(r: RecordV) -> (Seq<u8>, u16, u32, Seq<u8>) {
    (name_text(r.name), type_code(crate::message::rdata_type(r.data)), r.ttl, rdata_text(r.data))
}

impl DohJson {
    /// The JSON view of a message.
    pub fn from_message(m: &Message) -> (r: DohJson)
        ensures
            r.status == rcode_value(m@.header.response_code),
            r.tc == m@.header.truncated,
            r.rd == m@.header.recursion_desired,
            r.ra == m@.header.recursion_available,
            r.ad == m@.header.authentic_data,
            r.cd == m@.header.checking_disabled,
            r.question@.len() == m@.queries.len(),
            forall|i: int| 0 <= i < m@.queries.len() ==> question_view(#[trigger] r.question@[i]) == json_question(m@.queries[i]),
            r.answer@.len() == m@.answers.len(),
            forall|i: int| 0 <= i < m@.answers.len() ==> answer_view(#[trigger] r.answer@[i]) == json_answer(m@.answers[i]),
    {
        let mut question: Vec<DohQuestion> = Vec::new();
        let nq = m.queries.len();
        let mut i: usize = 0;
        while i < nq
            invariant
                nq == m@.queries.len(),
                i <= nq,
                question@.len() == i,
                forall|j: int| 0 <= j < i ==> question_view(#[trigger] question@[j]) == json_question(m@.queries[j]),
            decreases nq - i,
        {
            let q = &m.queries[i];
            let mut name: Vec<u8> = Vec::new();
            push_name_text(&mut name, &q.name);
            assert(name@ =~= name_text(q.name@));
            question.push(DohQuestion { name, qtype: q.query_type.code() });
            i = i + 1;
        }
        let mut answer: Vec<DohAnswer> = Vec::new();
        let na = m.answers.len();
        let mut k: usize = 0;
        while k < na
            invariant
                na == m@.answers.len(),
                k <= na,
                answer@.len() == k,
                forall|j: int| 0 <= j < k ==> answer_view(#[trigger] answer@[j]) == json_answer(m@.answers[j]),
            decreases na - k,
        {
            let r = &m.answers[k];
            let mut name: Vec<u8> = Vec::new();
            push_name_text(&mut name, &r.name);
            assert(name@ =~= name_text(r.name@));
            let mut data: Vec<u8> = Vec::new();
            push_rdata_text(&mut data, &r.data);
            assert(data@ =~= rdata_text(r.data@));
            answer.push(DohAnswer { name, rtype: r.record_type().code(), ttl: r.ttl, data });
            k = k + 1;
        }
        DohJson {
            status: m.header.response_code.value(),
            tc: m.header.truncated,
            rd: m.header.recursion_desired,
            ra: m.header.recursion_available,
            ad: m.header.authentic_data,
            cd: m.header.checking_disabled,
            question,
            answer,
        }
    }
}

} // verus!
