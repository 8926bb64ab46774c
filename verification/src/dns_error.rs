//! Lookup failures, and the negative answers made from them.
use vstd::prelude::*;
use vstd::std_specs::convert::FromSpecImpl;
use vstd::string::StringSliceAdditionalSpecFns;
use crate::message::{Name, Query, QueryV, Record, RecordV, RData, RDataV, Soa, SoaV, ResponseCode, MessageV,
    Header, record_views};
use crate::response::{DnsResponse, ProbeResult, answer_message};

verus! {

/// The SOA data of locally made negative answers.
pub trait DefaultSOA: Sized {
    fn default_soa() -> Self;
}

/// The bytes of a text label.
fn label_of(s: &str) -> (r: Vec<u8>)
    ensures
        r@ == s.spec_bytes(),
{
    let b = s.as_bytes();
    let mut r: Vec<u8> = Vec::new();
    crate::octets::extend_bytes(&mut r, b);
    r
}

/// The value of the default SOA data: `a.gtld-servers.net`,
/// `nstld.verisign-grs.com`, serial and refresh 1800, retry 900, expire one
/// week, minimum one day.
pub open spec fn default_soa_view() -> SoaV {
    SoaV {
        mname: seq!["a".spec_bytes(), "gtld-servers".spec_bytes(), "net".spec_bytes()],
        rname: seq!["nstld".spec_bytes(), "verisign-grs".spec_bytes(), "com".spec_bytes()],
        serial: 1800,
        refresh: 1800,
        retry: 900,
        expire: 604800,
        minimum: 86400,
    }
}

impl DefaultSOA for Soa {
    fn default_soa() -> (r: Soa)
        ensures
            r@ == default_soa_view(),
    {
        let mut m: Vec<Vec<u8>> = Vec::new();
        m.push(label_of("a"));
        m.push(label_of("gtld-servers"));
        m.push(label_of("net"));
        let mut n: Vec<Vec<u8>> = Vec::new();
        n.push(label_of("nstld"));
        n.push(label_of("verisign-grs"));
        n.push(label_of("com"));
        let r = Soa {
            mname: Name { labels: m },
            rname: Name { labels: n },
            serial: 1800,
            refresh: 1800,
            retry: 900,
            expire: 604800,
            minimum: 86400,
        };
        assert(r@.mname =~= default_soa_view().mname);
        assert(r@.rname =~= default_soa_view().rname);
        r
    }
}

impl DefaultSOA for RData {
    fn default_soa() -> (r: RData)
        ensures
            r@ == RDataV::SOA(default_soa_view()),
    {
        RData::SOA(Soa::default_soa())
    }
}

/// What an authority said about a name that has no records of the asked type.
#[derive(Debug)]
pub struct AuthorityData {
    pub query: Query,
    pub soa: Option<Record>,
    pub no_records: bool,
    pub nx_domain: bool,
    pub authorities: Option<Vec<Record>>,
}

impl AuthorityData {
    pub fn new(query: Query, soa: Option<Record>, no_records: bool, nx_domain: bool,
        authorities: Option<Vec<Record>>) -> (r: AuthorityData)
        ensures
            r == (AuthorityData { query, soa, no_records, nx_domain, authorities }),
    {
        AuthorityData { query, soa, no_records, nx_domain, authorities }
    }
}

/// An answer without records: the question, the authority's SOA record if
/// it sent one, and the response code (NoError for NODATA, NXDomain when
/// the name does not exist).
#[derive(Debug)]
pub struct NoRecords {
    pub query: Query,
    pub soa: Option<Record>,
    pub negative_ttl: Option<u32>,
    pub response_code: ResponseCode,
    pub trusted: bool,
    pub authorities: Option<Vec<Record>>,
}

impl NoRecords {
    /// No records for `query`, without SOA, TTL or authorities, untrusted.
    pub fn new(query: Query, response_code: ResponseCode) -> (r: NoRecords)
        ensures
            r == (NoRecords { query, soa: None, negative_ttl: None, response_code, trusted: false, authorities: None }),
    {
        NoRecords { query, soa: None, negative_ttl: None, response_code, trusted: false, authorities: None }
    }
}

/// The response code that authority data stands for.
pub open spec fn authority_code(data: AuthorityData) -> ResponseCode {
    if data.nx_domain {
        ResponseCode::NXDomain
    } else {
        ResponseCode::NoError
    }
}

impl From<AuthorityData> for NoRecords {
    fn from(data: AuthorityData) -> (r: NoRecords) {
        let code = if data.nx_domain { ResponseCode::NXDomain } else { ResponseCode::NoError };
        let mut r = NoRecords::new(data.query, code);
        r.soa = data.soa;
        r.authorities = data.authorities;
        r
    }
}

impl FromSpecImpl<AuthorityData> for NoRecords {
    open spec fn obeys_from_spec() -> bool {
        true
    }

    open spec fn from_spec(data: AuthorityData) -> NoRecords {
        NoRecords {
            query: data.query,
            soa: data.soa,
            negative_ttl: None,
            response_code: authority_code(data),
            trusted: false,
            authorities: data.authorities,
        }
    }
}

/// The kinds of protocol failure a lookup can meet.
#[derive(Debug)]
pub enum ProtoErrorKind {
    /// The authority answered without records.
    NoRecordsFound(NoRecords),
    /// No connection to an upstream could be made.
    NoConnections,
    /// The request timed out.
    Timeout,
    /// The upstream was busy.
    Busy,
    /// Any other failure, described.
    Msg(String),
}

/// A protocol failure.
#[derive(Debug)]
pub struct ProtoError {
    pub kind: ProtoErrorKind,
}

impl ProtoError {
    pub fn kind(&self) -> (r: &ProtoErrorKind)
        ensures
            *r == self.kind,
    {
        &self.kind
    }
}

impl From<ProtoErrorKind> for ProtoError {
    fn from(kind: ProtoErrorKind) -> (r: ProtoError) {
        ProtoError { kind }
    }
}

impl FromSpecImpl<ProtoErrorKind> for ProtoError {
    open spec fn obeys_from_spec() -> bool {
        true
    }

    open spec fn from_spec(kind: ProtoErrorKind) -> ProtoError {
        ProtoError { kind }
    }
}

/// A query that could not be fulfilled.
#[derive(Debug)]
pub enum LookupError {
    /// The name exists, but not with the record type asked for.
    NameExists,
    /// The lookup ended with this response code.
    ResponseCode(ResponseCode),
    /// A protocol failure.
    Proto(ProtoError),
    /// An I/O failure, described.
    Io(String),
}

impl From<ResponseCode> for LookupError {
    fn from(code: ResponseCode) -> (r: LookupError) {
        LookupError::ResponseCode(code)
    }
}

impl FromSpecImpl<ResponseCode> for LookupError {
    open spec fn obeys_from_spec() -> bool {
        true
    }

    open spec fn from_spec(code: ResponseCode) -> LookupError {
        LookupError::ResponseCode(code)
    }
}

impl From<ProtoErrorKind> for LookupError {
    fn from(kind: ProtoErrorKind) -> (r: LookupError) {
        LookupError::Proto(ProtoError { kind })
    }
}

impl FromSpecImpl<ProtoErrorKind> for LookupError {
    open spec fn obeys_from_spec() -> bool {
        true
    }

    open spec fn from_spec(kind: ProtoErrorKind) -> LookupError {
        LookupError::Proto(ProtoError { kind })
    }
}

/// The no-records answer an error carries, if it is one.
pub open spec fn no_records_of(e: LookupError) -> Option<NoRecords> {
    match e {
        LookupError::Proto(p) => match p.kind {
            ProtoErrorKind::NoRecordsFound(n) => Some(n),
            _ => None,
        },
        _ => None,
    }
}

/// Whether an error says that the name does not exist.
pub open spec fn spec_is_nx_domain(e: LookupError) -> bool {
    ||| e matches LookupError::ResponseCode(ResponseCode::NXDomain)
    ||| (no_records_of(e) is Some && no_records_of(e)->0.response_code == ResponseCode::NXDomain)
}

/// Whether an error is a valid negative answer (NODATA or NXDOMAIN) rather
/// than an upstream failure.
pub open spec fn spec_is_negative(e: LookupError) -> bool {
    ||| spec_is_nx_domain(e)
    ||| (no_records_of(e) is Some && no_records_of(e)->0.response_code == ResponseCode::NoError)
}

/// The authority section of a no-records answer.
pub open spec fn soa_section(soa: Option<Record>) -> Seq<RecordV> {
    match soa {
        Some(r) => seq![r@],
        None => Seq::empty(),
    }
}

/// The message of the answer made from a no-records error.
pub open spec fn no_records_message(query: QueryV, n: NoRecords) -> MessageV {
    let m = answer_message(query, Seq::empty());
    MessageV {
        header: Header { response_code: n.response_code, ..m.header },
        authorities: soa_section(n.soa),
        ..m
    }
}

impl LookupError {
    /// Whether this is a valid NODATA or NXDOMAIN answer, rather than an
    /// upstream failure.
    pub fn is_negative_response(&self) -> (r: bool)
        ensures
            r == spec_is_negative(*self),
    {
        if self.is_nx_domain() {
            return true;
        }
        match self {
            LookupError::Proto(p) => match &p.kind {
                ProtoErrorKind::NoRecordsFound(n) => match n.response_code {
                    ResponseCode::NoError => true,
                    _ => false,
                },
                _ => false,
            },
            _ => false,
        }
    }

    /// Whether the name does not exist.
    pub fn is_nx_domain(&self) -> (r: bool)
        ensures
            r == spec_is_nx_domain(*self),
    {
        match self {
            LookupError::ResponseCode(ResponseCode::NXDomain) => true,
            LookupError::Proto(p) => match &p.kind {
                ProtoErrorKind::NoRecordsFound(n) => match n.response_code {
                    ResponseCode::NXDomain => true,
                    _ => false,
                },
                _ => false,
            },
            _ => false,
        }
    }

    /// Whether the error carries the authority's SOA record.
    pub fn is_soa(&self) -> (r: bool)
        ensures
            r == (no_records_of(*self) is Some && no_records_of(*self)->0.soa is Some),
    {
        match self {
            LookupError::Proto(p) => match &p.kind {
                ProtoErrorKind::NoRecordsFound(n) => n.soa.is_some(),
                _ => false,
            },
            _ => false,
        }
    }

    /// The answer to `query` that holds only the carried SOA record, valid
    /// for the maximum TTL; `None` when the error carries no SOA record.
    pub fn as_soa(&self, query: &Query) -> (r: Option<DnsResponse>)
        ensures
            r is Some <==> (no_records_of(*self) is Some && no_records_of(*self)->0.soa is Some),
            r matches Some(resp) ==> resp.spec_message() == (MessageV {
                authorities: seq![no_records_of(*self)->0.soa->0@],
                ..answer_message(query@, Seq::empty())
            }),
            r matches Some(resp) ==> resp.spec_prepared() is None && resp.spec_wire_len() is None
                && resp.spec_group() is None && resp.spec_probe() == ProbeResult::Unchecked,
    {
        match self {
            LookupError::Proto(p) => match &p.kind {
                ProtoErrorKind::NoRecordsFound(n) => match &n.soa {
                    Some(record) => {
                        let empty: Vec<Record> = Vec::new();
                        assert(record_views(empty@) =~= Seq::<RecordV>::empty());
                        let mut resp = DnsResponse::new_with_max_ttl(query.clone(), empty);
                        resp.add_authority(record.clone());
                        assert(resp.spec_message().authorities =~= seq![record@]);
                        Some(resp)
                    },
                    None => None,
                },
                _ => None,
            },
            _ => None,
        }
    }

    /// The answer to `query` made from a no-records error: its response
    /// code, and the SOA record when the error carries one; `None` for any
    /// other error.
    pub fn as_no_records_response(&self, query: &Query) -> (r: Option<DnsResponse>)
        ensures
            r is Some <==> no_records_of(*self) is Some,
            r matches Some(resp) ==> resp.spec_message() == no_records_message(query@, no_records_of(*self)->0),
            r matches Some(resp) ==> resp.spec_prepared() is None && resp.spec_wire_len() is None
                && resp.spec_group() is None && resp.spec_probe() == ProbeResult::Unchecked,
    {
        match self {
            LookupError::Proto(p) => match &p.kind {
                ProtoErrorKind::NoRecordsFound(n) => {
                    let empty: Vec<Record> = Vec::new();
                    assert(record_views(empty@) =~= Seq::<RecordV>::empty());
                    let mut resp = DnsResponse::new_with_max_ttl(query.clone(), empty);
                    resp.set_response_code(n.response_code);
                    match &n.soa {
                        Some(record) => {
                            resp.add_authority(record.clone());
                        },
                        None => {},
                    }
                    assert(resp.spec_message().authorities =~= soa_section(n.soa));
                    assert(resp.spec_message() =~= no_records_message(query@, *n));
                    Some(resp)
                },
                _ => None,
            },
            _ => None,
        }
    }

    /// A server failure for `query` that carries the default SOA record for
    /// the query name with `ttl`.
    pub fn no_records_found(query: Query, ttl: u32) -> (r: LookupError)
        ensures
            no_records_of(r) is Some,
            no_records_of(r)->0.query@ == query@,
            no_records_of(r)->0.response_code == ResponseCode::ServFail,
            no_records_of(r)->0.soa matches Some(s) && s@ == (RecordV {
                name: query@.name,
                dns_class: 1,
                ttl,
                data: RDataV::SOA(default_soa_view()),
            }),
            no_records_of(r)->0.negative_ttl is None,
            !no_records_of(r)->0.trusted,
            no_records_of(r)->0.authorities is None,
    {
        let soa = Record::from_rdata(query.name.clone(), ttl, RData::default_soa());
        let data = AuthorityData::new(query, Some(soa), true, true, None);
        let mut no_records = NoRecords::from(data);
        no_records.response_code = ResponseCode::ServFail;
        LookupError::from(ProtoErrorKind::NoRecordsFound(no_records))
    }
}

} // verus!
