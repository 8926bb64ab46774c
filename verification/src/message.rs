//! The DNS message model: names, records, queries and messages.
use vstd::prelude::*;
use crate::net::IpAddress;

verus! {

/// A domain name as its labels, leftmost first; the root has no labels.
#[derive(Debug, PartialEq, Eq)]
pub struct Name {
    pub labels: Vec<Vec<u8>>,
}

/// The labels of a name as byte sequences.
pub open spec fn label_seqs(v: Seq<Vec<u8>>) -> Seq<Seq<u8>> {
    v.map_values(|l: Vec<u8>| l@)
}

impl View for Name {
    type V = Seq<Seq<u8>>;

    open spec fn view(&self) -> Seq<Seq<u8>> {
        label_seqs(self.labels@)
    }
}

/// A copy of a byte vector.
pub fn copy_bytes(v: &Vec<u8>) -> (r: Vec<u8>)
    ensures
        r@ == v@,
{
    let mut r: Vec<u8> = Vec::new();
    crate::octets::extend_bytes(&mut r, v.as_slice());
    r
}

/// A copy of a list of byte vectors.
pub fn copy_byte_lists(v: &Vec<Vec<u8>>) -> (r: Vec<Vec<u8>>)
    ensures
        label_seqs(r@) == label_seqs(v@),
{
    let mut r: Vec<Vec<u8>> = Vec::new();
    let mut i: usize = 0;
    while i < v.len()
        invariant
            i <= v@.len(),
            r@.len() == i,
            forall|j: int| 0 <= j < i ==> #[trigger] r@[j]@ == v@[j]@,
        decreases v.len() - i,
    {
        let c = copy_bytes(&v[i]);
        assert(c@ == v@[i as int]@);
        r.push(c);
        i = i + 1;
    }
    assert(label_seqs(r@) =~= label_seqs(v@));
    r
}

impl Clone for Name {
    fn clone(&self) -> (r: Self)
        ensures
            r@ == self@,
    {
        Name { labels: copy_byte_lists(&self.labels) }
    }
}

impl Name {
    pub open spec fn view_labels(&self) -> Seq<Seq<u8>> {
        label_seqs(self.labels@)
    }

    /// The root name.
    pub fn root() -> (r: Name)
        ensures
            r.view_labels() == Seq::<Seq<u8>>::empty(),
    {
        let r = Name { labels: Vec::new() };
        assert(r.view_labels() =~= Seq::<Seq<u8>>::empty());
        r
    }

    /// Number of bytes of the name in text form with its trailing dot: one
    /// dot per label (the root is a single dot) and the label bytes;
    /// `usize::MAX` if that does not fit.
    pub fn len(&self) -> (r: usize)
        ensures
            r == (if name_text_len(self.view_labels()) <= usize::MAX {
                name_text_len(self.view_labels()) as usize
            } else {
                usize::MAX
            }),
    {
        let mut total: usize = 0;
        let mut i: usize = 0;
        while i < self.labels.len()
            invariant
                i <= self.labels@.len(),
                self.view_labels().len() == self.labels@.len(),
                total == (if label_bytes(self.view_labels().take(i as int)) <= usize::MAX {
                    label_bytes(self.view_labels().take(i as int)) as usize
                } else {
                    usize::MAX
                }),
            decreases self.labels.len() - i,
        {
            assert(self.view_labels()[i as int] == self.labels@[i as int]@);
            proof {
                let t = self.view_labels().take(i + 1);
                assert(t.drop_last() =~= self.view_labels().take(i as int));
            }
            total = total.saturating_add(self.labels[i].len());
            i = i + 1;
        }
        assert(self.view_labels().take(self.labels@.len() as int) =~= self.view_labels());
        let dots = if self.labels.len() == 0 { 1 } else { self.labels.len() };
        total.saturating_add(dots)
    }
}

/// Total bytes of the labels.
pub open spec fn label_bytes(labels: Seq<Seq<u8>>) -> nat
    decreases labels.len(),
{
    if labels.len() == 0 {
        0
    } else {
        label_bytes(labels.drop_last()) + labels.last().len()
    }
}

/// Length of the text form of a name with its trailing dot.
pub open spec fn name_text_len(labels: Seq<Seq<u8>>) -> nat {
    (if labels.len() == 0 { 1 } else { labels.len() }) + label_bytes(labels)
}

/// The type of a record or of a query.
#[derive(Clone, Copy, Debug, PartialEq, Eq, Structural)]
pub enum RecordType {
    A,
    NS,
    CNAME,
    SOA,
    PTR,
    MX,
    TXT,
    AAAA,
    SRV,
    OPT,
    SVCB,
    HTTPS,
    ANY,
    Unknown(u16),
}

/// The numeric code of a record type.
pub open spec fn type_code(t: RecordType) -> u16 {
    match t {
        RecordType::A => 1,
        RecordType::NS => 2,
        RecordType::CNAME => 5,
        RecordType::SOA => 6,
        RecordType::PTR => 12,
        RecordType::MX => 15,
        RecordType::TXT => 16,
        RecordType::AAAA => 28,
        RecordType::SRV => 33,
        RecordType::OPT => 41,
        RecordType::SVCB => 64,
        RecordType::HTTPS => 65,
        RecordType::ANY => 255,
        RecordType::Unknown(c) => c,
    }
}

/// The record type with a numeric code.
pub open spec fn type_of_code(c: u16) -> RecordType {
    if c == 1 {
        RecordType::A
    } else if c == 2 {
        RecordType::NS
    } else if c == 5 {
        RecordType::CNAME
    } else if c == 6 {
        RecordType::SOA
    } else if c == 12 {
        RecordType::PTR
    } else if c == 15 {
        RecordType::MX
    } else if c == 16 {
        RecordType::TXT
    } else if c == 28 {
        RecordType::AAAA
    } else if c == 33 {
        RecordType::SRV
    } else if c == 41 {
        RecordType::OPT
    } else if c == 64 {
        RecordType::SVCB
    } else if c == 65 {
        RecordType::HTTPS
    } else if c == 255 {
        RecordType::ANY
    } else {
        RecordType::Unknown(c)
    }
}

impl RecordType {
    pub fn code(self) -> (r: u16)
        ensures
            r == type_code(self),
    {
        match self {
            RecordType::A => 1,
            RecordType::NS => 2,
            RecordType::CNAME => 5,
            RecordType::SOA => 6,
            RecordType::PTR => 12,
            RecordType::MX => 15,
            RecordType::TXT => 16,
            RecordType::AAAA => 28,
            RecordType::SRV => 33,
            RecordType::OPT => 41,
            RecordType::SVCB => 64,
            RecordType::HTTPS => 65,
            RecordType::ANY => 255,
            RecordType::Unknown(c) => c,
        }
    }

    pub fn from_code(c: u16) -> (r: RecordType)
        ensures
            r == type_of_code(c),
    {
        if c == 1 {
            RecordType::A
        } else if c == 2 {
            RecordType::NS
        } else if c == 5 {
            RecordType::CNAME
        } else if c == 6 {
            RecordType::SOA
        } else if c == 12 {
            RecordType::PTR
        } else if c == 15 {
            RecordType::MX
        } else if c == 16 {
            RecordType::TXT
        } else if c == 28 {
            RecordType::AAAA
        } else if c == 33 {
            RecordType::SRV
        } else if c == 41 {
            RecordType::OPT
        } else if c == 64 {
            RecordType::SVCB
        } else if c == 65 {
            RecordType::HTTPS
        } else if c == 255 {
            RecordType::ANY
        } else {
            RecordType::Unknown(c)
        }
    }

    pub open spec fn spec_is_ip_addr(self) -> bool {
        self == RecordType::A || self == RecordType::AAAA
    }

    /// Whether the type asks for an address (A or AAAA).
    #[verifier::when_used_as_spec(spec_is_ip_addr)]
    pub fn is_ip_addr(self) -> (r: bool)
        ensures
            r == self.spec_is_ip_addr(),
    {
        match self {
            RecordType::A | RecordType::AAAA => true,
            _ => false,
        }
    }
}

/// The start-of-authority data of a zone.
#[derive(Debug, PartialEq, Eq)]
pub struct Soa {
    pub mname: Name,
    pub rname: Name,
    pub serial: u32,
    pub refresh: i32,
    pub retry: i32,
    pub expire: i32,
    pub minimum: u32,
}

/// The value of SOA data.
pub struct SoaV {
    pub mname: Seq<Seq<u8>>,
    pub rname: Seq<Seq<u8>>,
    pub serial: u32,
    pub refresh: i32,
    pub retry: i32,
    pub expire: i32,
    pub minimum: u32,
}

impl View for Soa {
    type V = SoaV;

    open spec fn view(&self) -> SoaV {
        SoaV {
            mname: self.mname@,
            rname: self.rname@,
            serial: self.serial,
            refresh: self.refresh,
            retry: self.retry,
            expire: self.expire,
            minimum: self.minimum,
        }
    }
}

impl Clone for Soa {
    fn clone(&self) -> (r: Self)
        ensures
            r@ == self@,
    {
        Soa {
            mname: self.mname.clone(),
            rname: self.rname.clone(),
            serial: self.serial,
            refresh: self.refresh,
            retry: self.retry,
            expire: self.expire,
            minimum: self.minimum,
        }
    }
}

/// The data of a record.
#[derive(Debug, PartialEq, Eq)]
pub enum RData {
    A([u8; 4]),
    AAAA([u8; 16]),
    CNAME(Name),
    NS(Name),
    SOA(Soa),
    TXT(Vec<Vec<u8>>),
    /// Any other type, with its raw data.
    Other(u16, Vec<u8>),
}

/// The value of record data.
pub enum RDataV {
    A([u8; 4]),
    AAAA([u8; 16]),
    CNAME(Seq<Seq<u8>>),
    NS(Seq<Seq<u8>>),
    SOA(SoaV),
    TXT(Seq<Seq<u8>>),
    Other(u16, Seq<u8>),
}

impl View for RData {
    type V = RDataV;

    open spec fn view(&self) -> RDataV {
        match self {
            RData::A(a) => RDataV::A(*a),
            RData::AAAA(a) => RDataV::AAAA(*a),
            RData::CNAME(n) => RDataV::CNAME(n@),
            RData::NS(n) => RDataV::NS(n@),
            RData::SOA(s) => RDataV::SOA(s@),
            RData::TXT(t) => RDataV::TXT(label_seqs(t@)),
            RData::Other(c, raw) => RDataV::Other(*c, raw@),
        }
    }
}

impl Clone for RData {
    fn clone(&self) -> (r: Self)
        ensures
            r@ == self@,
    {
        match self {
            RData::A(a) => RData::A(*a),
            RData::AAAA(a) => RData::AAAA(*a),
            RData::CNAME(n) => RData::CNAME(n.clone()),
            RData::NS(n) => RData::NS(n.clone()),
            RData::SOA(s) => RData::SOA(s.clone()),
            RData::TXT(t) => RData::TXT(copy_byte_lists(t)),
            RData::Other(c, raw) => RData::Other(*c, copy_bytes(raw)),
        }
    }
}

/// The type of a record with the given data.
pub open spec fn rdata_type(d: RDataV) -> RecordType {
    match d {
        RDataV::A(_) => RecordType::A,
        RDataV::AAAA(_) => RecordType::AAAA,
        RDataV::CNAME(_) => RecordType::CNAME,
        RDataV::NS(_) => RecordType::NS,
        RDataV::SOA(_) => RecordType::SOA,
        RDataV::TXT(_) => RecordType::TXT,
        RDataV::Other(c, _) => type_of_code(c),
    }
}

/// The address held by address data.
pub open spec fn rdata_ip(d: RDataV) -> Option<IpAddress> {
    match d {
        RDataV::A(a) => Some(IpAddress::V4(a)),
        RDataV::AAAA(a) => Some(IpAddress::V6(a)),
        _ => None,
    }
}

impl RData {
    /// The type of a record holding this data.
    pub fn record_type(&self) -> (r: RecordType)
        ensures
            r == rdata_type(self@),
    {
        match self {
            RData::A(_) => RecordType::A,
            RData::AAAA(_) => RecordType::AAAA,
            RData::CNAME(_) => RecordType::CNAME,
            RData::NS(_) => RecordType::NS,
            RData::SOA(_) => RecordType::SOA,
            RData::TXT(_) => RecordType::TXT,
            RData::Other(c, _) => RecordType::from_code(*c),
        }
    }

    /// The address held by A or AAAA data.
    pub fn ip_addr(&self) -> (r: Option<IpAddress>)
        ensures
            r == rdata_ip(self@),
    {
        match self {
            RData::A(a) => Some(IpAddress::V4(*a)),
            RData::AAAA(a) => Some(IpAddress::V6(*a)),
            _ => None,
        }
    }

    /// The data of an A or AAAA record for an address.
    pub fn from_ip(ip: IpAddress) -> (r: RData)
        ensures
            rdata_ip(r@) == Some(ip),
    {
        match ip {
            IpAddress::V4(a) => RData::A(a),
            IpAddress::V6(a) => RData::AAAA(a),
        }
    }
}

/// A resource record.
#[derive(Debug, PartialEq, Eq)]
pub struct Record {
    pub name: Name,
    pub dns_class: u16,
    pub ttl: u32,
    pub data: RData,
}

/// The value of a record.
pub struct RecordV {
    pub name: Seq<Seq<u8>>,
    pub dns_class: u16,
    pub ttl: u32,
    pub data: RDataV,
}

impl View for Record {
    type V = RecordV;

    open spec fn view(&self) -> RecordV {
        RecordV { name: self.name@, dns_class: self.dns_class, ttl: self.ttl, data: self.data@ }
    }
}

impl Clone for Record {
    fn clone(&self) -> (r: Self)
        ensures
            r@ == self@,
    {
        Record { name: self.name.clone(), dns_class: self.dns_class, ttl: self.ttl, data: self.data.clone() }
    }
}

/// The values of a list of records.
pub open spec fn record_views(rs: Seq<Record>) -> Seq<RecordV> {
    rs.map_values(|r: Record| r@)
}

impl Record {
    /// A record of class IN.
    pub fn from_rdata(name: Name, ttl: u32, data: RData) -> (r: Record)
        ensures
            r@ == (RecordV { name: name@, dns_class: 1, ttl, data: data@ }),
    {
        Record { name, dns_class: 1, ttl, data }
    }

    pub fn record_type(&self) -> (r: RecordType)
        ensures
            r == rdata_type(self.data@),
    {
        self.data.record_type()
    }
}

/// A question.
#[derive(Debug, PartialEq, Eq)]
pub struct Query {
    pub name: Name,
    pub query_type: RecordType,
    pub query_class: u16,
}

/// The value of a question.
pub struct QueryV {
    pub name: Seq<Seq<u8>>,
    pub query_type: RecordType,
    pub query_class: u16,
}

impl View for Query {
    type V = QueryV;

    open spec fn view(&self) -> QueryV {
        QueryV { name: self.name@, query_type: self.query_type, query_class: self.query_class }
    }
}

impl Clone for Query {
    fn clone(&self) -> (r: Self)
        ensures
            r@ == self@,
    {
        Query { name: self.name.clone(), query_type: self.query_type, query_class: self.query_class }
    }
}

/// The values of a list of questions.
pub open spec fn query_views(qs: Seq<Query>) -> Seq<QueryV> {
    qs.map_values(|q: Query| q@)
}

impl Query {
    /// A question of class IN.
    pub fn query(name: Name, query_type: RecordType) -> (r: Query)
        ensures
            r@ == (QueryV { name: name@, query_type, query_class: 1 }),
    {
        Query { name, query_type, query_class: 1 }
    }

    /// The question for the root name, type A, class IN.
    pub fn default_query() -> (r: Query)
        ensures
            r@ == (QueryV { name: Seq::empty(), query_type: RecordType::A, query_class: 1 }),
    {
        Query { name: Name::root(), query_type: RecordType::A, query_class: 1 }
    }
}

/// The response code of a message, with extended codes as numbers.
#[derive(Clone, Copy, Debug, PartialEq, Eq, Structural)]
pub enum ResponseCode {
    NoError,
    FormErr,
    ServFail,
    NXDomain,
    NotImp,
    Refused,
    Other(u16),
}

/// The numeric value of a response code.
pub open spec fn rcode_value(c: ResponseCode) -> u16 {
    match c {
        ResponseCode::NoError => 0,
        ResponseCode::FormErr => 1,
        ResponseCode::ServFail => 2,
        ResponseCode::NXDomain => 3,
        ResponseCode::NotImp => 4,
        ResponseCode::Refused => 5,
        ResponseCode::Other(v) => v,
    }
}

/// The response code with a numeric value.
pub open spec fn rcode_of_value(v: u16) -> ResponseCode {
    if v == 0 {
        ResponseCode::NoError
    } else if v == 1 {
        ResponseCode::FormErr
    } else if v == 2 {
        ResponseCode::ServFail
    } else if v == 3 {
        ResponseCode::NXDomain
    } else if v == 4 {
        ResponseCode::NotImp
    } else if v == 5 {
        ResponseCode::Refused
    } else {
        ResponseCode::Other(v)
    }
}

impl ResponseCode {
    pub fn value(self) -> (r: u16)
        ensures
            r == rcode_value(self),
    {
        match self {
            ResponseCode::NoError => 0,
            ResponseCode::FormErr => 1,
            ResponseCode::ServFail => 2,
            ResponseCode::NXDomain => 3,
            ResponseCode::NotImp => 4,
            ResponseCode::Refused => 5,
            ResponseCode::Other(v) => v,
        }
    }

    pub fn from_value(v: u16) -> (r: ResponseCode)
        ensures
            r == rcode_of_value(v),
    {
        if v == 0 {
            ResponseCode::NoError
        } else if v == 1 {
            ResponseCode::FormErr
        } else if v == 2 {
            ResponseCode::ServFail
        } else if v == 3 {
            ResponseCode::NXDomain
        } else if v == 4 {
            ResponseCode::NotImp
        } else if v == 5 {
            ResponseCode::Refused
        } else {
            ResponseCode::Other(v)
        }
    }
}

/// The EDNS pseudo-record of a message.
#[derive(Clone, Copy, Debug, PartialEq, Eq, Structural)]
pub struct Edns {
    pub max_payload: u16,
    pub dnssec_ok: bool,
}

/// The header of a message (section counts are implied by the sections).
#[derive(Clone, Copy, Debug, PartialEq, Eq, Structural)]
pub struct Header {
    pub id: u16,
    pub is_response: bool,
    pub op_code: u8,
    pub authoritative: bool,
    pub truncated: bool,
    pub recursion_desired: bool,
    pub recursion_available: bool,
    pub authentic_data: bool,
    pub checking_disabled: bool,
    pub response_code: ResponseCode,
}

/// A DNS message.
#[derive(Debug, PartialEq, Eq)]
pub struct Message {
    pub header: Header,
    pub queries: Vec<Query>,
    pub answers: Vec<Record>,
    pub authorities: Vec<Record>,
    pub additionals: Vec<Record>,
    pub edns: Option<Edns>,
}

/// The value of a message.
#[verifier::ext_equal]
pub struct MessageV {
    pub header: Header,
    pub queries: Seq<QueryV>,
    pub answers: Seq<RecordV>,
    pub authorities: Seq<RecordV>,
    pub additionals: Seq<RecordV>,
    pub edns: Option<Edns>,
}

impl View for Message {
    type V = MessageV;

    open spec fn view(&self) -> MessageV {
        MessageV {
            header: self.header,
            queries: query_views(self.queries@),
            answers: record_views(self.answers@),
            authorities: record_views(self.authorities@),
            additionals: record_views(self.additionals@),
            edns: self.edns,
        }
    }
}

/// A copy of a list of records.
pub fn copy_records(v: &Vec<Record>) -> (r: Vec<Record>)
    ensures
        record_views(r@) == record_views(v@),
{
    let mut r: Vec<Record> = Vec::new();
    let mut i: usize = 0;
    while i < v.len()
        invariant
            i <= v@.len(),
            r@.len() == i,
            forall|j: int| 0 <= j < i ==> #[trigger] r@[j]@ == v@[j]@,
        decreases v.len() - i,
    {
        let c = v[i].clone();
        assert(c@ == v@[i as int]@);
        r.push(c);
        i = i + 1;
    }
    assert(record_views(r@) =~= record_views(v@));
    r
}

/// A copy of a list of questions.
pub fn copy_queries(v: &Vec<Query>) -> (r: Vec<Query>)
    ensures
        query_views(r@) == query_views(v@),
{
    let mut r: Vec<Query> = Vec::new();
    let mut i: usize = 0;
    while i < v.len()
        invariant
            i <= v@.len(),
            r@.len() == i,
            forall|j: int| 0 <= j < i ==> #[trigger] r@[j]@ == v@[j]@,
        decreases v.len() - i,
    {
        let c = v[i].clone();
        assert(c@ == v@[i as int]@);
        r.push(c);
        i = i + 1;
    }
    assert(query_views(r@) =~= query_views(v@));
    r
}

impl Clone for Message {
    fn clone(&self) -> (r: Self)
        ensures
            r@ == self@,
    {
        Message {
            header: self.header,
            queries: copy_queries(&self.queries),
            answers: copy_records(&self.answers),
            authorities: copy_records(&self.authorities),
            additionals: copy_records(&self.additionals),
            edns: self.edns,
        }
    }
}

impl Message {
    /// An empty standard query with the given id.
    pub fn query(id: u16) -> (m: Message)
        ensures
            m@.header.id == id,
            !m@.header.is_response,
            m@.header.op_code == 0,
            !m@.header.authoritative && !m@.header.truncated && !m@.header.recursion_desired,
            !m@.header.recursion_available && !m@.header.authentic_data && !m@.header.checking_disabled,
            m@.header.response_code == ResponseCode::NoError,
            m@.queries.len() == 0,
            m@.answers.len() == 0,
            m@.authorities.len() == 0,
            m@.additionals.len() == 0,
            m@.edns is None,
    {
        Message {
            header: Header {
                id,
                is_response: false,
                op_code: 0,
                authoritative: false,
                truncated: false,
                recursion_desired: false,
                recursion_available: false,
                authentic_data: false,
                checking_disabled: false,
                response_code: ResponseCode::NoError,
            },
            queries: Vec::new(),
            answers: Vec::new(),
            authorities: Vec::new(),
            additionals: Vec::new(),
            edns: None,
        }
    }
}

} // verus!
