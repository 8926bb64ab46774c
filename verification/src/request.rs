//! A request as the server sees it (message, first question, source and
//! protocol) and the messages exchanged with the listeners.
use vstd::prelude::*;
use crate::net::{IpAddress, SocketAddress};
use crate::message::{Name, Query, QueryV, Message, MessageV, Header, ResponseCode, RecordType, type_code,
    copy_queries, query_views};
use crate::response::{DnsResponse, option_bytes};
use crate::decode::{decode_message, read_message};
use crate::codec::{encode_message, enc_header, flags_high, flags_low, flag_bytes, to_vec, EncodeError};
use crate::octets::{be16, push_be16};

verus! {

/// The transport a message came over.
#[derive(Clone, Copy, Debug, PartialEq, Eq, Structural)]
pub enum Protocol {
    Udp,
    Tcp,
    Tls,
    Https,
    Quic,
    H3,
}

/// A request: its id, its first question (the root A question when it has
/// none), the message, and where and how it came.
#[derive(Debug)]
pub struct DnsRequest {
    id: u16,
    query: Query,
    message: Message,
    src: SocketAddress,
    protocol: Protocol,
}

/// The first question of a message, or the root A question.
pub open spec fn first_query(m: MessageV) -> QueryV {
    if m.queries.len() > 0 {
        m.queries[0]
    } else {
        QueryV { name: Seq::empty(), query_type: RecordType::A, query_class: 1 }
    }
}

/// Record types of DNSSEC data (DS, RRSIG, NSEC, DNSKEY, NSEC3,
/// NSEC3PARAM, CDS, CDNSKEY).
pub open spec fn is_dnssec_type(t: RecordType) -> bool {
    let c = type_code(t);
    c == 43 || c == 46 || c == 47 || c == 48 || c == 50 || c == 51 || c == 59 || c == 60
}

impl DnsRequest {
    pub closed spec fn spec_id(&self) -> u16 {
        self.id
    }

    pub closed spec fn spec_query(&self) -> QueryV {
        self.query@
    }

    pub closed spec fn spec_message(&self) -> MessageV {
        self.message@
    }

    pub closed spec fn spec_src(&self) -> SocketAddress {
        self.src
    }

    pub closed spec fn spec_protocol(&self) -> Protocol {
        self.protocol
    }

    /// The request a message makes, from `src` over `protocol`.
    pub fn new(message: Message, src: SocketAddress, protocol: Protocol) -> (r: DnsRequest)
        ensures
            r.spec_id() == message@.header.id,
            r.spec_query() == first_query(message@),
            r.spec_message() == message@,
            r.spec_src() == src,
            r.spec_protocol() == protocol,
    {
        let query = if message.queries.len() > 0 {
            message.queries[0].clone()
        } else {
            Query::default_query()
        };
        DnsRequest { id: message.header.id, query, message, src, protocol }
    }

    pub fn id(&self) -> (r: u16)
        ensures
            r == self.spec_id(),
    {
        self.id
    }

    /// The question the request asks.
    pub fn query(&self) -> (r: &Query)
        ensures
            r@ == self.spec_query(),
    {
        &self.query
    }

    pub fn message(&self) -> (r: &Message)
        ensures
            r@ == self.spec_message(),
    {
        &self.message
    }

    /// Where the request came from.
    pub fn src(&self) -> (r: SocketAddress)
        ensures
            r == self.spec_src(),
    {
        self.src
    }

    pub fn protocol(&self) -> (r: Protocol)
        ensures
            r == self.spec_protocol(),
    {
        self.protocol
    }

    /// The same request asking for `name` (same type, class IN), as when
    /// following a CNAME.
    pub fn with_cname(&self, name: Name) -> (r: DnsRequest)
        ensures
            r.spec_query() == (QueryV { name: name@, query_type: self.spec_query().query_type, query_class: 1 }),
            r.spec_id() == self.spec_id(),
            r.spec_message() == self.spec_message(),
            r.spec_src() == self.spec_src(),
            r.spec_protocol() == self.spec_protocol(),
    {
        DnsRequest {
            id: self.id,
            query: Query::query(name, self.query.query_type),
            message: self.message.clone(),
            src: self.src,
            protocol: self.protocol,
        }
    }

    /// Asks for another type.
    pub fn set_query_type(&mut self, query_type: RecordType)
        ensures
            final(self).spec_query() == (QueryV { query_type, ..old(self).spec_query() }),
            final(self).spec_id() == old(self).spec_id(),
            final(self).spec_message() == old(self).spec_message(),
            final(self).spec_src() == old(self).spec_src(),
            final(self).spec_protocol() == old(self).spec_protocol(),
    {
        self.query.query_type = query_type;
    }

    /// Whether the client wants DNSSEC data: the DO bit when the request has
    /// EDNS, else whether it asks for a DNSSEC type.
    pub fn is_dnssec(&self) -> (r: bool)
        ensures
            r == match self.spec_message().edns {
                Some(e) => e.dnssec_ok,
                None => is_dnssec_type(self.spec_query().query_type),
            },
    {
        match self.message.edns {
            Some(e) => e.dnssec_ok,
            None => {
                let c = self.query.query_type.code();
                c == 43 || c == 46 || c == 47 || c == 48 || c == 50 || c == 51 || c == 59 || c == 60
            },
        }
    }

    /// A request for a question, as a local client makes it (id 0, from
    /// 127.0.0.1 port 0, over UDP).
    pub fn from_query(query: Query) -> (r: DnsRequest)
        ensures
            r.spec_query() == query@,
            r.spec_message().queries == seq![query@],
            r.spec_id() == 0,
            r.spec_src() == (SocketAddress { ip: IpAddress::V4([127, 0, 0, 1]), port: 0 }),
            r.spec_protocol() == Protocol::Udp,
    {
        let mut message = Message::query(0);
        let ghost q = query@;
        message.queries.push(query);
        assert(message@.queries =~= seq![q]);
        Self::new(message, SocketAddress { ip: IpAddress::V4([127, 0, 0, 1]), port: 0 }, Protocol::Udp)
    }
}

/// A message between the server and a listener.
#[derive(Debug)]
pub enum SerialMessage {
    /// A message built by the server.
    Raw(Message, SocketAddress, Protocol),
    /// Wire bytes as received.
    Bytes(Vec<u8>, SocketAddress, Protocol),
    /// A reply: its message, the header to send, its prepared wire form.
    Reply(Message, Header, Option<Vec<u8>>, SocketAddress, Protocol),
}

impl SerialMessage {
    pub fn binary(bytes: Vec<u8>, addr: SocketAddress, protocol: Protocol) -> (r: SerialMessage)
        ensures
            r matches SerialMessage::Bytes(b, a, p) && b@ == bytes@ && a == addr && p == protocol,
    {
        SerialMessage::Bytes(bytes, addr, protocol)
    }

    pub fn raw(message: Message, addr: SocketAddress, protocol: Protocol) -> (r: SerialMessage)
        ensures
            r matches SerialMessage::Raw(m, a, p) && m@ == message@ && a == addr && p == protocol,
    {
        SerialMessage::Raw(message, addr, protocol)
    }

    /// The reply to a request with `header` (the request's reply header):
    /// truncated when either is; a header without error takes the
    /// message's response code, else the message takes the header's.
    pub fn reply(message: DnsResponse, header: Header, addr: SocketAddress, protocol: Protocol) -> (r: SerialMessage)
        ensures
            r matches SerialMessage::Reply(m, h, w, a, p) && a == addr && p == protocol && {
                let mc = message.spec_message().header.response_code;
                let code = if header.response_code == ResponseCode::NoError { mc } else { header.response_code };
                &&& h == (Header {
                    truncated: header.truncated || message.spec_message().header.truncated,
                    response_code: code,
                    ..header
                })
                &&& m@ == (MessageV {
                    header: Header { response_code: code, ..message.spec_message().header },
                    ..message.spec_message()
                })
                &&& (code == mc ==> option_bytes(w) == message.spec_prepared())
                &&& (w matches Some(b) ==> encode_message(m@) == Some(b@))
            },
    {
        let truncated = header.truncated || message.message().header.truncated;
        let mc = message.response_code();
        if header.response_code == ResponseCode::NoError || header.response_code == mc {
            let h = Header { truncated, response_code: mc, ..header };
            let (m, w) = message.into_reply_parts();
            assert(m@ =~= MessageV { header: Header { response_code: mc, ..m@.header }, ..m@ });
            SerialMessage::Reply(m, h, w, addr, protocol)
        } else {
            let code = header.response_code;
            let mut message = message;
            message.set_response_code(code);
            let h = Header { truncated, ..header };
            let (m, w) = message.into_reply_parts();
            SerialMessage::Reply(m, h, w, addr, protocol)
        }
    }

    pub fn is_binary(&self) -> (r: bool)
        ensures
            r == (*self is Bytes),
    {
        match self {
            SerialMessage::Bytes(_, _, _) => true,
            _ => false,
        }
    }

    pub fn protocol(&self) -> (r: Protocol)
        ensures
            r == match *self {
                SerialMessage::Raw(_, _, p) => p,
                SerialMessage::Bytes(_, _, p) => p,
                SerialMessage::Reply(_, _, _, _, p) => p,
            },
    {
        match self {
            SerialMessage::Raw(_, _, p) => *p,
            SerialMessage::Bytes(_, _, p) => *p,
            SerialMessage::Reply(_, _, _, _, p) => *p,
        }
    }

    pub fn addr(&self) -> (r: SocketAddress)
        ensures
            r == match *self {
                SerialMessage::Raw(_, a, _) => a,
                SerialMessage::Bytes(_, a, _) => a,
                SerialMessage::Reply(_, _, _, a, _) => a,
            },
    {
        match self {
            SerialMessage::Raw(_, a, _) => *a,
            SerialMessage::Bytes(_, a, _) => *a,
            SerialMessage::Reply(_, _, _, a, _) => *a,
        }
    }

    /// The request a received message makes: wire bytes are read (`None`
    /// when they are no message); a built message is taken as it is.
    pub fn into_request(self) -> (r: Option<DnsRequest>)
        ensures
            match self {
                SerialMessage::Bytes(b, a, p) => match read_message(b@) {
                    Some((m, _)) => r matches Some(q) && q.spec_message() == m && q.spec_src() == a && q.spec_protocol() == p,
                    None => r is None,
                },
                SerialMessage::Raw(m, a, p) => r matches Some(q) && q.spec_message() == m@ && q.spec_src() == a
                    && q.spec_protocol() == p,
                SerialMessage::Reply(m, _, _, a, p) => r matches Some(q) && q.spec_message() == m@ && q.spec_src() == a
                    && q.spec_protocol() == p,
            },
    {
        match self {
            SerialMessage::Bytes(b, a, p) => match decode_message(b.as_slice()) {
                Some((m, _)) => Some(DnsRequest::new(m, a, p)),
                None => None,
            },
            SerialMessage::Raw(m, a, p) => Some(DnsRequest::new(m, a, p)),
            SerialMessage::Reply(m, _, _, a, p) => Some(DnsRequest::new(m, a, p)),
        }
    }
}

/// The bytes of a reply: the encoding (`base`) with its id and flags taken
/// from `h`, truncated also when the encoding is; the section counts stay.
pub open spec fn patch_header(base: Seq<u8>, h: Header) -> Seq<u8> {
    let flagged = Header { truncated: h.truncated || base[2] & 2u8 != 0, ..h };
    be16(h.id) + seq![flags_high(flagged), flags_low(flagged)] + base.subrange(4, base.len() as int)
}

/// The wire bytes of a message for a listener, when it has them.
pub open spec fn serial_bytes(s: SerialMessage) -> Option<Seq<u8>> {
    match s {
        SerialMessage::Bytes(b, _, _) => Some(b@),
        SerialMessage::Raw(m, _, _) => encode_message(m@),
        SerialMessage::Reply(m, h, w, _, _) => match (match w {
            Some(b) => Some(b@),
            None => encode_message(m@),
        }) {
            Some(base) => Some(patch_header(base, h)),
            None => None,
        },
    }
}

/// An encoding holds at least the twelve header bytes.
pub proof fn lemma_encoding_has_header(m: MessageV)
    ensures
        encode_message(m) matches Some(b) ==> b.len() >= 12,
{
}

/// Where a message built here is said to come from: 127.0.0.1 port 0.
pub open spec fn local_address() -> SocketAddress {
    SocketAddress { ip: IpAddress::V4([127, 0, 0, 1]), port: 0 }
}

impl SerialMessage {
    /// A message built here, from 127.0.0.1 port 0 over UDP.
    pub fn from_message(message: Message) -> (r: SerialMessage)
        ensures
            r matches SerialMessage::Raw(m, a, p) && m@ == message@ && a == local_address() && p == Protocol::Udp,
    {
        SerialMessage::raw(message, SocketAddress { ip: IpAddress::V4([127, 0, 0, 1]), port: 0 }, Protocol::Udp)
    }

    /// A query message (id 0) for one question, built here.
    pub fn from_query(query: Query) -> (r: SerialMessage)
        ensures
            r matches SerialMessage::Raw(m, a, p) && m@.queries == seq![query@] && m@.header.id == 0
                && !m@.header.is_response && m@.answers.len() == 0 && m@.authorities.len() == 0
                && m@.additionals.len() == 0 && m@.edns is None && a == local_address() && p == Protocol::Udp,
    {
        let mut message = Message::query(0);
        let ghost q = query@;
        message.queries.push(query);
        assert(message@.queries =~= seq![q]);
        Self::from_message(message)
    }

    /// The bytes to send: received bytes as they are, a built message
    /// encoded, a reply as its encoding (the prepared one when present) with
    /// the id and flags of its header and the encoding's section counts.
    pub fn into_bytes(self) -> (r: Result<Vec<u8>, EncodeError>)
        requires
            self matches SerialMessage::Reply(_, _, Some(w), _, _) ==> w@.len() >= 12,
        ensures
            match r {
                Ok(b) => serial_bytes(self) == Some(b@),
                Err(_) => serial_bytes(self) is None,
            },
    {
        match self {
            SerialMessage::Bytes(b, _, _) => Ok(b),
            SerialMessage::Raw(m, _, _) => to_vec(&m),
            SerialMessage::Reply(m, h, w, _, _) => {
                let base = match w {
                    Some(b) => b,
                    None => match to_vec(&m) {
                        Ok(b) => b,
                        Err(e) => return Err(e),
                    },
                };
                proof {
                    lemma_encoding_has_header(m@);
                }
                let flagged = Header { truncated: h.truncated || base[2] & 2u8 != 0, ..h };
                let (hi, lo) = flag_bytes(&flagged);
                let mut out: Vec<u8> = Vec::new();
                push_be16(&mut out, h.id);
                out.push(hi);
                out.push(lo);
                let mut i: usize = 4;
                while i < base.len()
                    invariant
                        4 <= i <= base@.len(),
                        out@ == be16(h.id) + seq![hi, lo] + base@.subrange(4, i as int),
                    decreases base.len() - i,
                {
                    out.push(base[i]);
                    i = i + 1;
                    assert(base@.subrange(4, i as int) =~= base@.subrange(4, i - 1 as int).push(base@[i - 1]));
                }
                assert(out@ =~= patch_header(base@, h));
                Ok(out)
            },
        }
    }

    /// The message: a built one as it is, received bytes decoded (`None`
    /// when they are no message), a reply with its header in place.
    pub fn into_message(self) -> (r: Option<Message>)
        ensures
            match self {
                SerialMessage::Raw(m, _, _) => r matches Some(x) && x@ == m@,
                SerialMessage::Bytes(b, _, _) => match read_message(b@) {
                    Some((m, _)) => r matches Some(x) && x@ == m,
                    None => r is None,
                },
                SerialMessage::Reply(m, h, _, _, _) => r matches Some(x) && x@ == (MessageV { header: h, ..m@ }),
            },
    {
        match self {
            SerialMessage::Raw(m, _, _) => Some(m),
            SerialMessage::Bytes(b, _, _) => match decode_message(b.as_slice()) {
                Some((m, _)) => Some(m),
                None => None,
            },
            SerialMessage::Reply(m, h, _, _, _) => {
                let mut m = m;
                m.header = h;
                Some(m)
            },
        }
    }
}

} // verus!
