//! The reply a listener sends for a request: the answer of a lookup with
//! the request's id and flags, or the refusal of a request that is not a
//! standard query.
use vstd::prelude::*;
use crate::codec::EncodeError;
use crate::decode::{decode_header, header_from};
use crate::dns_error::{LookupError, no_records_of, no_records_message, spec_is_nx_domain};
use crate::message::{Header, Message, MessageV, Query, QueryV, ResponseCode};
use crate::net::SocketAddress;
use crate::request::{Protocol, SerialMessage};
use crate::response::DnsResponse;

verus! {

/// The header of the reply to a request: its id, opcode and the RD and CD
/// bits, marked a response, recursion available, no error yet.
pub open spec fn spec_reply_header(h: Header) -> Header {
    Header {
        id: h.id,
        is_response: true,
        op_code: h.op_code,
        authoritative: false,
        truncated: false,
        recursion_desired: h.recursion_desired,
        recursion_available: true,
        authentic_data: false,
        checking_disabled: h.checking_disabled,
        response_code: ResponseCode::NoError,
    }
}

pub fn reply_header(h: &Header) -> (r: Header)
    ensures
        r == spec_reply_header(*h),
{
    Header {
        id: h.id,
        is_response: true,
        op_code: h.op_code,
        authoritative: false,
        truncated: false,
        recursion_desired: h.recursion_desired,
        recursion_available: true,
        authentic_data: false,
        checking_disabled: h.checking_disabled,
        response_code: ResponseCode::NoError,
    }
}

/// The response code a failed lookup is answered with: NXDOMAIN for a
/// missing name, the upstream's code for an error that is a code, else
/// SERVFAIL.
pub open spec fn error_code(e: LookupError) -> ResponseCode {
    if spec_is_nx_domain(e) {
        ResponseCode::NXDomain
    } else {
        match e {
            LookupError::ResponseCode(c) => c,
            _ => ResponseCode::ServFail,
        }
    }
}

/// An empty message that repeats the question.
pub open spec fn question_only(q: QueryV) -> MessageV {
    MessageV {
        header: Header {
            id: 0,
            is_response: false,
            op_code: 0,
            authoritative: false,
            truncated: false,
            recursion_desired: false,
            recursion_available: false,
            authentic_data: false,
            checking_disabled: false,
            response_code: ResponseCode::NoError,
        },
        queries: seq![q],
        answers: Seq::empty(),
        authorities: Seq::empty(),
        additionals: Seq::empty(),
        edns: None,
    }
}

/// The message of the reply to a lookup and the header it is sent with:
/// an answer as it is; a negative error as the answer it carries (NXDOMAIN
/// in the header when it is one); any other error as the question alone
/// with [`error_code`] in the header.
pub open spec fn spec_lookup_reply(h: Header, q: QueryV, result: Result<DnsResponse, LookupError>) -> (MessageV, Header) {
    match result {
        Ok(res) => (res.spec_message(), spec_reply_header(h)),
        Err(e) => match no_records_of(e) {
            Some(n) => (
                no_records_message(q, n),
                Header {
                    response_code: if spec_is_nx_domain(e) { ResponseCode::NXDomain } else { ResponseCode::NoError },
                    ..spec_reply_header(h)
                },
            ),
            None => (question_only(q), Header { response_code: error_code(e), ..spec_reply_header(h) }),
        },
    }
}

fn error_code_of(e: &LookupError) -> (r: ResponseCode)
    ensures
        r == error_code(*e),
{
    if e.is_nx_domain() {
        ResponseCode::NXDomain
    } else {
        match e {
            LookupError::ResponseCode(c) => *c,
            _ => ResponseCode::ServFail,
        }
    }
}

/// The response and header of the reply to a lookup for the request with
/// `request_header` asking `query` (see [`spec_lookup_reply`]).
pub fn lookup_reply(request_header: &Header, query: &Query, result: Result<DnsResponse, LookupError>) -> (r: (
    DnsResponse,
    Header,
))
    ensures
        (r.0.spec_message(), r.1) == spec_lookup_reply(*request_header, query@, result),
        result matches Ok(res) ==> r.0.spec_prepared() == res.spec_prepared(),
{
    let header = reply_header(request_header);
    match result {
        Ok(res) => (res, header),
        Err(e) => match e.as_no_records_response(query) {
            Some(res) => {
                let code = if e.is_nx_domain() { ResponseCode::NXDomain } else { ResponseCode::NoError };
                (res, Header { response_code: code, ..header })
            },
            None => {
                let mut m = Message::query(0);
                let ghost q = query@;
                m.queries.push(query.clone());
                assert(m@ =~= question_only(q));
                let mut res = DnsResponse::empty();
                res.set_message(m);
                (res, Header { response_code: error_code_of(&e), ..header })
            },
        },
    }
}

/// The bytes of the reply to a lookup: [`SerialMessage::reply`] of the
/// lookup's response and header, encoded.
pub fn reply_bytes(request_header: &Header, query: &Query, result: Result<DnsResponse, LookupError>,
    addr: SocketAddress, protocol: Protocol) -> (r: Result<Vec<u8>, EncodeError>)
    ensures
        exists|s: SerialMessage| {
            &&& #[trigger] crate::request::serial_bytes(s) == match r {
                Ok(b) => Some(b@),
                Err(_) => None,
            }
            &&& s matches SerialMessage::Reply(m, h, _, a, p) && a == addr && p == protocol && {
                let (lm, lh) = spec_lookup_reply(*request_header, query@, result);
                let code = if lh.response_code == ResponseCode::NoError { lm.header.response_code } else { lh.response_code };
                &&& h == (Header { truncated: lh.truncated || lm.header.truncated, response_code: code, ..lh })
                &&& m@ == (MessageV { header: Header { response_code: code, ..lm.header }, ..lm })
            }
        },
{
    let (res, header) = lookup_reply(request_header, query, result);
    let s = SerialMessage::reply(res, header, addr, protocol);
    let ghost sv = s;
    proof {
        match sv {
            SerialMessage::Reply(m, _, _, _, _) => {
                crate::request::lemma_encoding_has_header(m@);
            },
            _ => {},
        }
    }
    let r = s.into_bytes();
    assert(crate::request::serial_bytes(sv) == match r {
        Ok(b) => Some(b@),
        Err(_) => None::<Seq<u8>>,
    });
    r
}

/// How a request is treated: a standard query is looked up; a message
/// that is a response is a format error; another opcode is not
/// implemented.
#[derive(Clone, Copy, Debug, PartialEq, Eq, Structural)]
pub enum RequestKind {
    Lookup,
    FormatError,
    NotImplemented,
}

pub open spec fn spec_request_kind(h: Header) -> RequestKind {
    if h.is_response {
        RequestKind::FormatError
    } else if h.op_code != 0 {
        RequestKind::NotImplemented
    } else {
        RequestKind::Lookup
    }
}

pub fn request_kind(h: &Header) -> (r: RequestKind)
    ensures
        r == spec_request_kind(*h),
{
    if h.is_response {
        RequestKind::FormatError
    } else if h.op_code != 0 {
        RequestKind::NotImplemented
    } else {
        RequestKind::Lookup
    }
}

/// The refusal of a request with `code`: its questions, no records, the
/// reply header without recursion available.
pub open spec fn spec_refusal(request: MessageV, code: ResponseCode) -> MessageV {
    MessageV {
        header: Header {
            recursion_available: false,
            response_code: code,
            ..spec_reply_header(request.header)
        },
        queries: request.queries,
        answers: Seq::empty(),
        authorities: Seq::empty(),
        additionals: Seq::empty(),
        edns: None,
    }
}

pub fn refusal(request: &Message, code: ResponseCode) -> (r: Message)
    ensures
        r@ == spec_refusal(request@, code),
{
    let h = reply_header(&request.header);
    let r = Message {
        header: Header { recursion_available: false, response_code: code, ..h },
        queries: crate::message::copy_queries(&request.queries),
        answers: Vec::new(),
        authorities: Vec::new(),
        additionals: Vec::new(),
        edns: None,
    };
    assert(r@ =~= spec_refusal(request@, code));
    r
}

/// The reply to a datagram that is no message: FORMERR with its header
/// when it has one, else an empty query message.
pub open spec fn spec_bad_datagram_reply(b: Seq<u8>) -> MessageV {
    let empty = MessageV {
        header: Header {
            id: 0,
            is_response: false,
            op_code: 0,
            authoritative: false,
            truncated: false,
            recursion_desired: false,
            recursion_available: false,
            authentic_data: false,
            checking_disabled: false,
            response_code: ResponseCode::NoError,
        },
        queries: Seq::empty(),
        answers: Seq::empty(),
        authorities: Seq::empty(),
        additionals: Seq::empty(),
        edns: None,
    };
    if b.len() >= 12 {
        MessageV {
            header: Header {
                recursion_available: false,
                response_code: ResponseCode::FormErr,
                ..spec_reply_header(header_from(b))
            },
            ..empty
        }
    } else {
        empty
    }
}

pub fn bad_datagram_reply(b: &[u8]) -> (r: Message)
    ensures
        r@ == spec_bad_datagram_reply(b@),
{
    let mut m = Message::query(0);
    match decode_header(b) {
        Some(h) => {
            let rh = reply_header(&h);
            m.header = Header { recursion_available: false, response_code: ResponseCode::FormErr, ..rh };
        },
        None => {},
    }
    assert(m@ =~= spec_bad_datagram_reply(b@));
    m
}

} // verus!
