//! One query over UDP: the datagram sent, which datagrams are the reply,
//! and which replies answer the question (with the letter case of the
//! question's name randomised when asked).
use vstd::prelude::*;
use crate::net::SocketAddress;
use crate::octets::from_be16;
use crate::message::{Name, Query, QueryV, Message, MessageV, Edns, Header, ResponseCode, RecordType, label_seqs,
    query_views};
use crate::cache::{name_key, lower_label, same_name};
use crate::decode::{decode_message, read_message};

verus! {

/// The largest reply read.
pub const MAX_RECEIVE_BUFFER_SIZE: usize = 4096;

/// How many bytes of a reply are read: the EDNS payload size (512 without
/// EDNS), at most the buffer's size.
pub open spec fn spec_receive_size(edns: Option<Edns>) -> usize {
    let want: usize = match edns {
        Some(e) => e.max_payload as usize,
        None => 512,
    };
    if want < MAX_RECEIVE_BUFFER_SIZE { want } else { MAX_RECEIVE_BUFFER_SIZE }
}

pub fn receive_size(edns: Option<Edns>) -> (r: usize)
    ensures
        r == spec_receive_size(edns),
{
    let want: usize = match edns {
        Some(e) => e.max_payload as usize,
        None => 512,
    };
    if want < MAX_RECEIVE_BUFFER_SIZE { want } else { MAX_RECEIVE_BUFFER_SIZE }
}

/// The query message for a question: the id, RD as asked, one question
/// and the EDNS record, if any.
pub open spec fn spec_query_message(q: QueryV, id: u16, recursion_desired: bool, edns: Option<Edns>) -> MessageV {
    MessageV {
        header: Header {
            id,
            is_response: false,
            op_code: 0,
            authoritative: false,
            truncated: false,
            recursion_desired,
            recursion_available: false,
            authentic_data: false,
            checking_disabled: false,
            response_code: ResponseCode::NoError,
        },
        queries: seq![q],
        answers: Seq::empty(),
        authorities: Seq::empty(),
        additionals: Seq::empty(),
        edns,
    }
}

pub fn query_message(query: Query, id: u16, recursion_desired: bool, edns: Option<Edns>) -> (m: Message)
    ensures
        m@ == spec_query_message(query@, id, recursion_desired, edns),
{
    let mut m = Message::query(id);
    m.header.recursion_desired = recursion_desired;
    let ghost qv = query@;
    m.queries.push(query);
    m.edns = edns;
    assert(m@.queries =~= seq![qv]);
    assert(m@.answers =~= Seq::empty());
    assert(m@.authorities =~= Seq::empty());
    assert(m@.additionals =~= Seq::empty());
    m
}

/// Whether a datagram can be the reply to the query with `id` sent to
/// `server`: it comes from the server's address and port and starts with
/// the id.
pub open spec fn spec_accepts(peer: SocketAddress, server: SocketAddress, bytes: Seq<u8>, id: u16) -> bool {
    peer == server && bytes.len() >= 2 && from_be16(bytes[0], bytes[1]) == id
}

pub fn accepts_reply(peer: &SocketAddress, server: &SocketAddress, bytes: &[u8], id: u16) -> (r: bool)
    ensures
        r == spec_accepts(*peer, *server, bytes@, id),
{
    if !peer.ip.same(&server.ip) || peer.port != server.port || bytes.len() < 2 {
        return false;
    }
    (bytes[0] as u16) * 256 + (bytes[1] as u16) == id
}

/// Two questions are the same when their names differ at most in the case
/// of ASCII letters and their types and classes agree.
pub open spec fn same_query(a: QueryV, b: QueryV) -> bool {
    name_key(a.name) == name_key(b.name) && a.query_type == b.query_type && a.query_class == b.query_class
}

/// What a reply is to a question.
#[derive(Clone, Copy, Debug, PartialEq, Eq, Structural)]
pub enum ReplyCheck {
    /// Some question of the reply is another one: not the reply.
    Other,
    /// The name came back in other letter case than sent (with randomised
    /// case): refused.
    CaseMismatch,
    /// The reply to the question.
    Answer,
}

pub open spec fn spec_check(reply: MessageV, query: QueryV, randomized: bool) -> ReplyCheck {
    if !(forall|i: int| 0 <= i < reply.queries.len() ==> same_query(#[trigger] reply.queries[i], query)) {
        ReplyCheck::Other
    } else if randomized && !(forall|i: int| 0 <= i < reply.queries.len() ==> (#[trigger] reply.queries[i]).name == query.name) {
        ReplyCheck::CaseMismatch
    } else {
        ReplyCheck::Answer
    }
}

fn labels_equal(a: &Name, b: &Name) -> (r: bool)
    ensures
        r == (a@ == b@),
{
    assert(a@.len() == a.labels@.len() && b@.len() == b.labels@.len());
    if a.labels.len() != b.labels.len() {
        return false;
    }
    let mut i: usize = 0;
    while i < a.labels.len()
        invariant
            a.labels@.len() == b.labels@.len(),
            a@.len() == a.labels@.len(),
            b@.len() == b.labels@.len(),
            i <= a.labels@.len(),
            forall|k: int| 0 <= k < i ==> a@[k] == b@[k],
        decreases a.labels.len() - i,
    {
        let x = &a.labels[i];
        let y = &b.labels[i];
        assert(x@ == a@[i as int] && y@ == b@[i as int]);
        if x.len() != y.len() {
            assert(a@[i as int] != b@[i as int]);
            return false;
        }
        let mut j: usize = 0;
        while j < x.len()
            invariant
                x@ == a@[i as int],
                y@ == b@[i as int],
                x@.len() == y@.len(),
                j <= x@.len(),
                forall|k: int| 0 <= k < j ==> x@[k] == y@[k],
            decreases x.len() - j,
        {
            if x[j] != y[j] {
                assert(x@[j as int] != y@[j as int]);
                return false;
            }
            j = j + 1;
        }
        assert(x@ =~= y@);
        i = i + 1;
    }
    assert(a@ =~= b@);
    true
}

fn query_same(a: &Query, b: &Query) -> (r: bool)
    ensures
        r == same_query(a@, b@),
{
    same_name(&a.name, &b.name) && a.query_type == b.query_type && a.query_class == b.query_class
}

/// What a reply is to a question sent with (or without) randomised case.
pub fn check_reply(reply: &Message, query: &Query, randomized: bool) -> (r: ReplyCheck)
    ensures
        r == spec_check(reply@, query@, randomized),
{
    let n = reply.queries.len();
    let mut i: usize = 0;
    while i < n
        invariant
            n == reply@.queries.len(),
            i <= n,
            forall|k: int| 0 <= k < i ==> same_query(#[trigger] reply@.queries[k], query@),
        decreases n - i,
    {
        if !query_same(&reply.queries[i], query) {
            assert(!same_query(reply@.queries[i as int], query@));
            return ReplyCheck::Other;
        }
        i = i + 1;
    }
    if randomized {
        let mut k: usize = 0;
        while k < n
            invariant
                n == reply@.queries.len(),
                k <= n,
                randomized,
                forall|j: int| 0 <= j < n ==> same_query(#[trigger] reply@.queries[j], query@),
                forall|j: int| 0 <= j < k ==> (#[trigger] reply@.queries[j]).name == query@.name,
            decreases n - k,
        {
            if !labels_equal(&reply.queries[k].name, &query.name) {
                assert(reply@.queries[k as int].name != query@.name);
                return ReplyCheck::CaseMismatch;
            }
            k = k + 1;
        }
    }
    ReplyCheck::Answer
}

/// The reply's questions with those that are the sent one (up to case)
/// written as originally asked.
pub open spec fn restored(qs: Seq<QueryV>, original: QueryV) -> Seq<QueryV> {
    qs.map_values(|q: QueryV| if same_query(q, original) { original } else { q })
}

/// Gives the questions of a reply the letter case originally asked.
pub fn restore_case(reply: &mut Message, original: &Query)
    ensures
        final(reply)@ == (MessageV { queries: restored(old(reply)@.queries, original@), ..old(reply)@ }),
{
    let ghost before = reply@;
    let n = reply.queries.len();
    let mut qs: Vec<Query> = Vec::new();
    let mut i: usize = 0;
    while i < n
        invariant
            n == before.queries.len(),
            i <= n,
            before == reply@,
            query_views(qs@) == restored(before.queries, original@).take(i as int),
        decreases n - i,
    {
        let q = &reply.queries[i];
        assert(q@ == before.queries[i as int]);
        let ghost prev = query_views(qs@);
        if query_same(q, original) {
            qs.push(original.clone());
        } else {
            qs.push(q.clone());
        }
        assert(restored(before.queries, original@)[i as int] == (if same_query(q@, original@) { original@ } else { q@ }));
        assert(query_views(qs@) =~= prev.push(qs@[i as int]@));
        assert(query_views(qs@) =~= restored(before.queries, original@).take(i as int + 1));
        i = i + 1;
    }
    reply.queries = qs;
    assert(restored(before.queries, original@).take(n as int) =~= restored(before.queries, original@));
    assert(reply@ =~= MessageV { queries: restored(before.queries, original@), ..before });
}

/// Why a reply was refused.
#[derive(Clone, Copy, Debug, PartialEq, Eq, Structural)]
pub enum ReplyError {
    /// The name came back in other letter case than sent.
    QueryCaseMismatch,
    /// The server is to answer with EDNS (`-check-edns`) and did not.
    MissingEdns,
}

/// The reply a datagram holds for the question `query` (sent with its name
/// in randomised case when `original`, the question as asked, is given):
/// `Ok(None)` when the datagram is not a message or not the reply to it,
/// an error when the case came back changed, else the reply with the
/// questions as originally asked.
pub fn decode_reply(bytes: &[u8], query: &Query, original: Option<&Query>) -> (r: Result<Option<Message>, ReplyError>)
    ensures
        match read_message(bytes@) {
            None => r == Ok::<Option<Message>, ReplyError>(None),
            Some((m, _)) => match spec_check(m, query@, original is Some) {
                ReplyCheck::Other => r == Ok::<Option<Message>, ReplyError>(None),
                ReplyCheck::CaseMismatch => r == Err::<Option<Message>, ReplyError>(ReplyError::QueryCaseMismatch),
                ReplyCheck::Answer => r matches Ok(Some(reply)) && reply@ == match original {
                    Some(o) => MessageV { queries: restored(m.queries, o@), ..m },
                    None => m,
                },
            },
        },
{
    let (mut m, _) = match decode_message(bytes) {
        Some(x) => x,
        None => return Ok(None),
    };
    match check_reply(&m, query, original.is_some()) {
        ReplyCheck::Other => Ok(None),
        ReplyCheck::CaseMismatch => Err(ReplyError::QueryCaseMismatch),
        ReplyCheck::Answer => {
            if let Some(o) = original {
                restore_case(&mut m, o);
            }
            Ok(Some(m))
        },
    }
}

/// `rand::random::<bool>()`: a random bit; nothing is claimed of its value.
#[verifier::external_body]
fn random_bit() -> (r: bool)
{
    rand::random::<bool>()
}

/// `rand::random::<u16>()`: a random query id; nothing is claimed of its
/// value.
#[verifier::external_body]
pub fn random_id() -> (r: u16)
{
    rand::random::<u16>()
}

/// The name with each ASCII letter in random case: the same name up to case.
pub fn randomize_case(name: &Name) -> (r: Name)
    ensures
        name_key(r@) == name_key(name@),
        r@.len() == name@.len(),
        forall|i: int| 0 <= i < r@.len() ==> #[trigger] r@[i].len() == name@[i].len(),
{
    let mut labels: Vec<Vec<u8>> = Vec::new();
    let n = name.labels.len();
    let mut i: usize = 0;
    while i < n
        invariant
            n == name@.len(),
            i <= n,
            labels@.len() == i,
            forall|k: int| 0 <= k < i ==> lower_label(#[trigger] labels@[k]@) == lower_label(name@[k])
                && labels@[k]@.len() == name@[k].len(),
        decreases n - i,
    {
        let src = &name.labels[i];
        let mut out: Vec<u8> = Vec::new();
        let mut j: usize = 0;
        while j < src.len()
            invariant
                j <= src@.len(),
                out@.len() == j,
                forall|k: int| 0 <= k < j ==> crate::cache::lower(#[trigger] out@[k]) == crate::cache::lower(src@[k]),
            decreases src.len() - j,
        {
            let b = src[j];
            let c = if 97 <= b && b <= 122 && random_bit() {
                b - 32
            } else if 65 <= b && b <= 90 && random_bit() {
                b + 32
            } else {
                b
            };
            out.push(c);
            j = j + 1;
        }
        assert(lower_label(out@) =~= lower_label(src@));
        labels.push(out);
        i = i + 1;
    }
    let r = Name { labels };
    assert(name_key(r@) =~= name_key(name@)) by {
        assert forall|k: int| 0 <= k < r@.len() implies #[trigger] name_key(r@)[k] == name_key(name@)[k] by {
            assert(r@[k] == labels@[k]@);
        }
    }
    r
}


/// Whether a reply passes the `-check-edns` test of its server: when the
/// test is on, the reply carries EDNS.
pub open spec fn edns_ok(check_edns: bool, reply: MessageV) -> bool {
    !check_edns || reply.edns is Some
}

/// A reply as [`decode_reply`] reads it, refused with `MissingEdns` when
/// the server is to answer with EDNS and the reply has none.
pub fn decode_checked_reply(bytes: &[u8], query: &Query, original: Option<&Query>, check_edns: bool) -> (r: Result<
    Option<Message>,
    ReplyError,
>)
    ensures
        match read_message(bytes@) {
            None => r == Ok::<Option<Message>, ReplyError>(None),
            Some((m, _)) => match spec_check(m, query@, original is Some) {
                ReplyCheck::Other => r == Ok::<Option<Message>, ReplyError>(None),
                ReplyCheck::CaseMismatch => r == Err::<Option<Message>, ReplyError>(ReplyError::QueryCaseMismatch),
                ReplyCheck::Answer => if edns_ok(check_edns, m) {
                    r matches Ok(Some(reply)) && reply@ == match original {
                        Some(o) => MessageV { queries: restored(m.queries, o@), ..m },
                        None => m,
                    }
                } else {
                    r == Err::<Option<Message>, ReplyError>(ReplyError::MissingEdns)
                },
            },
        },
{
    match decode_reply(bytes, query, original) {
        Ok(Some(m)) => {
            if check_edns && m.edns.is_none() {
                Err(ReplyError::MissingEdns)
            } else {
                Ok(Some(m))
            }
        },
        other => other,
    }
}

} // verus!
