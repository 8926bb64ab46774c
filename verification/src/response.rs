//! A DNS answer as the server handles it: the message, its prepared
//! encoding, its deadline, the server group that produced it and the
//! result of its speed probe.
use vstd::prelude::*;
use crate::message::{Message, MessageV, Query, QueryV, Record, RecordV, RData, Name, ResponseCode, Header, rdata_ip,
    rdata_type, RecordType, record_views, query_views, copy_records};
use crate::codec::{encode_message, to_vec, EncodeError};
use crate::net::IpAddress;
use crate::clock::now_millis;

verus! {

/// Largest TTL handed out for locally made answers: one day, in seconds.
pub const MAX_TTL: u32 = 86400;

/// The outcome of probing the speed of an answer's addresses.
#[derive(Clone, Copy, Debug, PartialEq, Eq, Structural)]
pub enum ProbeResult {
    Unchecked,
    Failed,
    /// Measured round trip, in microseconds.
    Measured(u64),
}

/// A response with its deadline (milliseconds on the clock) and metadata.
#[derive(Debug)]
pub struct DnsResponse {
    message: Message,
    prepared_wire: Option<Vec<u8>>,
    wire_len: Option<usize>,
    valid_until: u64,
    name_server_group: Option<String>,
    probe_result: ProbeResult,
}

/// How a TTL operation treats each record.
#[derive(Clone, Copy, Debug, PartialEq, Eq, Structural)]
pub enum TtlOp {
    /// Lower TTLs above the value to it.
    Cap,
    /// Raise TTLs below the value to it.
    Floor,
    /// Replace every TTL by the value.
    Replace,
}

/// A record's TTL after an operation with `ttl`.
pub open spec fn apply_ttl(op: TtlOp, old: u32, ttl: u32) -> u32 {
    match op {
        TtlOp::Cap => if old > ttl { ttl } else { old },
        TtlOp::Floor => if old < ttl { ttl } else { old },
        TtlOp::Replace => ttl,
    }
}

/// Records after a TTL operation: only their TTLs change.
pub open spec fn map_ttl(rs: Seq<RecordV>, op: TtlOp, ttl: u32) -> Seq<RecordV> {
    rs.map_values(|r: RecordV| RecordV { ttl: apply_ttl(op, r.ttl, ttl), ..r })
}

/// Whether the operation changes some record.
pub open spec fn changes_some(rs: Seq<RecordV>, op: TtlOp, ttl: u32) -> bool {
    exists|i: int| 0 <= i < rs.len() && apply_ttl(op, #[trigger] rs[i].ttl, ttl) != rs[i].ttl
}

/// The largest TTL among the records.
pub open spec fn seq_max_ttl(rs: Seq<RecordV>) -> Option<u32>
    decreases rs.len(),
{
    if rs.len() == 0 {
        None
    } else {
        match seq_max_ttl(rs.drop_last()) {
            None => Some(rs.last().ttl),
            Some(m) => Some(if rs.last().ttl > m { rs.last().ttl } else { m }),
        }
    }
}

/// The smallest TTL among the records.
pub open spec fn seq_min_ttl(rs: Seq<RecordV>) -> Option<u32>
    decreases rs.len(),
{
    if rs.len() == 0 {
        None
    } else {
        match seq_min_ttl(rs.drop_last()) {
            None => Some(rs.last().ttl),
            Some(m) => Some(if rs.last().ttl < m { rs.last().ttl } else { m }),
        }
    }
}

/// The addresses held by the records, in order.
pub open spec fn seq_ips(rs: Seq<RecordV>) -> Seq<IpAddress>
    decreases rs.len(),
{
    if rs.len() == 0 {
        Seq::empty()
    } else {
        match rdata_ip(rs.last().data) {
            Some(ip) => seq_ips(rs.drop_last()).push(ip),
            None => seq_ips(rs.drop_last()),
        }
    }
}

/// `now` plus `secs` seconds in milliseconds, saturating at the end of the clock.
pub open spec fn deadline(now: u64, secs: u32) -> u64 {
    if now + secs * 1000 > u64::MAX {
        u64::MAX
    } else {
        (now + secs * 1000) as u64
    }
}

/// The header of a locally made answer.
pub open spec fn answer_header() -> Header {
    Header {
        id: 0,
        is_response: true,
        op_code: 0,
        authoritative: false,
        truncated: false,
        recursion_desired: false,
        recursion_available: false,
        authentic_data: false,
        checking_disabled: false,
        response_code: ResponseCode::NoError,
    }
}

/// The message that answers `query` with `records`.
pub open spec fn answer_message(query: QueryV, records: Seq<RecordV>) -> MessageV {
    MessageV {
        header: answer_header(),
        queries: seq![query],
        answers: records,
        authorities: Seq::empty(),
        additionals: Seq::empty(),
        edns: None,
    }
}

/// Records after a TTL operation.
pub fn map_records_ttl(rs: &Vec<Record>, op: TtlOp, ttl: u32) -> (r: Vec<Record>)
    ensures
        record_views(r@) == map_ttl(record_views(rs@), op, ttl),
{
    let mut out: Vec<Record> = Vec::new();
    let mut i: usize = 0;
    while i < rs.len()
        invariant
            i <= rs@.len(),
            out@.len() == i,
            forall|j: int| 0 <= j < i ==> #[trigger] out@[j]@ == (RecordV { ttl: apply_ttl(op, rs@[j]@.ttl, ttl), ..rs@[j]@ }),
        decreases rs.len() - i,
    {
        let mut c = rs[i].clone();
        let t = match op {
            TtlOp::Cap => if c.ttl > ttl { ttl } else { c.ttl },
            TtlOp::Floor => if c.ttl < ttl { ttl } else { c.ttl },
            TtlOp::Replace => ttl,
        };
        c.ttl = t;
        out.push(c);
        i = i + 1;
    }
    assert(record_views(out@) =~= map_ttl(record_views(rs@), op, ttl));
    out
}

/// Whether a TTL operation would change some record.
pub fn ttl_op_changes(rs: &Vec<Record>, op: TtlOp, ttl: u32) -> (r: bool)
    ensures
        r == changes_some(record_views(rs@), op, ttl),
{
    let mut i: usize = 0;
    while i < rs.len()
        invariant
            i <= rs@.len(),
            forall|j: int| 0 <= j < i ==> apply_ttl(op, #[trigger] record_views(rs@)[j].ttl, ttl) == record_views(rs@)[j].ttl,
        decreases rs.len() - i,
    {
        let t = rs[i].ttl;
        let changed = match op {
            TtlOp::Cap => t > ttl,
            TtlOp::Floor => t < ttl,
            TtlOp::Replace => t != ttl,
        };
        assert(record_views(rs@)[i as int].ttl == t);
        if changed {
            return true;
        }
        i = i + 1;
    }
    false
}

proof fn lemma_unchanged_map(rs: Seq<RecordV>, op: TtlOp, ttl: u32)
    requires
        !changes_some(rs, op, ttl),
    ensures
        map_ttl(rs, op, ttl) == rs,
{
    assert forall|i: int| 0 <= i < rs.len() implies map_ttl(rs, op, ttl)[i] == rs[i] by {
        assert(apply_ttl(op, rs[i].ttl, ttl) == rs[i].ttl);
    }
    assert(map_ttl(rs, op, ttl) =~= rs);
}

impl DnsResponse {
    /// The prepared encoding, when present, is the encoding of the message,
    /// and a recorded payload size is never zero.
    #[verifier::type_invariant]
    spec fn consistent(self) -> bool {
        &&& self.prepared_wire matches Some(w) ==> encode_message(self.message@) == Some(w@)
        &&& self.wire_len matches Some(n) ==> n > 0
    }

    pub closed spec fn spec_message(self) -> MessageV {
        self.message@
    }

    pub closed spec fn spec_prepared(self) -> Option<Seq<u8>> {
        match self.prepared_wire {
            Some(w) => Some(w@),
            None => None,
        }
    }

    pub closed spec fn spec_wire_len(self) -> Option<usize> {
        self.wire_len
    }

    pub closed spec fn spec_valid_until(self) -> u64 {
        self.valid_until
    }

    pub closed spec fn spec_group(self) -> Option<Seq<char>> {
        match self.name_server_group {
            Some(g) => Some(g@),
            None => None,
        }
    }

    pub closed spec fn spec_probe(self) -> ProbeResult {
        self.probe_result
    }

    /// A response that answers `query` with `records`, valid until the deadline.
    pub fn new_with_deadline(query: Query, records: Vec<Record>, valid_until: u64) -> (r: Self)
        ensures
            r.spec_message() == answer_message(query@, record_views(records@)),
            r.spec_valid_until() == valid_until,
            r.spec_prepared() is None,
            r.spec_wire_len() is None,
            r.spec_group() is None,
            r.spec_probe() == ProbeResult::Unchecked,
    {
        let mut message = Message::query(0);
        message.header.is_response = true;
        message.queries.push(query);
        message.answers = records;
        let r = DnsResponse {
            message,
            prepared_wire: None,
            wire_len: None,
            valid_until,
            name_server_group: None,
            probe_result: ProbeResult::Unchecked,
        };
        assert(r.spec_message() =~= answer_message(query@, record_views(records@)));
        r
    }

    /// A response that answers `query` with `records`, valid for [`MAX_TTL`] from now.
    pub fn new_with_max_ttl(query: Query, records: Vec<Record>) -> (r: Self)
        ensures
            r.spec_message() == answer_message(query@, record_views(records@)),
            exists|now: u64| #[trigger] deadline(now, MAX_TTL) == r.spec_valid_until(),
            r.spec_prepared() is None,
            r.spec_wire_len() is None,
            r.spec_group() is None,
            r.spec_probe() == ProbeResult::Unchecked,
    {
        let now = now_millis();
        let r = Self::new_with_deadline(query, records, now.saturating_add(MAX_TTL as u64 * 1000));
        assert(deadline(now, MAX_TTL) == r.spec_valid_until());
        r
    }

    /// An empty query message, valid until now.
    pub fn empty() -> (r: Self)
        ensures
            r.spec_message().header.id == 0,
            !r.spec_message().header.is_response,
            r.spec_message().header.op_code == 0,
            !r.spec_message().header.authoritative && !r.spec_message().header.truncated,
            !r.spec_message().header.recursion_desired && !r.spec_message().header.recursion_available,
            !r.spec_message().header.authentic_data && !r.spec_message().header.checking_disabled,
            r.spec_message().header.response_code == ResponseCode::NoError,
            r.spec_message().queries.len() == 0,
            r.spec_message().answers.len() == 0,
            r.spec_message().authorities.len() == 0,
            r.spec_message().additionals.len() == 0,
            r.spec_message().edns is None,
            r.spec_prepared() is None,
            r.spec_wire_len() is None,
            r.spec_group() is None,
            r.spec_probe() == ProbeResult::Unchecked,
    {
        DnsResponse {
            message: Message::query(0),
            prepared_wire: None,
            wire_len: None,
            valid_until: now_millis(),
            name_server_group: None,
            probe_result: ProbeResult::Unchecked,
        }
    }

    /// Answers `query` with one record of `rdata` for the query name, with
    /// the maximum TTL.
    pub fn from_rdata(query: Query, rdata: RData) -> (r: Self)
        ensures
            r.spec_message() == answer_message(
                query@,
                seq![RecordV { name: query@.name, dns_class: 1, ttl: MAX_TTL, data: rdata@ }],
            ),
            r.spec_prepared() is None,
            r.spec_wire_len() is None,
            r.spec_group() is None,
            r.spec_probe() == ProbeResult::Unchecked,
    {
        let record = Record::from_rdata(query.name.clone(), MAX_TTL, rdata);
        let mut records: Vec<Record> = Vec::new();
        records.push(record);
        assert(record_views(records@) =~= seq![record@]);
        Self::new_with_max_ttl(query, records)
    }

    /// A response made from a message: it stays valid for the smallest
    /// answer TTL (the maximum TTL when there is no answer) from `now`.
    pub fn from_message(message: Message, now: u64) -> (r: Self)
        ensures
            r.spec_message() == message@,
            r.spec_valid_until() == deadline(now, match seq_min_ttl(message@.answers) {
                Some(t) => t,
                None => MAX_TTL,
            }),
            r.spec_prepared() is None,
            r.spec_wire_len() is None,
            r.spec_group() is None,
            r.spec_probe() == ProbeResult::Unchecked,
    {
        let ttl = match min_ttl_of(&message.answers) {
            Some(t) => t,
            None => MAX_TTL,
        };
        DnsResponse {
            message,
            prepared_wire: None,
            wire_len: None,
            valid_until: now.saturating_add(ttl as u64 * 1000),
            name_server_group: None,
            probe_result: ProbeResult::Unchecked,
        }
    }

    /// A response made from a message received in a payload of `payload_len` bytes.
    pub fn from_received(message: Message, payload_len: usize, now: u64) -> (r: Self)
        ensures
            r.spec_message() == message@,
            r.spec_valid_until() == deadline(now, match seq_min_ttl(message@.answers) {
                Some(t) => t,
                None => MAX_TTL,
            }),
            r.spec_wire_len() == (if payload_len == 0 { None } else { Some(payload_len) }),
            r.spec_prepared() is None,
            r.spec_group() is None,
            r.spec_probe() == ProbeResult::Unchecked,
    {
        let mut r = Self::from_message(message, now);
        r.wire_len = if payload_len == 0 { None } else { Some(payload_len) };
        r
    }

    /// The first question, or the root A question when there is none.
    pub fn query(&self) -> (q: Query)
        ensures
            self.spec_message().queries.len() > 0 ==> q@ == self.spec_message().queries[0],
            self.spec_message().queries.len() == 0 ==> q@ == (QueryV {
                name: Seq::empty(),
                query_type: RecordType::A,
                query_class: 1,
            }),
    {
        if self.message.queries.len() > 0 {
            self.message.queries[0].clone()
        } else {
            Query::default_query()
        }
    }

    pub fn message(&self) -> (m: &Message)
        ensures
            m@ == self.spec_message(),
    {
        &self.message
    }

    /// Size of the payload the response arrived in, while its records are unchanged.
    pub fn wire_len(&self) -> (r: Option<usize>)
        ensures
            r == self.spec_wire_len(),
    {
        self.wire_len
    }

    /// Keeps the encoding of the message for later replies.
    pub fn prepare_wire(&mut self)
        ensures
            final(self).spec_message() == old(self).spec_message(),
            final(self).spec_wire_len() == old(self).spec_wire_len(),
            final(self).spec_valid_until() == old(self).spec_valid_until(),
            final(self).spec_group() == old(self).spec_group(),
            final(self).spec_probe() == old(self).spec_probe(),
            final(self).spec_prepared() == encode_message(old(self).spec_message()),
    {
        proof {
            use_type_invariant(&*self);
        }
        if self.prepared_wire.is_none() {
            match to_vec(&self.message) {
                Ok(w) => {
                    self.prepared_wire = Some(w);
                },
                Err(_) => {},
            }
        }
    }

    /// Memory held by the prepared encoding, with its two reference counters.
    pub fn prepared_wire_memory(&self) -> (r: usize)
        ensures
            r == match self.spec_prepared() {
                Some(w) => if w.len() + 2 * (usize::BITS / 8) > usize::MAX {
                    usize::MAX as int
                } else {
                    w.len() + 2 * (usize::BITS / 8)
                },
                None => 0,
            },
    {
        match &self.prepared_wire {
            Some(w) => w.len().saturating_add(2 * (usize::BITS / 8) as usize),
            None => 0,
        }
    }

    /// The encoding of the message, the prepared one when present.
    pub fn to_vec(&self) -> (r: Result<Vec<u8>, EncodeError>)
        ensures
            r is Ok <==> encode_message(self.spec_message()) is Some,
            r matches Ok(b) ==> encode_message(self.spec_message()) == Some(b@),
            self.spec_prepared() matches Some(w) ==> encode_message(self.spec_message()) == Some(w),
    {
        proof {
            use_type_invariant(self);
        }
        match &self.prepared_wire {
            Some(w) => Ok(crate::message::copy_bytes(w)),
            None => to_vec(&self.message),
        }
    }

    pub fn valid_until(&self) -> (r: u64)
        ensures
            r == self.spec_valid_until(),
    {
        self.valid_until
    }

    pub fn with_valid_until(self, valid_until: u64) -> (r: Self)
        ensures
            r.spec_valid_until() == valid_until,
            r.spec_message() == self.spec_message(),
            r.spec_prepared() == self.spec_prepared(),
            r.spec_wire_len() == self.spec_wire_len(),
            r.spec_group() == self.spec_group(),
            r.spec_probe() == self.spec_probe(),
    {
        proof {
            use_type_invariant(&self);
        }
        let mut s = self;
        s.valid_until = valid_until;
        s
    }

    pub fn name_server_group(&self) -> (r: Option<&str>)
        ensures
            match r {
                Some(g) => self.spec_group() == Some(g@),
                None => self.spec_group() is None,
            },
    {
        match &self.name_server_group {
            Some(g) => Some(g.as_str()),
            None => None,
        }
    }

    pub fn with_name_server_group(self, group_name: String) -> (r: Self)
        ensures
            r.spec_group() == Some(group_name@),
            r.spec_message() == self.spec_message(),
            r.spec_prepared() == self.spec_prepared(),
            r.spec_wire_len() == self.spec_wire_len(),
            r.spec_valid_until() == self.spec_valid_until(),
            r.spec_probe() == self.spec_probe(),
    {
        proof {
            use_type_invariant(&self);
        }
        let mut s = self;
        s.name_server_group = Some(group_name);
        s
    }

    /// The answer records.
    pub fn records(&self) -> (r: &Vec<Record>)
        ensures
            record_views(r@) == self.spec_message().answers,
    {
        &self.message.answers
    }

    /// The answer records (the records that an iteration visits).
    pub fn record_iter(&self) -> (r: &[Record])
        ensures
            record_views(r@) == self.spec_message().answers,
    {
        self.message.answers.as_slice()
    }

    pub fn probe_result(&self) -> (r: ProbeResult)
        ensures
            r == self.spec_probe(),
    {
        self.probe_result
    }

    pub fn with_probe_result(self, result: ProbeResult) -> (r: Self)
        ensures
            r.spec_probe() == result,
            r.spec_message() == self.spec_message(),
            r.spec_prepared() == self.spec_prepared(),
            r.spec_wire_len() == self.spec_wire_len(),
            r.spec_valid_until() == self.spec_valid_until(),
            r.spec_group() == self.spec_group(),
    {
        proof {
            use_type_invariant(&self);
        }
        let mut s = self;
        s.probe_result = result;
        s
    }

    /// The addresses in the answer records, in order.
    pub fn ip_addrs(&self) -> (r: Vec<IpAddress>)
        ensures
            r@ == seq_ips(self.spec_message().answers),
    {
        let rs = &self.message.answers;
        let mut out: Vec<IpAddress> = Vec::new();
        let mut i: usize = 0;
        while i < rs.len()
            invariant
                i <= rs@.len(),
                record_views(rs@) == self.spec_message().answers,
                out@ == seq_ips(record_views(rs@).take(i as int)),
            decreases rs.len() - i,
        {
            assert(record_views(rs@).take(i + 1).drop_last() =~= record_views(rs@).take(i as int));
            match rs[i].data.ip_addr() {
                Some(ip) => out.push(ip),
                None => {},
            }
            i = i + 1;
        }
        assert(record_views(rs@).take(rs@.len() as int) =~= record_views(rs@));
        out
    }

    /// Valid for `ttl` seconds from `now`.
    pub fn set_valid_until_at(&mut self, now: u64, ttl: u32)
        ensures
            final(self).spec_valid_until() == deadline(now, ttl),
            final(self).spec_message() == old(self).spec_message(),
            final(self).spec_prepared() == old(self).spec_prepared(),
            final(self).spec_wire_len() == old(self).spec_wire_len(),
            final(self).spec_group() == old(self).spec_group(),
            final(self).spec_probe() == old(self).spec_probe(),
    {
        proof {
            use_type_invariant(&*self);
        }
        self.valid_until = now.saturating_add(ttl as u64 * 1000);
    }

    /// Valid for `ttl` seconds from now.
    pub fn set_valid_until(&mut self, ttl: u32)
        ensures
            exists|now: u64| #[trigger] deadline(now, ttl) == final(self).spec_valid_until(),
            final(self).spec_message() == old(self).spec_message(),
            final(self).spec_prepared() == old(self).spec_prepared(),
            final(self).spec_wire_len() == old(self).spec_wire_len(),
            final(self).spec_group() == old(self).spec_group(),
            final(self).spec_probe() == old(self).spec_probe(),
    {
        let now = now_millis();
        self.set_valid_until_at(now, ttl);
        assert(deadline(now, ttl) == self.spec_valid_until());
    }

    /// Valid for [`MAX_TTL`] from now.
    pub fn set_valid_until_max(&mut self)
        ensures
            exists|now: u64| #[trigger] deadline(now, MAX_TTL) == final(self).spec_valid_until(),
            final(self).spec_message() == old(self).spec_message(),
            final(self).spec_prepared() == old(self).spec_prepared(),
            final(self).spec_wire_len() == old(self).spec_wire_len(),
            final(self).spec_group() == old(self).spec_group(),
            final(self).spec_probe() == old(self).spec_probe(),
    {
        self.set_valid_until(MAX_TTL)
    }

    /// The message and its prepared encoding, for a reply.
    pub fn into_reply_parts(self) -> (r: (Message, Option<Vec<u8>>))
        ensures
            r.0@ == self.spec_message(),
            option_bytes(r.1) == self.spec_prepared(),
            r.1 matches Some(w) ==> encode_message(r.0@) == Some(w@),
    {
        proof {
            use_type_invariant(&self);
        }
        let DnsResponse { message, prepared_wire, .. } = self;
        (message, prepared_wire)
    }

    /// The largest answer TTL.
    pub fn max_ttl(&self) -> (r: Option<u32>)
        ensures
            r == seq_max_ttl(self.spec_message().answers),
    {
        max_ttl_of(&self.message.answers)
    }

    /// The smallest answer TTL.
    pub fn min_ttl(&self) -> (r: Option<u32>)
        ensures
            r == seq_min_ttl(self.spec_message().answers),
    {
        min_ttl_of(&self.message.answers)
    }

    /// Gives every answer record the TTL `ttl`; the prepared encoding is
    /// dropped when a TTL changes, the received payload size is kept.
    pub fn set_new_ttl(&mut self, ttl: u32)
        ensures
            final(self).spec_message() == (MessageV {
                answers: map_ttl(old(self).spec_message().answers, TtlOp::Replace, ttl),
                ..old(self).spec_message()
            }),
            changes_some(old(self).spec_message().answers, TtlOp::Replace, ttl) ==> final(self).spec_prepared() is None,
            !changes_some(old(self).spec_message().answers, TtlOp::Replace, ttl) ==> final(self).spec_prepared() == old(self).spec_prepared(),
            final(self).spec_wire_len() == old(self).spec_wire_len(),
            final(self).spec_valid_until() == old(self).spec_valid_until(),
            final(self).spec_group() == old(self).spec_group(),
            final(self).spec_probe() == old(self).spec_probe(),
    {
        self.answers_ttl(TtlOp::Replace, ttl)
    }

    /// Raises answer TTLs below `ttl` to it.
    pub fn set_min_ttl(&mut self, ttl: u32)
        ensures
            final(self).spec_message() == (MessageV {
                answers: map_ttl(old(self).spec_message().answers, TtlOp::Floor, ttl),
                ..old(self).spec_message()
            }),
            changes_some(old(self).spec_message().answers, TtlOp::Floor, ttl) ==> final(self).spec_prepared() is None,
            !changes_some(old(self).spec_message().answers, TtlOp::Floor, ttl) ==> final(self).spec_prepared() == old(self).spec_prepared(),
            final(self).spec_wire_len() == old(self).spec_wire_len(),
            final(self).spec_valid_until() == old(self).spec_valid_until(),
            final(self).spec_group() == old(self).spec_group(),
            final(self).spec_probe() == old(self).spec_probe(),
    {
        self.answers_ttl(TtlOp::Floor, ttl)
    }

    fn answers_ttl(&mut self, op: TtlOp, ttl: u32)
        ensures
            final(self).spec_message() == (MessageV {
                answers: map_ttl(old(self).spec_message().answers, op, ttl),
                ..old(self).spec_message()
            }),
            changes_some(old(self).spec_message().answers, op, ttl) ==> final(self).spec_prepared() is None,
            !changes_some(old(self).spec_message().answers, op, ttl) ==> final(self).spec_prepared() == old(self).spec_prepared(),
            final(self).spec_wire_len() == old(self).spec_wire_len(),
            final(self).spec_valid_until() == old(self).spec_valid_until(),
            final(self).spec_group() == old(self).spec_group(),
            final(self).spec_probe() == old(self).spec_probe(),
    {
        proof {
            use_type_invariant(&*self);
        }
        if ttl_op_changes(&self.message.answers, op, ttl) {
            let answers = map_records_ttl(&self.message.answers, op, ttl);
            self.prepared_wire = None;
            self.message.answers = answers;
            assert(self.spec_message() =~= MessageV {
                answers: map_ttl(old(self).spec_message().answers, op, ttl),
                ..old(self).spec_message()
            });
        } else {
            proof {
                lemma_unchanged_map(old(self).spec_message().answers, op, ttl);
            }
        }
    }

    /// Caps the TTLs of answer, authority and additional records at `ttl`.
    pub fn set_max_ttl(&mut self, ttl: u32)
        ensures
            final(self).spec_message() == (MessageV {
                answers: map_ttl(old(self).spec_message().answers, TtlOp::Cap, ttl),
                authorities: map_ttl(old(self).spec_message().authorities, TtlOp::Cap, ttl),
                additionals: map_ttl(old(self).spec_message().additionals, TtlOp::Cap, ttl),
                ..old(self).spec_message()
            }),
            final(self).spec_wire_len() == old(self).spec_wire_len(),
            final(self).spec_valid_until() == old(self).spec_valid_until(),
            final(self).spec_group() == old(self).spec_group(),
            final(self).spec_probe() == old(self).spec_probe(),
            (changes_some(old(self).spec_message().answers, TtlOp::Cap, ttl)
                || changes_some(old(self).spec_message().authorities, TtlOp::Cap, ttl)
                || changes_some(old(self).spec_message().additionals, TtlOp::Cap, ttl))
                ==> final(self).spec_prepared() is None,
            !(changes_some(old(self).spec_message().answers, TtlOp::Cap, ttl)
                || changes_some(old(self).spec_message().authorities, TtlOp::Cap, ttl)
                || changes_some(old(self).spec_message().additionals, TtlOp::Cap, ttl))
                ==> final(self).spec_prepared() == old(self).spec_prepared(),
    {
        proof {
            use_type_invariant(&*self);
        }
        let op = TtlOp::Cap;
        if !ttl_op_changes(&self.message.answers, op, ttl)
            && !ttl_op_changes(&self.message.authorities, op, ttl)
            && !ttl_op_changes(&self.message.additionals, op, ttl) {
            proof {
                lemma_unchanged_map(old(self).spec_message().answers, op, ttl);
                lemma_unchanged_map(old(self).spec_message().authorities, op, ttl);
                lemma_unchanged_map(old(self).spec_message().additionals, op, ttl);
            }
            return;
        }
        let answers = map_records_ttl(&self.message.answers, op, ttl);
        let authorities = map_records_ttl(&self.message.authorities, op, ttl);
        let additionals = map_records_ttl(&self.message.additionals, op, ttl);
        self.prepared_wire = None;
        self.message.answers = answers;
        self.message.authorities = authorities;
        self.message.additionals = additionals;
        assert(self.spec_message() =~= MessageV {
            answers: map_ttl(old(self).spec_message().answers, op, ttl),
            authorities: map_ttl(old(self).spec_message().authorities, op, ttl),
            additionals: map_ttl(old(self).spec_message().additionals, op, ttl),
            ..old(self).spec_message()
        });
    }

    /// The response code of the message.
    pub fn response_code(&self) -> (r: ResponseCode)
        ensures
            r == self.spec_message().header.response_code,
    {
        self.message.header.response_code
    }

    /// Appends a record to the answer section; the prepared encoding and the
    /// received payload size no longer describe the message and are dropped.
    pub fn add_answer(&mut self, record: Record)
        ensures
            final(self).spec_message() == (MessageV {
                answers: old(self).spec_message().answers.push(record@),
                ..old(self).spec_message()
            }),
            final(self).spec_prepared() is None,
            final(self).spec_wire_len() is None,
            final(self).spec_valid_until() == old(self).spec_valid_until(),
            final(self).spec_group() == old(self).spec_group(),
            final(self).spec_probe() == old(self).spec_probe(),
    {
        proof {
            use_type_invariant(&*self);
        }
        self.wire_len = None;
        self.prepared_wire = None;
        let mut answers = copy_records(&self.message.answers);
        let ghost before = answers@;
        answers.push(record);
        assert(record_views(answers@) =~= record_views(before).push(record@));
        self.message.answers = answers;
    }

    /// Appends a record to the authority section; the prepared encoding and
    /// the received payload size no longer describe the message and are dropped.
    pub fn add_authority(&mut self, record: Record)
        ensures
            final(self).spec_message() == (MessageV {
                authorities: old(self).spec_message().authorities.push(record@),
                ..old(self).spec_message()
            }),
            final(self).spec_prepared() is None,
            final(self).spec_wire_len() is None,
            final(self).spec_valid_until() == old(self).spec_valid_until(),
            final(self).spec_group() == old(self).spec_group(),
            final(self).spec_probe() == old(self).spec_probe(),
    {
        proof {
            use_type_invariant(&*self);
        }
        self.wire_len = None;
        self.prepared_wire = None;
        let mut authorities = copy_records(&self.message.authorities);
        let ghost before = authorities@;
        authorities.push(record);
        assert(record_views(authorities@) =~= record_views(before).push(record@));
        self.message.authorities = authorities;
    }

    /// Sets the response code of the message; the prepared encoding and the
    /// received payload size are dropped.
    pub fn set_response_code(&mut self, code: ResponseCode)
        ensures
            final(self).spec_message() == (MessageV {
                header: Header { response_code: code, ..old(self).spec_message().header },
                ..old(self).spec_message()
            }),
            final(self).spec_prepared() is None,
            final(self).spec_wire_len() is None,
            final(self).spec_valid_until() == old(self).spec_valid_until(),
            final(self).spec_group() == old(self).spec_group(),
            final(self).spec_probe() == old(self).spec_probe(),
    {
        proof {
            use_type_invariant(&*self);
        }
        self.wire_len = None;
        self.prepared_wire = None;
        self.message.header.response_code = code;
    }

    /// Replaces the message; the prepared encoding and the received payload
    /// size no longer describe it and are dropped.
    pub fn set_message(&mut self, message: Message)
        ensures
            final(self).spec_message() == message@,
            final(self).spec_prepared() is None,
            final(self).spec_wire_len() is None,
            final(self).spec_valid_until() == old(self).spec_valid_until(),
            final(self).spec_group() == old(self).spec_group(),
            final(self).spec_probe() == old(self).spec_probe(),
    {
        proof {
            use_type_invariant(&*self);
        }
        self.wire_len = None;
        self.prepared_wire = None;
        self.message = message;
    }
}

/// The byte sequence of an optional buffer.
pub open spec fn option_bytes(v: Option<Vec<u8>>) -> Option<Seq<u8>> {
    match v {
        Some(b) => Some(b@),
        None => None,
    }
}

impl Clone for DnsResponse {
    fn clone(&self) -> (r: Self)
        ensures
            r.spec_message() == self.spec_message(),
            r.spec_prepared() == self.spec_prepared(),
            r.spec_wire_len() == self.spec_wire_len(),
            r.spec_valid_until() == self.spec_valid_until(),
            r.spec_group() == self.spec_group(),
            r.spec_probe() == self.spec_probe(),
    {
        proof {
            use_type_invariant(self);
        }
        DnsResponse {
            message: self.message.clone(),
            prepared_wire: match &self.prepared_wire {
                Some(w) => Some(crate::message::copy_bytes(w)),
                None => None,
            },
            wire_len: self.wire_len,
            valid_until: self.valid_until,
            name_server_group: match &self.name_server_group {
                Some(g) => Some(g.clone()),
                None => None,
            },
            probe_result: self.probe_result,
        }
    }
}

/// The smallest TTL among `rs`.
pub fn min_ttl_of(rs: &Vec<Record>) -> (r: Option<u32>)
    ensures
        r == seq_min_ttl(record_views(rs@)),
{
    let mut m: Option<u32> = None;
    let mut i: usize = 0;
    while i < rs.len()
        invariant
            i <= rs@.len(),
            m == seq_min_ttl(record_views(rs@).take(i as int)),
        decreases rs.len() - i,
    {
        let t = rs[i].ttl;
        assert(record_views(rs@).take(i + 1).drop_last() =~= record_views(rs@).take(i as int));
        m = match m {
            None => Some(t),
            Some(x) => Some(if t < x { t } else { x }),
        };
        i = i + 1;
    }
    assert(record_views(rs@).take(rs@.len() as int) =~= record_views(rs@));
    m
}

/// The largest TTL among `rs`.
pub fn max_ttl_of(rs: &Vec<Record>) -> (r: Option<u32>)
    ensures
        r == seq_max_ttl(record_views(rs@)),
{
    let mut m: Option<u32> = None;
    let mut i: usize = 0;
    while i < rs.len()
        invariant
            i <= rs@.len(),
            m == seq_max_ttl(record_views(rs@).take(i as int)),
        decreases rs.len() - i,
    {
        let t = rs[i].ttl;
        assert(record_views(rs@).take(i + 1).drop_last() =~= record_views(rs@).take(i as int));
        m = match m {
            None => Some(t),
            Some(x) => Some(if t > x { t } else { x }),
        };
        i = i + 1;
    }
    assert(record_views(rs@).take(rs@.len() as int) =~= record_views(rs@));
    m
}


proof fn lemma_ttl_records_len(rs: Seq<RecordV>, op: TtlOp, ttl: u32)
    ensures
        (crate::codec::enc_records(map_ttl(rs, op, ttl)) is Some) == (crate::codec::enc_records(rs) is Some),
        crate::codec::enc_records(rs) matches Some(b) ==> crate::codec::enc_records(map_ttl(rs, op, ttl))->0.len()
            == b.len(),
    decreases rs.len(),
{
    if rs.len() > 0 {
        assert(map_ttl(rs, op, ttl).drop_first() =~= map_ttl(rs.drop_first(), op, ttl));
        lemma_ttl_records_len(rs.drop_first(), op, ttl);
        let r = rs[0];
        let r2 = map_ttl(rs, op, ttl)[0];
        assert(r2 == RecordV { ttl: apply_ttl(op, r.ttl, ttl), ..r });
    }
}

/// Changing TTLs keeps the length of a message's encoding: a message with
/// an encoding keeps one of the same length, one without gets none.
pub proof fn law_ttl_change_keeps_encoding_length(m: MessageV, op: TtlOp, ttl: u32)
    ensures
        (encode_message(MessageV { answers: map_ttl(m.answers, op, ttl), ..m }) is Some) == (encode_message(m) is Some),
        encode_message(m) matches Some(b) ==> encode_message(MessageV { answers: map_ttl(m.answers, op, ttl), ..m })->0.len()
            == b.len(),
{
    lemma_ttl_records_len(m.answers, op, ttl);
    assert(map_ttl(m.answers, op, ttl).len() == m.answers.len());
}

/// The message after TTL changes, in order.
pub open spec fn apply_ttl_ops(m: MessageV, ops: Seq<(TtlOp, u32)>) -> MessageV
    decreases ops.len(),
{
    if ops.len() == 0 {
        m
    } else {
        let prev = apply_ttl_ops(m, ops.drop_last());
        MessageV { answers: map_ttl(prev.answers, ops.last().0, ops.last().1), ..prev }
    }
}

/// Any sequence of TTL changes keeps the length of a message's encoding:
/// a payload size that equals the encoding's length (and that the TTL
/// setters keep) still equals it after them.
pub proof fn law_ttl_changes_keep_encoding_length(m: MessageV, ops: Seq<(TtlOp, u32)>, n: nat)
    requires
        encode_message(m) matches Some(b) && b.len() == n,
    ensures
        encode_message(apply_ttl_ops(m, ops)) matches Some(b) && b.len() == n,
    decreases ops.len(),
{
    if ops.len() > 0 {
        law_ttl_changes_keep_encoding_length(m, ops.drop_last(), n);
        law_ttl_change_keeps_encoding_length(apply_ttl_ops(m, ops.drop_last()), ops.last().0, ops.last().1);
    }
}

} // verus!
