//! The answer cache: entries kept in least-recently-used order, their
//! memory charge, what a lookup serves (fresh or stale) and which entries
//! are due for a refresh.
use vstd::prelude::*;
use lru::LruCache;
use crate::message::{copy_records, Name, Query, QueryV, Record, RecordV, RecordType, RDataV, Message, MessageV, ResponseCode,
    type_code, rdata_type, record_views, label_seqs};
use crate::response::{DnsResponse, TtlOp, map_ttl, MAX_TTL, deadline};
use crate::codec::encode_message;
use crate::clock::now_millis;
use crate::dns_error::{LookupError, no_records_of, no_records_message, spec_is_negative};
use crate::response::seq_min_ttl;

verus! {

// ---------------------------------------------------------------------------
// Cache keys

/// An ASCII byte in lower case.
pub open spec fn lower(b: u8) -> u8 {
    if 65 <= b <= 90 {
        (b + 32) as u8
    } else {
        b
    }
}

/// A label in lower case.
pub open spec fn lower_label(l: Seq<u8>) -> Seq<u8> {
    l.map_values(|b: u8| lower(b))
}

/// The labels of a name in lower case: names that differ only in the case
/// of ASCII letters are the same name.
pub open spec fn name_key(n: Seq<Seq<u8>>) -> Seq<Seq<u8>> {
    n.map_values(|l: Seq<u8>| lower_label(l))
}

/// The bytes of the labels in lower case, each after its length byte.
pub open spec fn key_labels(n: Seq<Seq<u8>>) -> Seq<u8>
    decreases n.len(),
{
    if n.len() == 0 {
        Seq::empty()
    } else {
        key_labels(n.drop_last()) + seq![n.last().len() as u8] + lower_label(n.last())
    }
}

/// The cache key of a question: its name without regard to case, its type
/// and its class.
pub open spec fn query_key(q: QueryV) -> Seq<u8> {
    key_labels(q.name) + seq![0u8] + crate::octets::be16(type_code(q.query_type))
        + crate::octets::be16(q.query_class)
}

/// An ASCII byte in lower case.
pub fn to_lower(b: u8) -> (r: u8)
    ensures
        r == lower(b),
{
    if 65 <= b && b <= 90 {
        b + 32
    } else {
        b
    }
}

/// The cache key of a question.
pub fn cache_key(q: &Query) -> (r: Vec<u8>)
    ensures
        r@ == query_key(q@),
{
    let mut r: Vec<u8> = Vec::new();
    let ghost n = q@.name;
    let mut i: usize = 0;
    assert(n.take(0) =~= Seq::<Seq<u8>>::empty());
    while i < q.name.labels.len()
        invariant
            i <= q.name.labels@.len(),
            n == q@.name,
            n.len() == q.name.labels@.len(),
            r@ == key_labels(n.take(i as int)),
        decreases q.name.labels.len() - i,
    {
        let l = &q.name.labels[i];
        assert(n[i as int] == l@);
        let ghost start = r@;
        r.push(l.len() as u8);
        let mut j: usize = 0;
        while j < l.len()
            invariant
                j <= l@.len(),
                r@ == start + seq![l@.len() as u8] + lower_label(l@).take(j as int),
            decreases l.len() - j,
        {
            r.push(to_lower(l[j]));
            assert(lower_label(l@).take(j + 1) =~= lower_label(l@).take(j as int).push(lower(l@[j as int])));
            j = j + 1;
        }
        assert(lower_label(l@).take(l@.len() as int) =~= lower_label(l@));
        proof {
            let t = n.take(i + 1);
            assert(t.drop_last() =~= n.take(i as int));
            assert(t.last() == l@);
        }
        i = i + 1;
    }
    assert(n.take(n.len() as int) =~= n);
    r.push(0u8);
    crate::octets::push_be16(&mut r, q.query_type.code());
    crate::octets::push_be16(&mut r, q.query_class);
    r
}

/// Whether two names are the same without regard to case.
pub fn same_name(a: &Name, b: &Name) -> (r: bool)
    ensures
        r == (name_key(a@) == name_key(b@)),
{
    if a.labels.len() != b.labels.len() {
        assert(name_key(a@).len() != name_key(b@).len());
        return false;
    }
    let mut i: usize = 0;
    while i < a.labels.len()
        invariant
            i <= a.labels@.len(),
            a.labels@.len() == b.labels@.len(),
            forall|k: int| 0 <= k < i ==> lower_label(#[trigger] a@[k]) == lower_label(b@[k]),
        decreases a.labels.len() - i,
    {
        let x = &a.labels[i];
        let y = &b.labels[i];
        assert(a@[i as int] == x@ && b@[i as int] == y@);
        if x.len() != y.len() {
            assert(name_key(a@)[i as int].len() != name_key(b@)[i as int].len());
            return false;
        }
        let mut j: usize = 0;
        while j < x.len()
            invariant
                j <= x@.len(),
                x@.len() == y@.len(),
                i < a.labels@.len(),
                a.labels@.len() == b.labels@.len(),
                a@[i as int] == x@,
                b@[i as int] == y@,
                forall|k: int| 0 <= k < i ==> lower_label(#[trigger] a@[k]) == lower_label(b@[k]),
                forall|m: int| 0 <= m < j ==> lower(#[trigger] x@[m]) == lower(y@[m]),
            decreases x.len() - j,
        {
            if to_lower(x[j]) != to_lower(y[j]) {
                assert(name_key(a@)[i as int][j as int] != name_key(b@)[i as int][j as int]);
                return false;
            }
            j = j + 1;
        }
        assert(lower_label(x@) =~= lower_label(y@));
        i = i + 1;
    }
    assert(name_key(a@) =~= name_key(b@));
    true
}

// ---------------------------------------------------------------------------
// Negative answers

/// The type asked by the first question (A when there is none).
pub open spec fn asked_type(m: MessageV) -> RecordType {
    if m.queries.len() > 0 {
        m.queries[0].query_type
    } else {
        RecordType::A
    }
}

/// Whether some record has the type `t`.
pub open spec fn has_type(rs: Seq<RecordV>, t: RecordType) -> bool {
    exists|i: int| 0 <= i < rs.len() && rdata_type(#[trigger] rs[i].data) == t
}

/// The smallest of min(TTL, SOA minimum) over the SOA records.
pub open spec fn soa_ttl(rs: Seq<RecordV>) -> Option<u32>
    decreases rs.len(),
{
    if rs.len() == 0 {
        None
    } else {
        let rest = soa_ttl(rs.drop_last());
        match rs.last().data {
            RDataV::SOA(soa) => {
                let t = if rs.last().ttl < soa.minimum { rs.last().ttl } else { soa.minimum };
                match rest {
                    None => Some(t),
                    Some(m) => Some(if t < m { t } else { m }),
                }
            },
            _ => rest,
        }
    }
}

/// `init` lowered to the TTL of each CNAME record.
pub open spec fn cname_cap(rs: Seq<RecordV>, init: u32) -> u32
    decreases rs.len(),
{
    if rs.len() == 0 {
        init
    } else {
        let t = cname_cap(rs.drop_last(), init);
        if rdata_type(rs.last().data) == RecordType::CNAME && rs.last().ttl < t {
            rs.last().ttl
        } else {
            t
        }
    }
}

/// How long a negative answer may be cached: only a NODATA or NXDOMAIN
/// answer with an SOA record has one; it is the SOA's TTL (at most its
/// minimum), lowered to the TTL of any CNAME in the answer.
pub open spec fn spec_negative_ttl(m: MessageV) -> Option<u32> {
    let rc = m.header.response_code;
    if !(rc == ResponseCode::NoError || rc == ResponseCode::NXDomain)
        || (rc == ResponseCode::NoError && has_type(m.answers, asked_type(m))) {
        None
    } else {
        match soa_ttl(m.authorities) {
            None => None,
            Some(t) => Some(cname_cap(m.answers, t)),
        }
    }
}

/// Whether some record of `rs` has the type `t`.
pub fn any_of_type(rs: &Vec<Record>, t: RecordType) -> (r: bool)
    ensures
        r == has_type(record_views(rs@), t),
{
    let ghost v = record_views(rs@);
    let mut i: usize = 0;
    while i < rs.len()
        invariant
            i <= rs@.len(),
            v == record_views(rs@),
            forall|j: int| 0 <= j < i ==> rdata_type(#[trigger] v[j].data) != t,
        decreases rs.len() - i,
    {
        assert(v[i as int] == rs@[i as int]@);
        if rs[i].record_type() == t {
            assert(rdata_type(v[i as int].data) == t);
            return true;
        }
        i = i + 1;
    }
    false
}

/// How long a negative answer may be cached (see [`spec_negative_ttl`]).
pub fn negative_response_ttl(response: &DnsResponse) -> (r: Option<u32>)
    ensures
        r == spec_negative_ttl(response.spec_message()),
{
    let m = response.message();
    let ghost mv = m@;
    let rc = m.header.response_code;
    let no_error = match rc {
        ResponseCode::NoError => true,
        _ => false,
    };
    let nx = match rc {
        ResponseCode::NXDomain => true,
        _ => false,
    };
    if !(no_error || nx) {
        return None;
    }
    if no_error {
        let asked = if m.queries.len() > 0 { m.queries[0].query_type } else { RecordType::A };
        assert(m.queries.len() > 0 ==> mv.queries[0] == m.queries@[0]@);
        if any_of_type(&m.answers, asked) {
            return None;
        }
    }
    let mut soa: Option<u32> = None;
    let mut i: usize = 0;
    let ghost auth = mv.authorities;
    assert(auth.take(0) =~= Seq::<RecordV>::empty());
    while i < m.authorities.len()
        invariant
            i <= m.authorities@.len(),
            auth == record_views(m.authorities@),
            soa == soa_ttl(auth.take(i as int)),
        decreases m.authorities.len() - i,
    {
        let rec = &m.authorities[i];
        assert(auth[i as int] == rec@);
        proof {
            let t = auth.take(i + 1);
            assert(t.drop_last() =~= auth.take(i as int));
        }
        match &rec.data {
            crate::message::RData::SOA(s) => {
                let t = if rec.ttl < s.minimum { rec.ttl } else { s.minimum };
                soa = match soa {
                    None => Some(t),
                    Some(x) => Some(if t < x { t } else { x }),
                };
            },
            _ => {},
        }
        i = i + 1;
    }
    assert(auth.take(auth.len() as int) =~= auth);
    let mut ttl = match soa {
        None => {
            return None;
        },
        Some(t) => t,
    };
    let ghost init = ttl;
    let ghost ans = mv.answers;
    let mut j: usize = 0;
    assert(ans.take(0) =~= Seq::<RecordV>::empty());
    while j < m.answers.len()
        invariant
            j <= m.answers@.len(),
            ans == record_views(m.answers@),
            ttl == cname_cap(ans.take(j as int), init),
        decreases m.answers.len() - j,
    {
        let rec = &m.answers[j];
        assert(ans[j as int] == rec@);
        proof {
            let t = ans.take(j + 1);
            assert(t.drop_last() =~= ans.take(j as int));
        }
        if rec.record_type() == RecordType::CNAME && rec.ttl < ttl {
            ttl = rec.ttl;
        }
        j = j + 1;
    }
    assert(ans.take(ans.len() as int) =~= ans);
    Some(ttl)
}

// ---------------------------------------------------------------------------
// Memory charges

/// `x` as a `usize`, saturating.
pub open spec fn sat(x: int) -> usize {
    if x > usize::MAX {
        usize::MAX
    } else if x < 0 {
        0
    } else {
        x as usize
    }
}

/// The payload size charged for a response: the received size, else the
/// size of its encoding, else nothing.
pub open spec fn wire_charge(r: DnsResponse) -> usize {
    match r.spec_wire_len() {
        Some(n) => n,
        None => match encode_message(r.spec_message()) {
            Some(b) => sat(b.len() as int),
            None => 0,
        },
    }
}

/// Bytes of a group name.
pub open spec fn group_charge(g: Option<Seq<char>>) -> usize {
    match g {
        Some(t) => sat(vstd::utf8::encode_utf8(t).len() as int),
        None => 0,
    }
}

/// The memory charged for the prepared encoding.
pub open spec fn prepared_charge(p: Option<Seq<u8>>) -> usize {
    match p {
        Some(w) => sat(w.len() + 2 * (usize::BITS / 8)),
        None => 0,
    }
}

/// The memory charged for a response: its payload, its decoded records and
/// questions, the message itself, two counters, its group name and its
/// prepared encoding, saturating.
pub open spec fn spec_response_memory(r: DnsResponse) -> usize {
    let m = r.spec_message();
    let records = sat((m.answers.len() + m.authorities.len() + m.additionals.len()) as int);
    sat(sat(sat(sat(sat(sat(wire_charge(r) + sat(records * vstd::layout::size_of::<Record>()))
        + vstd::layout::size_of::<Message>()) + sat((2 * vstd::layout::size_of::<usize>()) as int))
        + sat((m.queries.len() * vstd::layout::size_of::<Query>()) as int)) + group_charge(r.spec_group()))
        + prepared_charge(r.spec_prepared()))
}

/// The first question of a message, or the root A question.
pub open spec fn resp_query(m: MessageV) -> QueryV {
    if m.queries.len() > 0 {
        m.queries[0]
    } else {
        QueryV { name: Seq::empty(), query_type: RecordType::A, query_class: 1 }
    }
}

/// The memory charged for a cache entry holding `r`.
pub open spec fn spec_measure_memory(r: DnsResponse) -> usize {
    let n = resp_query(r.spec_message()).name;
    sat(sat(sat(spec_response_memory(r) + vstd::layout::size_of::<DnsCacheEntry>())
        + vstd::layout::size_of::<Query>()) + sat(crate::message::name_text_len(n) as int))
}

/// The product, saturating.
pub fn sat_mul(a: usize, b: usize) -> (r: usize)
    ensures
        r == sat(a * b),
{
    match a.checked_mul(b) {
        Some(p) => p,
        None => usize::MAX,
    }
}

/// The memory charged for a response (see [`spec_response_memory`]).
pub fn response_memory(data: &DnsResponse) -> (r: usize)
    ensures
        r == spec_response_memory(*data),
{
    let m = data.message();
    let wire = match data.wire_len() {
        Some(n) => n,
        None => match data.to_vec() {
            Ok(w) => w.len(),
            Err(_) => 0,
        },
    };
    let records = m.answers.len().saturating_add(m.authorities.len()).saturating_add(m.additionals.len());
    let group = match data.name_server_group() {
        Some(g) => g.as_bytes().len(),
        None => 0,
    };
    assert(wire == wire_charge(*data));
    assert(group == group_charge(data.spec_group()));
    wire.saturating_add(sat_mul(records, core::mem::size_of::<Record>()))
        .saturating_add(core::mem::size_of::<Message>())
        .saturating_add(sat_mul(2, core::mem::size_of::<usize>()))
        .saturating_add(sat_mul(m.queries.len(), core::mem::size_of::<Query>()))
        .saturating_add(group)
        .saturating_add(data.prepared_wire_memory())
}

// ---------------------------------------------------------------------------
// Entries

/// When an entry was stored and last read (milliseconds on the wall clock),
/// and how often it was read.
#[derive(Clone, Copy, Debug)]
pub struct DnsCacheStats {
    pub inserted_at: u64,
    pub hits: usize,
    pub last_access: u64,
}

impl DnsCacheStats {
    /// Stats of an entry stored now, not yet read.
    pub fn new() -> (r: DnsCacheStats)
        ensures
            r.hits == 0,
            r.inserted_at == r.last_access,
    {
        let now = now_millis();
        DnsCacheStats { inserted_at: now, hits: 0, last_access: now }
    }

    /// Counts a read (the count wraps around at its limit).
    pub fn hit(&mut self)
        ensures
            final(self).hits == (if old(self).hits == usize::MAX { 0 } else { old(self).hits + 1 }),
            final(self).inserted_at == old(self).inserted_at,
    {
        self.hits = self.hits.wrapping_add(1);
        self.last_access = now_millis();
    }
}

/// A reply with TTLs already lowered, kept for repeated reads, and its
/// memory charge.
pub struct TtlReply {
    pub response: DnsResponse,
    pub memory_usage: usize,
    /// The question name the reply's answers may have been renamed to.
    pub name: Ghost<Seq<Seq<u8>>>,
}

/// A cached response with its deadline (milliseconds on the clock), its
/// memory charge and its refresh state.
pub struct DnsCacheEntry {
    pub data: DnsResponse,
    pub memory_usage: usize,
    pub valid_until: u64,
    pub is_in_prefetching: bool,
    pub retry_prefetch_at: Option<u64>,
    pub stats: DnsCacheStats,
    pub reply_ttl: Option<u32>,
    pub ttl_reply: Option<Box<TtlReply>>,
}

impl DnsCacheEntry {
    pub fn memory_usage(&self) -> (r: usize)
        ensures
            r == self.memory_usage,
    {
        self.memory_usage
    }

    /// The memory charged for an entry holding `data`.
    pub fn measure_memory(data: &DnsResponse) -> (r: usize)
        ensures
            r == spec_measure_memory(*data),
    {
        let q = data.query();
        response_memory(data).saturating_add(core::mem::size_of::<DnsCacheEntry>())
            .saturating_add(core::mem::size_of::<Query>())
            .saturating_add(q.name.len())
    }

    /// The memory charged for a response.
    pub fn response_memory(data: &DnsResponse) -> (r: usize)
        ensures
            r == spec_response_memory(*data),
    {
        response_memory(data)
    }

    /// A fresh entry for `data`, valid until `valid_until`.
    pub fn new(data: DnsResponse, valid_until: u64) -> (r: DnsCacheEntry)
        ensures
            r.data == data,
            r.memory_usage == spec_measure_memory(data),
            r.valid_until == valid_until,
            !r.is_in_prefetching,
            r.retry_prefetch_at is None,
            r.stats.hits == 0,
            r.reply_ttl is None,
            r.ttl_reply is None,
    {
        DnsCacheEntry {
            memory_usage: Self::measure_memory(&data),
            data,
            valid_until,
            is_in_prefetching: false,
            retry_prefetch_at: None,
            stats: DnsCacheStats::new(),
            reply_ttl: None,
            ttl_reply: None,
        }
    }

    pub fn set_valid_until(&mut self, valid_until: u64)
        ensures
            *final(self) == (DnsCacheEntry { valid_until, ..*old(self) }),
    {
        self.valid_until = valid_until;
    }

    /// Whether the entry is still valid at `now`.
    pub fn is_current(&self, now: u64) -> (r: bool)
        ensures
            r == (now <= self.valid_until),
    {
        now <= self.valid_until
    }

    /// Milliseconds the entry stays valid after `now` (zero once expired).
    pub fn ttl(&self, now: u64) -> (r: u64)
        ensures
            r == (if now <= self.valid_until { (self.valid_until - now) as u64 } else { 0 }),
    {
        self.valid_until.saturating_sub(now)
    }
}

// ---------------------------------------------------------------------------
// The least-recently-used store

#[verifier::external_type_specification]
#[verifier::external_body]
#[verifier::reject_recursive_types(K)]
#[verifier::reject_recursive_types(V)]
#[verifier::reject_recursive_types(S)]
pub struct ExLruCache<K, V, S>(LruCache<K, V, S>);

#[verifier::external_type_specification]
#[verifier::external_body]
pub struct ExLruHasher(lru::DefaultHasher);

/// What an `lru::LruCache` holds: its keys with their entries, most recently
/// used first (the order in which its `iter` visits them).
pub uninterp spec fn lru_entries(c: LruCache<Vec<u8>, DnsCacheEntry>) -> Seq<(Seq<u8>, DnsCacheEntry)>;

/// The capacity an `lru::LruCache` was made with.
pub uninterp spec fn lru_cap(c: LruCache<Vec<u8>, DnsCacheEntry>) -> nat;

/// No key occurs twice.
pub open spec fn keys_distinct(e: Seq<(Seq<u8>, DnsCacheEntry)>) -> bool {
    forall|i: int, j: int| 0 <= i < j < e.len() ==> #[trigger] e[i].0 != #[trigger] e[j].0
}

/// Where the key `k` stands, if it is there.
pub open spec fn find_key(e: Seq<(Seq<u8>, DnsCacheEntry)>, k: Seq<u8>) -> Option<int> {
    if exists|i: int| 0 <= i < e.len() && #[trigger] e[i].0 == k {
        Some(choose|i: int| 0 <= i < e.len() && #[trigger] e[i].0 == k)
    } else {
        None
    }
}

/// What holds of every `lru::LruCache`: distinct keys, at most as many
/// entries as its capacity, and a capacity of at least one.
pub open spec fn lru_ok(c: LruCache<Vec<u8>, DnsCacheEntry>) -> bool {
    &&& keys_distinct(lru_entries(c))
    &&& lru_entries(c).len() <= lru_cap(c)
    &&& 0 < lru_cap(c) <= usize::MAX
}

/// The keys of the entries, in order.
pub open spec fn entry_keys(e: Seq<(Seq<u8>, DnsCacheEntry)>) -> Seq<Seq<u8>> {
    e.map_values(|p: (Seq<u8>, DnsCacheEntry)| p.0)
}

/// `lru::LruCache::new`: an empty store holding at most `cap` entries.
#[verifier::external_body]
fn lru_new(cap: usize) -> (r: LruCache<Vec<u8>, DnsCacheEntry>)
    requires
        cap > 0,
    ensures
        lru_entries(r) == Seq::<(Seq<u8>, DnsCacheEntry)>::empty(),
        lru_cap(r) == cap,
        lru_ok(r),
{
    LruCache::new(std::num::NonZeroUsize::new(cap).unwrap())
}

/// `lru::LruCache::len`: the number of entries.
#[verifier::external_body]
fn lru_len(c: &LruCache<Vec<u8>, DnsCacheEntry>) -> (r: usize)
    ensures
        r == lru_entries(*c).len(),
{
    c.len()
}

/// `lru::LruCache::clear`: removes every entry.
#[verifier::external_body]
fn lru_clear(c: &mut LruCache<Vec<u8>, DnsCacheEntry>)
    ensures
        lru_entries(*final(c)) == Seq::<(Seq<u8>, DnsCacheEntry)>::empty(),
        lru_cap(*final(c)) == lru_cap(*old(c)),
        lru_ok(*final(c)),
{
    c.clear()
}

/// `lru::LruCache::get_mut`: the entry of `k`, which becomes the most
/// recently used.
#[verifier::external_body]
fn lru_get_mut<'a>(c: &'a mut LruCache<Vec<u8>, DnsCacheEntry>, k: &Vec<u8>) -> (r: Option<&'a mut DnsCacheEntry>)
    ensures
        lru_cap(*final(c)) == lru_cap(*old(c)),
        lru_ok(*final(c)),
        match find_key(lru_entries(*old(c)), k@) {
            None => r is None && lru_entries(*final(c)) == lru_entries(*old(c)),
            Some(i) => r is Some && *r->0 == lru_entries(*old(c))[i].1
                && lru_entries(*final(c)) == seq![(k@, *final(r->0))] + lru_entries(*old(c)).remove(i),
        },
{
    c.get_mut(k)
}

/// `lru::LruCache::peek_mut`: the entry of `k`, leaving the order alone.
#[verifier::external_body]
fn lru_peek_mut<'a>(c: &'a mut LruCache<Vec<u8>, DnsCacheEntry>, k: &Vec<u8>) -> (r: Option<&'a mut DnsCacheEntry>)
    ensures
        lru_cap(*final(c)) == lru_cap(*old(c)),
        lru_ok(*final(c)),
        match find_key(lru_entries(*old(c)), k@) {
            None => r is None && lru_entries(*final(c)) == lru_entries(*old(c)),
            Some(i) => r is Some && *r->0 == lru_entries(*old(c))[i].1
                && lru_entries(*final(c)) == lru_entries(*old(c)).update(i, (k@, *final(r->0))),
        },
{
    c.peek_mut(k)
}

/// `lru::LruCache::peek`: the entry of `k`, leaving the order alone.
#[verifier::external_body]
fn lru_peek<'a>(c: &'a LruCache<Vec<u8>, DnsCacheEntry>, k: &Vec<u8>) -> (r: Option<&'a DnsCacheEntry>)
    ensures
        match find_key(lru_entries(*c), k@) {
            None => r is None,
            Some(i) => r is Some && *r->0 == lru_entries(*c)[i].1,
        },
{
    c.peek(k)
}

/// `lru::LruCache::pop`: removes the entry of `k` and gives it back.
#[verifier::external_body]
fn lru_pop(c: &mut LruCache<Vec<u8>, DnsCacheEntry>, k: &Vec<u8>) -> (r: Option<DnsCacheEntry>)
    ensures
        lru_cap(*final(c)) == lru_cap(*old(c)),
        lru_ok(*final(c)),
        match find_key(lru_entries(*old(c)), k@) {
            None => r is None && lru_entries(*final(c)) == lru_entries(*old(c)),
            Some(i) => r == Some(lru_entries(*old(c))[i].1)
                && lru_entries(*final(c)) == lru_entries(*old(c)).remove(i),
        },
{
    c.pop(k)
}

/// `lru::LruCache::push`: stores `v` under `k` as the most recently used
/// entry. An entry with the same key is replaced and given back with the
/// key; otherwise, when the store is full, the least recently used entry is
/// evicted and given back.
#[verifier::external_body]
fn lru_push(c: &mut LruCache<Vec<u8>, DnsCacheEntry>, k: Vec<u8>, v: DnsCacheEntry) -> (r: Option<(Vec<u8>, DnsCacheEntry)>)
    ensures
        lru_cap(*final(c)) == lru_cap(*old(c)),
        lru_ok(*final(c)),
        match find_key(lru_entries(*old(c)), k@) {
            Some(i) => r matches Some(p) && p.0@ == k@ && p.1 == lru_entries(*old(c))[i].1
                && lru_entries(*final(c)) == seq![(k@, v)] + lru_entries(*old(c)).remove(i),
            None => if lru_entries(*old(c)).len() == lru_cap(*old(c)) {
                r matches Some(p) && p.0@ == lru_entries(*old(c)).last().0
                    && p.1 == lru_entries(*old(c)).last().1
                    && lru_entries(*final(c)) == seq![(k@, v)] + lru_entries(*old(c)).drop_last()
            } else {
                r is None && lru_entries(*final(c)) == seq![(k@, v)] + lru_entries(*old(c))
            },
        },
{
    c.push(k, v)
}

/// `lru::LruCache::pop_lru`: removes the least recently used entry.
#[verifier::external_body]
fn lru_pop_lru(c: &mut LruCache<Vec<u8>, DnsCacheEntry>) -> (r: Option<(Vec<u8>, DnsCacheEntry)>)
    ensures
        lru_cap(*final(c)) == lru_cap(*old(c)),
        lru_ok(*final(c)),
        lru_entries(*old(c)).len() == 0 ==> r is None && lru_entries(*final(c)) == lru_entries(*old(c)),
        lru_entries(*old(c)).len() > 0 ==> (r matches Some(p) && p.0@ == lru_entries(*old(c)).last().0
            && p.1 == lru_entries(*old(c)).last().1
            && lru_entries(*final(c)) == lru_entries(*old(c)).drop_last()),
{
    c.pop_lru()
}

/// The keys that `lru::LruCache::iter` visits, in its order.
#[verifier::external_body]
fn lru_keys(c: &LruCache<Vec<u8>, DnsCacheEntry>) -> (r: Vec<Vec<u8>>)
    ensures
        label_seqs(r@) == entry_keys(lru_entries(*c)),
{
    c.iter().map(|(k, _)| k.clone()).collect()
}

// ---------------------------------------------------------------------------
// Memory accounting over the store

/// The memory charged for all entries.
pub open spec fn total_memory(e: Seq<(Seq<u8>, DnsCacheEntry)>) -> nat
    decreases e.len(),
{
    if e.len() == 0 {
        0
    } else {
        e[0].1.memory_usage as nat + total_memory(e.drop_first())
    }
}

proof fn lemma_total_bound(e: Seq<(Seq<u8>, DnsCacheEntry)>)
    ensures
        total_memory(e) <= e.len() * usize::MAX,
    decreases e.len(),
{
    if e.len() > 0 {
        lemma_total_bound(e.drop_first());
        assert(e.len() * usize::MAX == usize::MAX + (e.len() - 1) * usize::MAX) by (nonlinear_arith)
            requires e.len() > 0;
    }
}

proof fn lemma_total_cons(x: (Seq<u8>, DnsCacheEntry), e: Seq<(Seq<u8>, DnsCacheEntry)>)
    ensures
        total_memory(seq![x] + e) == x.1.memory_usage + total_memory(e),
{
    assert((seq![x] + e).drop_first() =~= e);
}

proof fn lemma_total_remove(e: Seq<(Seq<u8>, DnsCacheEntry)>, i: int)
    requires
        0 <= i < e.len(),
    ensures
        total_memory(e.remove(i)) + e[i].1.memory_usage == total_memory(e),
    decreases e.len(),
{
    if i == 0 {
        assert(e.remove(0) =~= e.drop_first());
    } else {
        lemma_total_remove(e.drop_first(), i - 1);
        assert(e.remove(i).drop_first() =~= e.drop_first().remove(i - 1));
        assert(e.remove(i)[0] == e[0]);
    }
}

proof fn lemma_total_drop_last(e: Seq<(Seq<u8>, DnsCacheEntry)>)
    requires
        e.len() > 0,
    ensures
        total_memory(e.drop_last()) + e.last().1.memory_usage == total_memory(e),
{
    lemma_total_remove(e, e.len() - 1);
    assert(e.remove(e.len() - 1) =~= e.drop_last());
}

proof fn lemma_total_update(e: Seq<(Seq<u8>, DnsCacheEntry)>, i: int, x: (Seq<u8>, DnsCacheEntry))
    requires
        0 <= i < e.len(),
    ensures
        total_memory(e.update(i, x)) + e[i].1.memory_usage == total_memory(e) + x.1.memory_usage,
    decreases e.len(),
{
    if i == 0 {
        assert(e.update(0, x).drop_first() =~= e.drop_first());
    } else {
        lemma_total_update(e.drop_first(), i - 1, x);
        assert(e.update(i, x).drop_first() =~= e.drop_first().update(i - 1, x));
    }
}

/// The longest prefix of `p` whose charge fits under `limit` (all of `p`
/// when there is no limit): what remains after evicting least recently used
/// entries until the charge fits.
pub open spec fn fit_len(p: Seq<(Seq<u8>, DnsCacheEntry)>, limit: usize) -> nat
    decreases p.len(),
{
    if limit == 0 || total_memory(p) <= limit || p.len() == 0 {
        p.len()
    } else {
        fit_len(p.drop_last(), limit)
    }
}

// ---------------------------------------------------------------------------
// The cache

/// Whether the cache key of an entry is the key of its response's question.
pub open spec fn entry_ok(k: Seq<u8>, e: DnsCacheEntry) -> bool {
    &&& k == query_key(resp_query(e.data.spec_message()))
    &&& (e.ttl_reply matches Some(r) ==> {
        &&& r.memory_usage <= e.memory_usage
        &&& e.reply_ttl is Some
        &&& r.response.spec_group() == e.data.spec_group()
        &&& key_labels(r.name@) == key_labels(resp_query(e.data.spec_message()).name)
        &&& r.response.spec_message() == served(e.data.spec_message(), e.reply_ttl->0, r.name@)
    })
}

/// The answer cache. Entries are kept in least-recently-used order under
/// the cache key of their question; `memory_usage` is the total charge of
/// the entries.
pub struct DnsCache {
    cache: LruCache<Vec<u8>, DnsCacheEntry>,
    serve_expired: bool,
    expired_ttl: u64,
    expired_reply_ttl: u64,
    memory_limit: usize,
    memory_usage: u128,
    prefetch_time: u64,
}

/// Whether a response is still valid and what serving it means.
#[derive(Clone, Copy, Debug, PartialEq, Eq, Structural)]
pub enum CacheStatus {
    Valid,
    Expired,
}

/// The entries after storing `e` under `k` as the most recently used one
/// (before any eviction for memory).
pub open spec fn pushed(old: Seq<(Seq<u8>, DnsCacheEntry)>, k: Seq<u8>, e: DnsCacheEntry, cap: nat)
    -> Seq<(Seq<u8>, DnsCacheEntry)> {
    match find_key(old, k) {
        Some(i) => seq![(k, e)] + old.remove(i),
        None => if old.len() == cap {
            seq![(k, e)] + old.drop_last()
        } else {
            seq![(k, e)] + old
        },
    }
}

/// The read count an entry stored under `k` starts with: one more than the
/// count of the entry it replaces (wrapping), else zero.
pub open spec fn carried_hits(old: Seq<(Seq<u8>, DnsCacheEntry)>, k: Seq<u8>) -> usize {
    match find_key(old, k) {
        Some(i) => if old[i].1.stats.hits == usize::MAX { 0 } else { (old[i].1.stats.hits + 1) as usize },
        None => 0,
    }
}

/// Whether `e` is the entry stored for `response` at `now` for `ttl`
/// seconds under `group`.
pub open spec fn stored_entry(e: DnsCacheEntry, response: DnsResponse, now: u64, ttl: u32, group: Seq<char>,
    hits: usize) -> bool {
    let vu = deadline(now, ttl);
    &&& e.data.spec_message() == response.spec_message()
    &&& e.data.spec_prepared() == response.spec_prepared()
    &&& e.data.spec_wire_len() == response.spec_wire_len()
    &&& e.data.spec_probe() == response.spec_probe()
    &&& e.data.spec_group() == Some(group)
    &&& e.data.spec_valid_until() == vu
    &&& e.valid_until == vu
    &&& e.memory_usage == spec_measure_memory(e.data)
    &&& !e.is_in_prefetching
    &&& e.retry_prefetch_at is None
    &&& e.reply_ttl is None
    &&& e.ttl_reply is None
    &&& e.stats.hits == hits
}

impl DnsCache {
    pub closed spec fn entries(self) -> Seq<(Seq<u8>, DnsCacheEntry)> {
        lru_entries(self.cache)
    }

    pub closed spec fn capacity(self) -> nat {
        lru_cap(self.cache)
    }

    pub closed spec fn spec_serve_expired(self) -> bool {
        self.serve_expired
    }

    pub closed spec fn spec_expired_ttl(self) -> u64 {
        self.expired_ttl
    }

    pub closed spec fn spec_expired_reply_ttl(self) -> u64 {
        self.expired_reply_ttl
    }

    pub closed spec fn spec_memory_limit(self) -> usize {
        self.memory_limit
    }

    pub closed spec fn spec_memory_usage(self) -> nat {
        self.memory_usage as nat
    }

    pub closed spec fn spec_prefetch_time(self) -> u64 {
        self.prefetch_time
    }

    /// The cache is consistent: the store is sound, the recorded usage is
    /// the total charge of the entries, and each entry sits under the key of
    /// its question.
    pub closed spec fn wf(self) -> bool {
        &&& lru_ok(self.cache)
        &&& self.memory_usage == total_memory(lru_entries(self.cache))
        &&& forall|i: int| 0 <= i < lru_entries(self.cache).len()
            ==> entry_ok(#[trigger] lru_entries(self.cache)[i].0, lru_entries(self.cache)[i].1)
    }

    /// The memory charged to a consistent cache is the sum of its entries'
    /// charges.
    pub proof fn lemma_memory_is_total(self)
        requires
            self.wf(),
        ensures
            self.spec_memory_usage() == total_memory(self.entries()),
    {
    }

    /// Whether the other cache has the same settings.
    pub open spec fn same_settings(self, other: DnsCache) -> bool {
        &&& self.capacity() == other.capacity()
        &&& self.spec_serve_expired() == other.spec_serve_expired()
        &&& self.spec_expired_ttl() == other.spec_expired_ttl()
        &&& self.spec_expired_reply_ttl() == other.spec_expired_reply_ttl()
        &&& self.spec_memory_limit() == other.spec_memory_limit()
        &&& self.spec_prefetch_time() == other.spec_prefetch_time()
    }

    /// An empty cache of `cache_size` entries; stale answers are served when
    /// `serve_expired`, for `expired_ttl` seconds after expiry (0: without
    /// end), with TTL `expired_reply_ttl`. No memory limit, no refresh delay.
    pub fn new(cache_size: usize, serve_expired: bool, expired_ttl: u64, expired_reply_ttl: u64) -> (r: DnsCache)
        requires
            cache_size > 0,
        ensures
            r.wf(),
            r.entries().len() == 0,
            r.capacity() == cache_size,
            r.spec_serve_expired() == serve_expired,
            r.spec_expired_ttl() == expired_ttl,
            r.spec_expired_reply_ttl() == expired_reply_ttl,
            r.spec_memory_limit() == 0,
            r.spec_memory_usage() == 0,
            r.spec_prefetch_time() == 0,
    {
        DnsCache {
            cache: lru_new(cache_size),
            serve_expired,
            expired_ttl,
            expired_reply_ttl,
            memory_limit: 0,
            memory_usage: 0,
            prefetch_time: 0,
        }
    }

    /// Sets the memory limit (0: none) and the delay after expiry before a
    /// served-stale entry is refreshed (seconds).
    pub fn set_limits(&mut self, memory_limit: usize, prefetch_time: u64)
        requires
            old(self).wf(),
        ensures
            final(self).wf(),
            final(self).entries() == old(self).entries(),
            final(self).capacity() == old(self).capacity(),
            final(self).spec_serve_expired() == old(self).spec_serve_expired(),
            final(self).spec_expired_ttl() == old(self).spec_expired_ttl(),
            final(self).spec_expired_reply_ttl() == old(self).spec_expired_reply_ttl(),
            final(self).spec_memory_usage() == old(self).spec_memory_usage(),
            final(self).spec_memory_limit() == memory_limit,
            final(self).spec_prefetch_time() == prefetch_time,
    {
        self.memory_limit = memory_limit;
        self.prefetch_time = prefetch_time;
    }

    /// The memory charged for all entries (saturating at `usize::MAX`).
    pub fn memory_bytes(&self) -> (r: usize)
        ensures
            r == sat(self.spec_memory_usage() as int),
    {
        if self.memory_usage > usize::MAX as u128 {
            usize::MAX
        } else {
            self.memory_usage as usize
        }
    }

    /// The number of entries.
    pub fn len(&self) -> (r: usize)
        ensures
            r == self.entries().len(),
    {
        lru_len(&self.cache)
    }

    /// Removes every entry.
    pub fn clear(&mut self)
        requires
            old(self).wf(),
        ensures
            final(self).wf(),
            final(self).entries().len() == 0,
            final(self).spec_memory_usage() == 0,
            final(self).same_settings(*old(self)),
    {
        lru_clear(&mut self.cache);
        self.memory_usage = 0;
    }
}

proof fn lemma_fit_prefix(p: Seq<(Seq<u8>, DnsCacheEntry)>, n: nat, limit: usize)
    requires
        n <= p.len(),
        forall|m: nat| n < m <= p.len() ==> limit > 0 && total_memory(#[trigger] p.take(m as int)) > limit,
    ensures
        fit_len(p, limit) == fit_len(p.take(n as int), limit),
    decreases p.len() - n,
{
    assert(p.take(p.len() as int) =~= p);
    if n < p.len() {
        assert(total_memory(p.take(p.len() as int)) > limit);
        assert(fit_len(p, limit) == fit_len(p.drop_last(), limit));
        assert(p.drop_last() =~= p.take(p.len() - 1));
        assert forall|m: nat| n < m <= p.drop_last().len() implies limit > 0
            && total_memory(#[trigger] p.drop_last().take(m as int)) > limit by {
            assert(p.drop_last().take(m as int) =~= p.take(m as int));
        }
        lemma_fit_prefix(p.drop_last(), n, limit);
        assert(p.drop_last().take(n as int) =~= p.take(n as int));
    }
}

/// Whether `after` is the cache `before` after storing the entry `e` made
/// for `response` (see [`DnsCache::insert_response`]).
pub open spec fn inserted(before: DnsCache, after: DnsCache, e: DnsCacheEntry, response: DnsResponse, now: u64,
    ttl: u32, group: Seq<char>) -> bool {
    let k = query_key(resp_query(response.spec_message()));
    let p = pushed(before.entries(), k, e, before.capacity());
    &&& stored_entry(e, response, now, ttl, group, carried_hits(before.entries(), k))
    &&& after.entries() == p.take(fit_len(p, before.spec_memory_limit()) as int)
}

impl DnsCache {
    /// Stores `response` for `ttl` seconds from `now` under the key of its
    /// question, as produced by the server group `group`. It becomes the most
    /// recently used entry; an entry under the same key is replaced (its read
    /// count carried over, plus one), else a full cache evicts its least
    /// recently used entry. Then, under a memory limit, least recently used
    /// entries are evicted until the charge fits.
    pub fn insert_response(&mut self, response: DnsResponse, now: u64, ttl: u32, group: &str)
        requires
            old(self).wf(),
        ensures
            final(self).wf(),
            final(self).spec_memory_usage() == total_memory(final(self).entries()),
            final(self).same_settings(*old(self)),
            exists|e: DnsCacheEntry| #[trigger] inserted(*old(self), *final(self), e, response, now, ttl, group@),
    {
        let ghost old_entries = lru_entries(self.cache);
        let valid_until = now.saturating_add(ttl as u64 * 1000);
        let mut lookup = response.with_valid_until(valid_until);
        let same_group = match lookup.name_server_group() {
            Some(g) => crate::text::str_eq(g, group),
            None => false,
        };
        if !same_group {
            lookup = lookup.with_name_server_group(group.to_string());
        }
        assert(lookup.spec_group() == Some(group@));
        let query = lookup.query();
        let key = cache_key(&query);
        let ghost k = key@;
        assert(k == query_key(resp_query(response.spec_message())));
        let entry = DnsCacheEntry::new(lookup, valid_until);
        let ghost hits = carried_hits(old_entries, k);
        proof {
            lemma_total_bound(old_entries);
            assert(old_entries.len() * usize::MAX <= usize::MAX * usize::MAX) by (nonlinear_arith)
                requires old_entries.len() <= usize::MAX;
            assert(usize::MAX * usize::MAX < 0x1_0000_0000_0000_0000_0000_0000_0000_0000 - 0x1_0000_0000_0000_0000)
                by (nonlinear_arith) requires usize::MAX <= 0xffff_ffff_ffff_ffff;
        }
        let ghost stored: DnsCacheEntry;
        match lru_get_mut(&mut self.cache, &key) {
            Some(previous) => {
                let prev_mem = previous.memory_usage;
                proof {
                    lemma_total_remove(old_entries, find_key(old_entries, k)->0);
                }
                let h = previous.stats.hits;
                *previous = entry;
                previous.stats.hits = h.wrapping_add(1);
                proof {
                    stored = *previous;
                }
                self.memory_usage = self.memory_usage - prev_mem as u128 + previous.memory_usage as u128;
            },
            None => {
                let mem = entry.memory_usage;
                proof {
                    stored = entry;
                }
                self.memory_usage = self.memory_usage + mem as u128;
                match lru_push(&mut self.cache, key, entry) {
                    Some((_, evicted)) => {
                        proof {
                            lemma_total_drop_last(old_entries);
                        }
                        self.memory_usage = self.memory_usage - evicted.memory_usage as u128;
                    },
                    None => {},
                }
            },
        }
        let ghost p = pushed(old_entries, k, stored, old(self).capacity());
        proof {
            assert(stored_entry(stored, response, now, ttl, group@, hits));
            assert(lru_entries(self.cache) == p);
            match find_key(old_entries, k) {
                Some(i) => {
                    lemma_total_remove(old_entries, i);
                    lemma_total_cons((k, stored), old_entries.remove(i));
                },
                None => {
                    if old_entries.len() == old(self).capacity() {
                        lemma_total_drop_last(old_entries);
                        lemma_total_cons((k, stored), old_entries.drop_last());
                    } else {
                        lemma_total_cons((k, stored), old_entries);
                    }
                },
            }
            assert(self.memory_usage == total_memory(p));
            assert(p.take(p.len() as int) =~= p);
            assert forall|i: int| 0 <= i < p.len() implies entry_ok(#[trigger] p[i].0, p[i].1) by {
                if i > 0 {
                    match find_key(old_entries, k) {
                        Some(j) => {
                            let r = old_entries.remove(j);
                            assert(p[i] == r[i - 1]);
                            if i - 1 < j {
                                assert(r[i - 1] == old_entries[i - 1]);
                            } else {
                                assert(r[i - 1] == old_entries[i]);
                            }
                        },
                        None => {
                            assert(p[i] == old_entries[i - 1]);
                        },
                    }
                }
            }
        }
        let ghost mut n: nat = p.len();
        while self.memory_limit > 0 && self.memory_usage > self.memory_limit as u128
            invariant
                lru_ok(self.cache),
                n <= p.len(),
                lru_entries(self.cache) == p.take(n as int),
                self.memory_usage == total_memory(p.take(n as int)),
                forall|m: nat| n < m <= p.len() ==> self.memory_limit > 0
                    && total_memory(#[trigger] p.take(m as int)) > self.memory_limit,
                forall|i: int| 0 <= i < p.len() ==> entry_ok(#[trigger] p[i].0, p[i].1),
                lru_cap(self.cache) == old(self).capacity(),
                self.memory_limit == old(self).spec_memory_limit(),
                self.serve_expired == old(self).spec_serve_expired(),
                self.expired_ttl == old(self).spec_expired_ttl(),
                self.expired_reply_ttl == old(self).spec_expired_reply_ttl(),
                self.prefetch_time == old(self).spec_prefetch_time(),
            decreases n,
        {
            let ghost before = lru_entries(self.cache);
            match lru_pop_lru(&mut self.cache) {
                Some((_, e)) => {
                    proof {
                        lemma_total_drop_last(before);
                        assert(before.drop_last() =~= p.take(n - 1));
                    }
                    self.memory_usage = self.memory_usage - e.memory_usage as u128;
                    proof {
                        n = (n - 1) as nat;
                    }
                },
                None => {
                    assert(false);
                },
            }
        }
        proof {
            lemma_fit_prefix(p, n, self.memory_limit);
            assert(fit_len(p.take(n as int), self.memory_limit) == n);
            assert forall|i: int| 0 <= i < lru_entries(self.cache).len()
                implies entry_ok(#[trigger] lru_entries(self.cache)[i].0, lru_entries(self.cache)[i].1) by {
                assert(lru_entries(self.cache)[i] == p[i]);
            }
            assert(inserted(*old(self), *self, stored, response, now, ttl, group@));
        }
    }
}

// ---------------------------------------------------------------------------
// Serving

/// Whether every record holds an address (A or AAAA data).
pub open spec fn all_ip(rs: Seq<RecordV>) -> bool {
    forall|i: int| 0 <= i < rs.len() ==> (#[trigger] rdata_type(rs[i].data)).spec_is_ip_addr()
}

/// Whether some record's owner is not `qn` (without regard to case).
pub open spec fn other_owner(rs: Seq<RecordV>, qn: Seq<Seq<u8>>) -> bool {
    exists|i: int| 0 <= i < rs.len() && name_key(#[trigger] rs[i].name) != name_key(qn)
}

/// Records with the owner `qn`.
pub open spec fn with_owner(rs: Seq<RecordV>, qn: Seq<Seq<u8>>) -> Seq<RecordV> {
    rs.map_values(|r: RecordV| RecordV { name: qn, ..r })
}

/// A cached message as served for the question name `qn`: when its answer
/// holds only addresses, no CNAME, and some owner other than `qn` (the end
/// of a CNAME chain), the answers take the name `qn`.
pub open spec fn renamed(m: MessageV, qn: Seq<Seq<u8>>) -> MessageV {
    if !has_type(m.answers, RecordType::CNAME) && m.answers.len() > 0 && all_ip(m.answers)
        && other_owner(m.answers, qn) {
        MessageV { answers: with_owner(m.answers, qn), ..m }
    } else {
        m
    }
}

/// A message with every TTL capped at `ttl`.
pub open spec fn capped(m: MessageV, ttl: u32) -> MessageV {
    MessageV {
        answers: map_ttl(m.answers, TtlOp::Cap, ttl),
        authorities: map_ttl(m.authorities, TtlOp::Cap, ttl),
        additionals: map_ttl(m.additionals, TtlOp::Cap, ttl),
        ..m
    }
}

/// A cached message served for the name `qn` with TTLs at most `ttl`.
pub open spec fn served(m: MessageV, ttl: u32, qn: Seq<Seq<u8>>) -> MessageV {
    capped(renamed(m, qn), ttl)
}

/// Whether an expired entry is dropped rather than served: always for a
/// negative answer or when stale answers are not served, and when it expired
/// more than `expired_ttl` seconds ago (if that is set).
pub open spec fn drops_stale(e: DnsCacheEntry, now: u64, serve_expired: bool, expired_ttl: u64) -> bool {
    &&& !(now <= e.valid_until)
    &&& (spec_negative_ttl(e.data.spec_message()) is Some || !serve_expired
        || (expired_ttl > 0 && now - e.valid_until > expired_ttl * 1000))
}

/// The TTL a served answer is capped at: the whole seconds left, or the
/// stale-reply TTL once expired.
pub open spec fn serve_ttl(e: DnsCacheEntry, now: u64, expired_reply_ttl: u64) -> u32 {
    if now <= e.valid_until {
        (((e.valid_until - now) / 1000) as u64) as u32
    } else {
        expired_reply_ttl as u32
    }
}

/// Whether `res` serves the entry `e` for the question `q` with TTLs at
/// most `ttl`.
pub open spec fn serves(res: DnsResponse, e: DnsCacheEntry, ttl: u32, q: QueryV) -> bool {
    &&& res.spec_group() == e.data.spec_group()
    &&& exists|qn: Seq<Seq<u8>>| #[trigger] key_labels(qn) == key_labels(q.name)
        && res.spec_message() == served(e.data.spec_message(), ttl, qn)
}

/// Whether every record is an address record.
pub fn all_ip_types(rs: &Vec<Record>) -> (r: bool)
    ensures
        r == all_ip(record_views(rs@)),
{
    let ghost v = record_views(rs@);
    let mut i: usize = 0;
    while i < rs.len()
        invariant
            i <= rs@.len(),
            v == record_views(rs@),
            forall|j: int| 0 <= j < i ==> (#[trigger] rdata_type(v[j].data)).spec_is_ip_addr(),
        decreases rs.len() - i,
    {
        assert(v[i as int] == rs@[i as int]@);
        if !rs[i].record_type().is_ip_addr() {
            assert(!(rdata_type(v[i as int].data)).spec_is_ip_addr());
            return false;
        }
        i = i + 1;
    }
    true
}

/// Whether some record's owner is not `qn` (without regard to case).
pub fn owner_differs(rs: &Vec<Record>, qn: &Name) -> (r: bool)
    ensures
        r == other_owner(record_views(rs@), qn@),
{
    let ghost v = record_views(rs@);
    let mut i: usize = 0;
    while i < rs.len()
        invariant
            i <= rs@.len(),
            v == record_views(rs@),
            forall|j: int| 0 <= j < i ==> name_key(#[trigger] v[j].name) == name_key(qn@),
        decreases rs.len() - i,
    {
        assert(v[i as int] == rs@[i as int]@);
        if !same_name(&rs[i].name, qn) {
            assert(name_key(v[i as int].name) != name_key(qn@));
            return true;
        }
        i = i + 1;
    }
    false
}

/// The records with the owner `qn`.
pub fn set_owner(rs: &Vec<Record>, qn: &Name) -> (r: Vec<Record>)
    ensures
        record_views(r@) == with_owner(record_views(rs@), qn@),
{
    let mut out: Vec<Record> = Vec::new();
    let mut i: usize = 0;
    while i < rs.len()
        invariant
            i <= rs@.len(),
            out@.len() == i,
            forall|j: int| 0 <= j < i ==> #[trigger] out@[j]@ == (RecordV { name: qn@, ..rs@[j]@ }),
        decreases rs.len() - i,
    {
        let mut c = rs[i].clone();
        c.name = qn.clone();
        out.push(c);
        i = i + 1;
    }
    assert(record_views(out@) =~= with_owner(record_views(rs@), qn@));
    out
}

/// The cached response `data` as served for `query` with TTLs at most `ttl`.
pub fn serve_response(data: &DnsResponse, query: &Query, ttl: u32) -> (r: DnsResponse)
    ensures
        r.spec_message() == served(data.spec_message(), ttl, query@.name),
        r.spec_group() == data.spec_group(),
{
    let mut res = data.clone();
    let m = res.message();
    let rename = !any_of_type(&m.answers, RecordType::CNAME) && m.answers.len() > 0 && all_ip_types(&m.answers)
        && owner_differs(&m.answers, &query.name);
    if rename {
        let mut msg = m.clone();
        msg.answers = set_owner(&m.answers, &query.name);
        res.set_message(msg);
    }
    assert(res.spec_message() == renamed(data.spec_message(), query@.name));
    res.set_max_ttl(ttl);
    res
}

proof fn lemma_key_labels(a: QueryV, b: QueryV)
    requires
        query_key(a) == query_key(b),
    ensures
        key_labels(a.name) == key_labels(b.name),
{
    let ka = key_labels(a.name);
    let kb = key_labels(b.name);
    let ta = seq![0u8] + crate::octets::be16(type_code(a.query_type)) + crate::octets::be16(a.query_class);
    let tb = seq![0u8] + crate::octets::be16(type_code(b.query_type)) + crate::octets::be16(b.query_class);
    assert(query_key(a) =~= ka + ta);
    assert(query_key(b) =~= kb + tb);
    assert(ta.len() == 5 && tb.len() == 5);
    assert(ka =~= query_key(a).take(ka.len() as int));
    assert(kb =~= query_key(b).take(kb.len() as int));
}

/// Whether `after` is `before` once a lookup of `query` at `now` gave `r`
/// (see [`DnsCache::get`]).
pub open spec fn looked_up(before: DnsCache, after: DnsCache, query: QueryV, now: u64,
    r: Option<(DnsResponse, CacheStatus)>) -> bool {
    let es = before.entries();
    match find_key(es, query_key(query)) {
        None => r is None && after.entries() == es,
        Some(i) => {
            let e = es[i].1;
            if drops_stale(e, now, before.spec_serve_expired(), before.spec_expired_ttl()) {
                r is None && after.entries() == es.remove(i)
            } else {
                let ttl = serve_ttl(e, now, before.spec_expired_reply_ttl());
                &&& r matches Some((res, st))
                &&& st == (if now <= e.valid_until { CacheStatus::Valid } else { CacheStatus::Expired })
                &&& serves(res, e, ttl, query)
                &&& after.entries().len() == es.len()
                &&& after.entries()[0].0 == query_key(query)
                &&& after.entries()[0].1.data == e.data
                &&& after.entries()[0].1.valid_until == e.valid_until
                &&& after.entries()[0].1.stats.hits == (if e.stats.hits == usize::MAX { 0 } else { e.stats.hits + 1 })
                &&& after.entries().drop_first() == es.remove(i)
            }
        },
    }
}

impl DnsCache {
    /// Looks up the answer to `query` at `now` and makes its entry the most
    /// recently used. A valid entry is served with TTLs capped at the seconds
    /// left; an expired one is dropped (see [`drops_stale`]) or served stale
    /// with the stale-reply TTL. A reply served twice in a row with the same
    /// TTL is kept, if it fits the memory limit, and given out again.
    pub fn get(&mut self, query: &Query, now: u64) -> (r: Option<(DnsResponse, CacheStatus)>)
        requires
            old(self).wf(),
        ensures
            final(self).wf(),
            final(self).spec_memory_usage() == total_memory(final(self).entries()),
            final(self).same_settings(*old(self)),
            looked_up(*old(self), *final(self), query@, now, r),
            old(self).spec_memory_limit() > 0 && old(self).spec_memory_usage() <= old(self).spec_memory_limit()
                ==> final(self).spec_memory_usage() <= old(self).spec_memory_limit(),
    {
        let ghost es = lru_entries(self.cache);
        let key = cache_key(query);
        let ghost k = key@;
        proof {
            lemma_total_bound(es);
            assert(es.len() * usize::MAX <= usize::MAX * usize::MAX) by (nonlinear_arith)
                requires es.len() <= usize::MAX;
            assert(usize::MAX * usize::MAX < 0x1_0000_0000_0000_0000_0000_0000_0000_0000 - 0x1_0000_0000_0000_0000)
                by (nonlinear_arith) requires usize::MAX <= 0xffff_ffff_ffff_ffff;
        }
        let value = match lru_get_mut(&mut self.cache, &key) {
            None => {
                return None;
            },
            Some(v) => v,
        };
        let ghost i = find_key(es, k)->0;
        let ghost e = es[i].1;
        proof {
            lemma_total_remove(es, i);
            assert(entry_ok(es[i].0, e));
            lemma_key_labels(query@, resp_query(e.data.spec_message()));
        }
        if !value.is_current(now) {
            let negative = negative_response_ttl(&value.data).is_some();
            let too_old = self.expired_ttl > 0
                && (now - value.valid_until) as u128 > self.expired_ttl as u128 * 1000;
            if negative || !self.serve_expired || too_old {
                let removed = lru_pop(&mut self.cache, &key);
                proof {
                    let s1 = seq![(k, e)] + es.remove(i);
                    assert(s1[0].0 == k);
                    assert(find_key(s1, k) is Some);
                    let j = find_key(s1, k)->0;
                    assert(j == 0) by {
                        if j != 0 {
                            assert(s1[j].0 == k);
                            assert(s1[j] == es.remove(i)[j - 1]);
                            if j - 1 < i {
                                assert(es.remove(i)[j - 1] == es[j - 1]);
                                assert(es[j - 1].0 != es[i].0);
                            } else {
                                assert(es.remove(i)[j - 1] == es[j]);
                                assert(es[j].0 != es[i].0);
                            }
                        }
                    }
                    assert(s1.remove(0) =~= es.remove(i));
                }
                match removed {
                    Some(x) => {
                        self.memory_usage = self.memory_usage - x.memory_usage as u128;
                    },
                    None => {},
                }
                proof {
                    assert forall|j: int| 0 <= j < lru_entries(self.cache).len()
                        implies entry_ok(#[trigger] lru_entries(self.cache)[j].0, lru_entries(self.cache)[j].1) by {
                        if j < i {
                            assert(lru_entries(self.cache)[j] == es[j]);
                        } else {
                            assert(lru_entries(self.cache)[j] == es[j + 1]);
                        }
                    }
                }
                return None;
            }
        }
        value.stats.hit();
        let valid = value.is_current(now);
        let ttl: u32 = if valid {
            ((value.valid_until - now) / 1000) as u32
        } else {
            self.expired_reply_ttl as u32
        };
        let status = if valid { CacheStatus::Valid } else { CacheStatus::Expired };
        let repeated = match value.reply_ttl {
            Some(t) => t == ttl,
            None => false,
        };
        value.reply_ttl = Some(ttl);
        if repeated {
            match &value.ttl_reply {
                Some(reply) => {
                    let res = reply.response.clone();
                    proof {
                        let n = reply.name@;
                        assert(key_labels(n) == key_labels(query@.name));
                        assert(serves(res, e, ttl, query@));
                        let s2 = lru_entries(self.cache);
                        assert(s2.drop_first() =~= es.remove(i));
                        lemma_total_cons(s2[0], es.remove(i));
                        assert forall|j: int| 0 <= j < s2.len()
                            implies entry_ok(#[trigger] s2[j].0, s2[j].1) by {
                            if j > 0 {
                                if j - 1 < i {
                                    assert(s2[j] == es[j - 1]);
                                } else {
                                    assert(s2[j] == es[j]);
                                }
                            }
                        }
                    }
                    return Some((res, status));
                },
                None => {},
            }
        }
        let mut res = serve_response(&value.data, query, ttl);
        let previous: usize = match &value.ttl_reply {
            Some(reply) => reply.memory_usage,
            None => 0,
        };
        let mut total: u128 = self.memory_usage - previous as u128;
        value.memory_usage = value.memory_usage - previous;
        value.ttl_reply = None;
        if repeated {
            res.prepare_wire();
            let mem = response_memory(&res).saturating_add(core::mem::size_of::<TtlReply>());
            let fits = self.memory_limit == 0 || total + mem as u128 <= self.memory_limit as u128;
            match value.memory_usage.checked_add(mem) {
                Some(m) => {
                    if fits {
                        value.memory_usage = m;
                        total = total + mem as u128;
                        let kept = res.clone();
                        value.ttl_reply = Some(Box::new(TtlReply {
                            response: kept,
                            memory_usage: mem,
                            name: Ghost(query@.name),
                        }));
                    }
                },
                None => {},
            }
        }
        self.memory_usage = total;
        proof {
            let s2 = lru_entries(self.cache);
            assert(s2.drop_first() =~= es.remove(i));
            lemma_total_cons(s2[0], es.remove(i));
            assert(key_labels(query@.name) == key_labels(query@.name));
            assert(serves(res, e, ttl, query@));
            assert forall|j: int| 0 <= j < s2.len()
                implies entry_ok(#[trigger] s2[j].0, s2[j].1) by {
                if j > 0 {
                    if j - 1 < i {
                        assert(s2[j] == es[j - 1]);
                    } else {
                        assert(s2[j] == es[j]);
                    }
                }
            }
        }
        Some((res, status))
    }
}

// ---------------------------------------------------------------------------
// Refreshing

/// The instant up to which entries count as due: `now`, moved back by the
/// refresh delay (when there is one and the clock allows), then `ahead`
/// seconds forward (saturating).
pub open spec fn check_time(now: u64, delay: u64, ahead: u64) -> u64 {
    let base: int = if delay > 0 && now >= delay * 1000 { now - delay * 1000 } else { now as int };
    if base + ahead * 1000 > u64::MAX {
        u64::MAX
    } else {
        (base + ahead * 1000) as u64
    }
}

/// Whether an entry is due for a refresh: a positive address answer that is
/// not being refreshed, not waiting to retry, and expired at `check`.
pub open spec fn due(e: DnsCacheEntry, now: u64, check: u64) -> bool {
    &&& spec_negative_ttl(e.data.spec_message()) is None
    &&& !e.is_in_prefetching
    &&& !(e.retry_prefetch_at matches Some(t) && t > now)
    &&& resp_query(e.data.spec_message()).query_type.spec_is_ip_addr()
    &&& !(check <= e.valid_until)
}

/// How long until an entry that is not due may become due, if it may.
pub open spec fn wait_of(e: DnsCacheEntry, now: u64, check: u64) -> Option<u64> {
    if spec_negative_ttl(e.data.spec_message()) is Some || e.is_in_prefetching {
        None
    } else if e.retry_prefetch_at matches Some(t) && t > now {
        Some((e.retry_prefetch_at->0 - now) as u64)
    } else if !resp_query(e.data.spec_message()).query_type.spec_is_ip_addr() {
        None
    } else if check <= e.valid_until {
        Some((e.valid_until - check) as u64)
    } else {
        None
    }
}

/// The shortest wait over the entries, starting from `start`.
pub open spec fn min_wait(es: Seq<(Seq<u8>, DnsCacheEntry)>, now: u64, check: u64, start: u64) -> u64
    decreases es.len(),
{
    if es.len() == 0 {
        start
    } else {
        let m = min_wait(es.drop_last(), now, check, start);
        match wait_of(es.last().1, now, check) {
            Some(w) => if w < m { w } else { m },
            None => m,
        }
    }
}

/// A refresh to make: the question, the read count and the server group.
pub open spec fn refresh_of(e: DnsCacheEntry) -> (QueryV, usize, Option<Seq<char>>) {
    (resp_query(e.data.spec_message()), e.stats.hits, e.data.spec_group())
}

/// The refreshes due, in the order of the entries.
pub open spec fn due_list(es: Seq<(Seq<u8>, DnsCacheEntry)>, now: u64, check: u64)
    -> Seq<(QueryV, usize, Option<Seq<char>>)>
    decreases es.len(),
{
    if es.len() == 0 {
        Seq::empty()
    } else {
        let rest = due_list(es.drop_last(), now, check);
        if due(es.last().1, now, check) {
            rest.push(refresh_of(es.last().1))
        } else {
            rest
        }
    }
}

/// The entries with the due ones marked as being refreshed.
pub open spec fn mark_due(es: Seq<(Seq<u8>, DnsCacheEntry)>, now: u64, check: u64)
    -> Seq<(Seq<u8>, DnsCacheEntry)> {
    es.map_values(|p: (Seq<u8>, DnsCacheEntry)|
        if due(p.1, now, check) { (p.0, DnsCacheEntry { is_in_prefetching: true, ..p.1 }) } else { p })
}

/// Where `x` goes in a list sorted by read count, most read first: after
/// every item read at least as often.
pub open spec fn insert_pos(s: Seq<(QueryV, usize, Option<Seq<char>>)>, x: (QueryV, usize, Option<Seq<char>>)) -> nat
    decreases s.len(),
{
    if s.len() == 0 {
        0
    } else if s.last().1 >= x.1 {
        s.len()
    } else {
        insert_pos(s.drop_last(), x)
    }
}

/// The list sorted by read count, most read first; items read equally often
/// keep their order.
pub open spec fn by_hits(s: Seq<(QueryV, usize, Option<Seq<char>>)>) -> Seq<(QueryV, usize, Option<Seq<char>>)>
    decreases s.len(),
{
    if s.len() == 0 {
        s
    } else {
        let sorted = by_hits(s.drop_last());
        sorted.insert(insert_pos(sorted, s.last()) as int, s.last())
    }
}

/// The questions and groups of a list of refreshes.
pub open spec fn refresh_targets(s: Seq<(QueryV, usize, Option<Seq<char>>)>) -> Seq<(QueryV, Option<Seq<char>>)> {
    s.map_values(|x: (QueryV, usize, Option<Seq<char>>)| (x.0, x.2))
}

/// The view of a list of questions with their groups.
pub open spec fn target_views(v: Seq<(Query, Option<String>)>) -> Seq<(QueryV, Option<Seq<char>>)> {
    v.map_values(|x: (Query, Option<String>)| (x.0@, opt_str(x.1)))
}

/// The characters of an optional string.
pub open spec fn opt_str(o: Option<String>) -> Option<Seq<char>> {
    match o {
        Some(g) => Some(g@),
        None => None,
    }
}

/// A refresh with its question, read count and group.
pub struct Refresh {
    pub query: Query,
    pub hits: usize,
    pub group: Option<String>,
}

impl Refresh {
    pub open spec fn view3(self) -> (QueryV, usize, Option<Seq<char>>) {
        (self.query@, self.hits, opt_str(self.group))
    }
}

/// The views of refreshes.
pub open spec fn refresh_views(v: Seq<Refresh>) -> Seq<(QueryV, usize, Option<Seq<char>>)> {
    v.map_values(|r: Refresh| r.view3())
}

proof fn lemma_insert_pos(s: Seq<(QueryV, usize, Option<Seq<char>>)>, x: (QueryV, usize, Option<Seq<char>>), j: nat)
    requires
        j <= s.len(),
        forall|m: int| j <= m < s.len() ==> #[trigger] s[m].1 < x.1,
        j == 0 || s[j - 1].1 >= x.1,
    ensures
        insert_pos(s, x) == j,
    decreases s.len(),
{
    if s.len() > j {
        assert(s.drop_last().len() >= j);
        assert forall|m: int| j <= m < s.drop_last().len() implies #[trigger] s.drop_last()[m].1 < x.1 by {
            assert(s.drop_last()[m] == s[m]);
        }
        if j > 0 {
            assert(s.drop_last()[j - 1] == s[j - 1]);
        }
        lemma_insert_pos(s.drop_last(), x, j);
    }
}

/// Inserts `x` into a list sorted by read count (see [`insert_pos`]).
fn insert_by_hits(v: &mut Vec<Refresh>, x: Refresh)
    ensures
        refresh_views(final(v)@) == refresh_views(old(v)@).insert(
            insert_pos(refresh_views(old(v)@), x.view3()) as int, x.view3()),
{
    let ghost s = refresh_views(v@);
    let mut j: usize = v.len();
    while j > 0 && v[j - 1].hits < x.hits
        invariant
            j <= v@.len(),
            s == refresh_views(v@),
            v@ == old(v)@,
            forall|m: int| j <= m < s.len() ==> #[trigger] s[m].1 < x.hits,
        decreases j,
    {
        assert(s[j - 1] == v@[j - 1].view3());
        j = j - 1;
    }
    proof {
        if j > 0 {
            assert(s[j - 1] == v@[j - 1].view3());
        }
        lemma_insert_pos(s, x.view3(), j as nat);
    }
    let ghost xv = x.view3();
    v.insert(j, x);
    assert(refresh_views(v@) =~= s.insert(j as int, xv));
}

impl DnsCache {
    /// Marks the refresh of `query` as finished at `now` if it was running:
    /// the entry may be refreshed again after the refresh delay (at least one
    /// second).
    pub fn finish_prefetch(&mut self, query: &Query, now: u64)
        requires
            old(self).wf(),
        ensures
            final(self).wf(),
            final(self).same_settings(*old(self)),
            match find_key(old(self).entries(), query_key(query@)) {
                Some(i) => if old(self).entries()[i].1.is_in_prefetching {
                    final(self).entries() == old(self).entries().update(i, (old(self).entries()[i].0, DnsCacheEntry {
                        is_in_prefetching: false,
                        retry_prefetch_at: Some(deadline_secs(now, if old(self).spec_prefetch_time() > 1 {
                            old(self).spec_prefetch_time()
                        } else {
                            1
                        })),
                        ..old(self).entries()[i].1
                    }))
                } else {
                    final(self).entries() == old(self).entries()
                },
                None => final(self).entries() == old(self).entries(),
            },
    {
        let ghost es = lru_entries(self.cache);
        let key = cache_key(query);
        let delay = if self.prefetch_time > 1 { self.prefetch_time } else { 1 };
        let at = match delay.checked_mul(1000) {
            Some(d) => now.saturating_add(d),
            None => u64::MAX,
        };
        match lru_peek_mut(&mut self.cache, &key) {
            Some(entry) => {
                if entry.is_in_prefetching {
                    entry.is_in_prefetching = false;
                    entry.retry_prefetch_at = Some(at);
                }
            },
            None => {},
        }
        proof {
            match find_key(es, key@) {
                Some(i) => {
                    lemma_total_update(es, i, lru_entries(self.cache)[i]);
                    assert(lru_entries(self.cache)[i].0 == es[i].0);
                    assert forall|j: int| 0 <= j < lru_entries(self.cache).len()
                        implies entry_ok(#[trigger] lru_entries(self.cache)[j].0, lru_entries(self.cache)[j].1) by {
                        if j != i {
                            assert(lru_entries(self.cache)[j] == es[j]);
                        }
                    }
                    if !es[i].1.is_in_prefetching {
                        assert(lru_entries(self.cache) =~= es);
                    }
                },
                None => {},
            }
        }
    }
}

/// `now` plus `secs` seconds in milliseconds, saturating.
pub open spec fn deadline_secs(now: u64, secs: u64) -> u64 {
    if now + secs * 1000 > u64::MAX {
        u64::MAX
    } else {
        (now + secs * 1000) as u64
    }
}

proof fn lemma_find_unique(e: Seq<(Seq<u8>, DnsCacheEntry)>, i: int)
    requires
        keys_distinct(e),
        0 <= i < e.len(),
    ensures
        find_key(e, e[i].0) == Some(i),
{
    assert(e[i].0 == e[i].0);
    let j = choose|j: int| 0 <= j < e.len() && #[trigger] e[j].0 == e[i].0;
    if j != i {
        if j < i {
            assert(e[j].0 != e[i].0);
        } else {
            assert(e[i].0 != e[j].0);
        }
    }
}

impl DnsCache {
    /// The refreshes due at `now` looking `seconds_ahead` seconds ahead
    /// (5 when not given), most read first, each entry marked as being
    /// refreshed; and the time until the next entry may become due (at most
    /// one day), in milliseconds. Once stale answers are served, entries
    /// become due only after the refresh delay.
    pub fn get_expired(&mut self, now: u64, seconds_ahead: Option<u64>) -> (r: (Vec<(Query, Option<String>)>, u64))
        requires
            old(self).wf(),
        ensures
            final(self).wf(),
            final(self).same_settings(*old(self)),
            ({
                let delay = if old(self).spec_serve_expired() { old(self).spec_prefetch_time() } else { 0 };
                let ahead = match seconds_ahead { Some(a) => a, None => 5 };
                let check = check_time(now, delay, ahead);
                &&& final(self).entries() == mark_due(old(self).entries(), now, check)
                &&& target_views(r.0@) == refresh_targets(by_hits(due_list(old(self).entries(), now, check)))
                &&& r.1 == min_wait(old(self).entries(), now, check, (MAX_TTL * 1000) as u64)
            }),
    {
        let ghost es = lru_entries(self.cache);
        let keys = lru_keys(&self.cache);
        let delay: u64 = if self.serve_expired { self.prefetch_time } else { 0 };
        let ahead: u64 = match seconds_ahead {
            Some(a) => a,
            None => 5,
        };
        let base: u64 = if delay > 0 {
            match delay.checked_mul(1000) {
                Some(d) => if now >= d { now - d } else { now },
                None => now,
            }
        } else {
            now
        };
        let check: u64 = match ahead.checked_mul(1000) {
            Some(a) => base.saturating_add(a),
            None => u64::MAX,
        };
        assert(check == check_time(now, delay, ahead));
        let mut most: u64 = MAX_TTL as u64 * 1000;
        let mut due_now: Vec<Refresh> = Vec::new();
        let mut i: usize = 0;
        assert(es.take(0) =~= Seq::<(Seq<u8>, DnsCacheEntry)>::empty());
        assert(mark_due(es.take(0), now, check) + es.skip(0) =~= es);
        assert(label_seqs(keys@).len() == keys@.len());
        assert(entry_keys(es).len() == es.len());
        while i < keys.len()
            invariant
                i <= keys@.len(),
                keys@.len() == es.len(),
                label_seqs(keys@) == entry_keys(es),
                lru_ok(self.cache),
                keys_distinct(es),
                lru_cap(self.cache) == old(self).capacity(),
                lru_entries(self.cache) == mark_due(es.take(i as int), now, check) + es.skip(i as int),
                most == min_wait(es.take(i as int), now, check, (MAX_TTL * 1000) as u64),
                refresh_views(due_now@) == by_hits(due_list(es.take(i as int), now, check)),
                self.memory_usage == total_memory(es),
                forall|j: int| 0 <= j < es.len() ==> entry_ok(#[trigger] es[j].0, es[j].1),
                self.serve_expired == old(self).spec_serve_expired(),
                self.expired_ttl == old(self).spec_expired_ttl(),
                self.expired_reply_ttl == old(self).spec_expired_reply_ttl(),
                self.memory_limit == old(self).spec_memory_limit(),
                self.prefetch_time == old(self).spec_prefetch_time(),
            decreases keys.len() - i,
        {
            let ghost cur = lru_entries(self.cache);
            let ghost e = es[i as int].1;
            proof {
                assert(keys@[i as int]@ == label_seqs(keys@)[i as int]);
                assert(cur[i as int] == es[i as int]);
                assert forall|a: int, b: int| 0 <= a < b < cur.len() implies #[trigger] cur[a].0 != #[trigger] cur[b].0 by {
                    if a < i {
                        assert(cur[a].0 == es[a].0);
                    } else {
                        assert(cur[a] == es[a]);
                    }
                    if b < i {
                        assert(cur[b].0 == es[b].0);
                    } else {
                        assert(cur[b] == es[b]);
                    }
                }
                lemma_find_unique(cur, i as int);
                let t = es.take(i + 1);
                assert(t.drop_last() =~= es.take(i as int));
                assert(t.last().1 == e);
            }
            let entry = match lru_peek_mut(&mut self.cache, &keys[i]) {
                Some(x) => x,
                None => {
                    proof {
                        assert(false);
                    }
                    return (Vec::new(), most);
                },
            };
            let negative = negative_response_ttl(&entry.data).is_some();
            let waiting = match entry.retry_prefetch_at {
                Some(t) => t > now,
                None => false,
            };
            if negative || entry.is_in_prefetching {
            } else if waiting {
                let t = match entry.retry_prefetch_at {
                    Some(t) => t,
                    None => now,
                };
                if t - now < most {
                    most = t - now;
                }
            } else if !entry.data.query().query_type.is_ip_addr() {
            } else if entry.is_current(check) {
                if entry.valid_until - check < most {
                    most = entry.valid_until - check;
                }
            } else {
                entry.is_in_prefetching = true;
                let group = match entry.data.name_server_group() {
                    Some(g) => Some(g.to_string()),
                    None => None,
                };
                let item = Refresh { query: entry.data.query(), hits: entry.stats.hits, group };
                assert(item.view3() == refresh_of(e));
                proof {
                    let l = due_list(es.take(i as int), now, check);
                    assert(due(e, now, check));
                    assert(due_list(es.take(i + 1), now, check) == l.push(refresh_of(e)));
                    assert(l.push(refresh_of(e)).drop_last() =~= l);
                    assert(l.push(refresh_of(e)).last() == refresh_of(e));
                }
                insert_by_hits(&mut due_now, item);
            }
            proof {
                if !due(e, now, check) {
                    assert(due_list(es.take(i + 1), now, check) == due_list(es.take(i as int), now, check));
                }
            }
            proof {
                let next = lru_entries(self.cache);
                assert(next =~= mark_due(es.take(i + 1), now, check) + es.skip(i + 1));
                assert(es.take(i + 1).drop_last() =~= es.take(i as int));
            }
            i = i + 1;
        }
        proof {
            assert(es.take(es.len() as int) =~= es);
            assert(es.skip(es.len() as int) =~= Seq::<(Seq<u8>, DnsCacheEntry)>::empty());
            let fin = lru_entries(self.cache);
            assert(fin =~= mark_due(es, now, check));
            assert forall|j: int| 0 <= j < fin.len() implies entry_ok(#[trigger] fin[j].0, fin[j].1) by {
                assert(fin[j].0 == es[j].0);
                assert(fin[j].1.data == es[j].1.data);
            }
            assert(total_memory(fin) == total_memory(es)) by {
                lemma_total_marked(es, now, check);
            }
        }
        let mut out: Vec<(Query, Option<String>)> = Vec::new();
        let mut j: usize = 0;
        while j < due_now.len()
            invariant
                j <= due_now@.len(),
                out@.len() == j,
                forall|m: int| 0 <= m < j ==> (#[trigger] out@[m]).0@ == due_now@[m].query@
                    && opt_str(out@[m].1) == opt_str(due_now@[m].group),
            decreases due_now.len() - j,
        {
            let d = &due_now[j];
            let g = match &d.group {
                Some(x) => Some(x.clone()),
                None => None,
            };
            out.push((d.query.clone(), g));
            j = j + 1;
        }
        assert(target_views(out@) =~= refresh_targets(refresh_views(due_now@)));
        (out, most)
    }
}

proof fn lemma_total_marked(es: Seq<(Seq<u8>, DnsCacheEntry)>, now: u64, check: u64)
    ensures
        total_memory(mark_due(es, now, check)) == total_memory(es),
    decreases es.len(),
{
    if es.len() > 0 {
        lemma_total_marked(es.drop_first(), now, check);
        assert(mark_due(es, now, check).drop_first() =~= mark_due(es.drop_first(), now, check));
    }
}

// ---------------------------------------------------------------------------
// The cache in the request path

/// The memory limit configured (bytes; 0 means none).
pub open spec fn spec_memory_limit_of(memory_size: Option<u64>) -> usize {
    match memory_size {
        Some(s) => if s > usize::MAX { usize::MAX } else { s as usize },
        None => 0,
    }
}

/// The memory limit configured (bytes; 0 means none).
pub fn memory_limit_of(memory_size: Option<u64>) -> (r: usize)
    ensures
        r == spec_memory_limit_of(memory_size),
{
    match memory_size {
        Some(s) => if s > usize::MAX as u64 { usize::MAX } else { s as usize },
        None => 0,
    }
}

/// The delay after expiry before a served-stale entry is refreshed
/// (seconds): the configured one, else half the stale-serving time, at most
/// eight hours (eight hours when that is zero).
pub open spec fn spec_prefetch_interval(expired_prefetch_time: Option<u64>, serve_expired_ttl: u64) -> u64 {
    match expired_prefetch_time {
            Some(t) if t != 0 => t,
            _ => if serve_expired_ttl / 2 == 0 {
                28800u64
            } else if serve_expired_ttl / 2 < 28800 {
                (serve_expired_ttl / 2) as u64
            } else {
                28800u64
            },
    }
}

/// The delay after expiry before a served-stale entry is refreshed
/// (see [`spec_prefetch_interval`]).
pub fn prefetch_interval(expired_prefetch_time: Option<u64>, serve_expired_ttl: u64) -> (r: u64)
    ensures
        r == spec_prefetch_interval(expired_prefetch_time, serve_expired_ttl),
{
    let configured = match expired_prefetch_time {
        Some(t) => t,
        None => 0,
    };
    if configured != 0 {
        configured
    } else {
        let half = serve_expired_ttl / 2;
        if half == 0 {
            8 * 3600
        } else if half < 8 * 3600 {
            half
        } else {
            8 * 3600
        }
    }
}

impl DnsCache {
    /// The cache as configured: `cache_size` entries, stale serving, memory
    /// limit and refresh delay.
    pub fn configured(cache_size: usize, serve_expired: bool, serve_expired_ttl: u64, serve_expired_reply_ttl: u64,
        memory_size: Option<u64>, expired_prefetch_time: Option<u64>) -> (r: DnsCache)
        requires
            cache_size > 0,
        ensures
            r.wf(),
            r.entries().len() == 0,
            r.capacity() == cache_size,
            r.spec_serve_expired() == serve_expired,
            r.spec_expired_ttl() == serve_expired_ttl,
            r.spec_expired_reply_ttl() == serve_expired_reply_ttl,
            r.spec_memory_limit() == spec_memory_limit_of(memory_size),
            r.spec_prefetch_time() == spec_prefetch_interval(expired_prefetch_time, serve_expired_ttl),
            r.spec_memory_usage() == 0,
    {
        let mut c = DnsCache::new(cache_size, serve_expired, serve_expired_ttl, serve_expired_reply_ttl);
        c.set_limits(memory_limit_of(memory_size), prefetch_interval(expired_prefetch_time, serve_expired_ttl));
        c
    }
}

/// A TTL, zero when there is none.
pub open spec fn ttl_or_zero(t: Option<u32>) -> u32 {
    match t {
        Some(x) => x,
        None => 0,
    }
}

/// What the cache answers a request with.
pub enum CachedReply {
    /// A valid answer.
    Fresh(DnsResponse),
    /// An expired answer served stale; a refresh should run in the background.
    Stale(DnsResponse),
    /// Nothing usable: the request goes upstream.
    Miss,
}

/// Whether `group` is the server group of a response.
pub open spec fn from_group(res: DnsResponse, group: Seq<char>) -> bool {
    res.spec_group() == Some(group)
}

/// Looks `query` up in the cache for a request served by the server group
/// `group`. An answer from another group is not used. An expired answer is
/// served stale only when the configuration serves stale answers and the
/// request's rules do not forbid it.
pub fn cached_reply(cache: &mut DnsCache, query: &Query, now: u64, group: &str, serve_expired: bool,
    no_serve_expired: bool) -> (r: CachedReply)
    requires
        old(cache).wf(),
    ensures
        final(cache).wf(),
        final(cache).same_settings(*old(cache)),
        exists|got: Option<(DnsResponse, CacheStatus)>| {
            &&& #[trigger] looked_up(*old(cache), *final(cache), query@, now, got)
            &&& match got {
                Some((res, CacheStatus::Valid)) if from_group(res, group@) => r == CachedReply::Fresh(res),
                Some((res, CacheStatus::Expired)) if from_group(res, group@) && serve_expired && !no_serve_expired =>
                    r == CachedReply::Stale(res),
                _ => r is Miss,
            }
        },
{
    let got = cache.get(query, now);
    let ghost g = got;
    match got {
        Some((res, status)) => {
            let same = match res.name_server_group() {
                Some(n) => crate::text::str_eq(n, group),
                None => false,
            };
            if same {
                match status {
                    CacheStatus::Valid => {
                        assert(looked_up(*old(cache), *cache, query@, now, g));
                        return CachedReply::Fresh(res);
                    },
                    CacheStatus::Expired => {
                        if serve_expired && !no_serve_expired {
                            assert(looked_up(*old(cache), *cache, query@, now, g));
                            return CachedReply::Stale(res);
                        }
                    },
                }
            }
            assert(looked_up(*old(cache), *cache, query@, now, g));
            CachedReply::Miss
        },
        None => {
            assert(looked_up(*old(cache), *cache, query@, now, g));
            CachedReply::Miss
        },
    }
}

/// The answer a lookup gives after negative errors become answers: a NODATA
/// or NXDOMAIN error becomes the response it carries.
pub open spec fn answer_of(query: QueryV, result: Result<DnsResponse, LookupError>) -> Option<MessageV> {
    match result {
        Ok(res) => Some(res.spec_message()),
        Err(e) => if spec_is_negative(e) && no_records_of(e) is Some {
            Some(no_records_message(query, no_records_of(e)->0))
        } else {
            None
        },
    }
}

/// Handles what came back from upstream for `query` at `now`, for the
/// server group `group`. A negative error becomes its answer. A negative
/// answer is cached for its negative TTL (when that is positive); an answer
/// without a record of the asked type is not cached; any other answer is
/// cached for its smallest TTL. Caching is skipped when the request says so.
/// Also gives, when refreshing ahead is on and the answer was cached, the
/// seconds after which to look for due refreshes.
pub fn store_result(cache: &mut DnsCache, query: &Query, result: Result<DnsResponse, LookupError>, now: u64,
    group: &str, no_cache: bool, prefetch_domain: bool) -> (r: (Result<DnsResponse, LookupError>, Option<u32>))
    requires
        old(cache).wf(),
    ensures
        final(cache).wf(),
        final(cache).same_settings(*old(cache)),
        (match r.0 {
            Ok(res) => Some(res.spec_message()),
            Err(_) => None,
        }) == answer_of(query@, result),
        r.0 matches Err(e) ==> result matches Err(e0) && e == e0,
        match r.0 {
            Ok(res) => match spec_negative_ttl(res.spec_message()) {
                Some(t) => r.1 is None && (if t > 0 && !no_cache {
                    exists|e: DnsCacheEntry| #[trigger] inserted(*old(cache), *final(cache), e, res, now, t, group@)
                } else {
                    *final(cache) == *old(cache)
                }),
                None => if !has_type(res.spec_message().answers, query@.query_type) || no_cache {
                    r.1 is None && *final(cache) == *old(cache)
                } else {
                    &&& (exists|e: DnsCacheEntry| #[trigger] inserted(*old(cache), *final(cache), e, res, now,
                        ttl_or_zero(seq_min_ttl(res.spec_message().answers)), group@))
                    &&& r.1 == (if prefetch_domain { seq_min_ttl(res.spec_message().answers) } else { None })
                },
            },
            Err(_) => r.1 is None && *final(cache) == *old(cache),
        },
{
    let result = match result {
        Err(e) => {
            if e.is_negative_response() {
                match e.as_no_records_response(query) {
                    Some(response) => Ok(response),
                    None => Err(e),
                }
            } else {
                Err(e)
            }
        },
        Ok(r) => Ok(r),
    };
    match result {
        Ok(lookup) => {
            match negative_response_ttl(&lookup) {
                Some(ttl) => {
                    if ttl > 0 && !no_cache {
                        let copy = lookup.clone();
                        let ghost c = copy;
                        cache.insert_response(copy, now, ttl, group);
                        proof {
                            let e = choose|e: DnsCacheEntry| #[trigger] inserted(*old(cache), *cache, e, c, now, ttl, group@);
                            assert(inserted(*old(cache), *cache, e, lookup, now, ttl, group@));
                        }
                    }
                    return (Ok(lookup), None);
                },
                None => {},
            }
            if !any_of_type(lookup.records(), query.query_type) {
                return (Ok(lookup), None);
            }
            let mut prefetch: Option<u32> = None;
            if !no_cache {
                let ttl = match lookup.min_ttl() {
                    Some(t) => t,
                    None => 0,
                };
                assert(ttl == ttl_or_zero(seq_min_ttl(lookup.spec_message().answers)));
                let copy = lookup.clone();
                let ghost c = copy;
                cache.insert_response(copy, now, ttl, group);
                proof {
                    let e = choose|e: DnsCacheEntry| #[trigger] inserted(*old(cache), *cache, e, c, now, ttl, group@);
                    assert(inserted(*old(cache), *cache, e, lookup, now, ttl, group@));
                    assert(inserted(*old(cache), *cache, e, lookup, now,
                        ttl_or_zero(seq_min_ttl(lookup.spec_message().answers)), group@));
                }
                if prefetch_domain {
                    prefetch = lookup.min_ttl();
                }
            }
            (Ok(lookup), prefetch)
        },
        Err(e) => (Err(e), None),
    }
}

// ---------------------------------------------------------------------------
// Laws of the cache

proof fn lemma_fit_within(p: Seq<(Seq<u8>, DnsCacheEntry)>, limit: usize)
    requires
        limit > 0,
    ensures
        total_memory(p.take(fit_len(p, limit) as int)) <= limit,
        fit_len(p, limit) <= p.len(),
    decreases p.len(),
{
    if total_memory(p) <= limit || p.len() == 0 {
        assert(p.take(p.len() as int) =~= p);
    } else {
        lemma_fit_within(p.drop_last(), limit);
        assert(p.drop_last().take(fit_len(p.drop_last(), limit) as int)
            =~= p.take(fit_len(p.drop_last(), limit) as int));
    }
}

proof fn lemma_fit_all(p: Seq<(Seq<u8>, DnsCacheEntry)>)
    ensures
        fit_len(p, 0) == p.len(),
{
}

proof fn lemma_soa_ttl_bounds(rs: Seq<RecordV>)
    ensures
        soa_ttl(rs) is Some <==> exists|i: int| 0 <= i < rs.len() && (#[trigger] rs[i]).data is SOA,
        soa_ttl(rs) matches Some(t) ==> {
            &&& forall|i: int| 0 <= i < rs.len() && (#[trigger] rs[i]).data is SOA
                ==> t <= rs[i].ttl && t <= rs[i].data->SOA_0.minimum
            &&& exists|i: int| 0 <= i < rs.len() && (#[trigger] rs[i]).data is SOA
                && (t == rs[i].ttl || t == rs[i].data->SOA_0.minimum)
        },
    decreases rs.len(),
{
    if rs.len() > 0 {
        let d = rs.drop_last();
        lemma_soa_ttl_bounds(d);
        assert forall|i: int| 0 <= i < d.len() implies #[trigger] d[i] == rs[i] by {}
        let l = rs.len() - 1;
        assert(rs[l] == rs.last());
        if soa_ttl(d) is Some {
            let i = choose|i: int| 0 <= i < d.len() && (#[trigger] d[i]).data is SOA
                && (soa_ttl(d)->0 == d[i].ttl || soa_ttl(d)->0 == d[i].data->SOA_0.minimum);
            assert(rs[i] == d[i]);
        }
        if rs.last().data is SOA {
            assert(rs[l].data is SOA);
        }
        assert forall|i: int| 0 <= i < rs.len() && (#[trigger] rs[i]).data is SOA implies (i < d.len()
            && d[i].data is SOA) || i == l by {
            if i < l {
                assert(d[i] == rs[i]);
            }
        }
    }
}

proof fn lemma_cname_cap_bounds(rs: Seq<RecordV>, init: u32)
    ensures
        cname_cap(rs, init) <= init,
        forall|i: int| 0 <= i < rs.len() && rdata_type((#[trigger] rs[i]).data) == RecordType::CNAME
            ==> cname_cap(rs, init) <= rs[i].ttl,
        cname_cap(rs, init) == init || exists|i: int| 0 <= i < rs.len() && rdata_type((#[trigger] rs[i]).data)
            == RecordType::CNAME && cname_cap(rs, init) == rs[i].ttl,
    decreases rs.len(),
{
    if rs.len() > 0 {
        let d = rs.drop_last();
        lemma_cname_cap_bounds(d, init);
        let l = rs.len() - 1;
        assert(rs[l] == rs.last());
        assert forall|i: int| 0 <= i < d.len() implies #[trigger] d[i] == rs[i] by {}
        if cname_cap(d, init) != init {
            let i = choose|i: int| 0 <= i < d.len() && rdata_type((#[trigger] d[i]).data) == RecordType::CNAME
                && cname_cap(d, init) == d[i].ttl;
            assert(rs[i] == d[i]);
        }
        assert forall|i: int| 0 <= i < rs.len() && rdata_type((#[trigger] rs[i]).data) == RecordType::CNAME
            implies cname_cap(rs, init) <= rs[i].ttl by {
            if i < l {
                assert(d[i] == rs[i]);
                assert(rdata_type(d[i].data) == RecordType::CNAME);
            }
        }
    }
}

/// How long a negative answer is cached (what [`negative_response_ttl`]
/// returns). It has one exactly when the answer is an NXDOMAIN, or a
/// NOERROR without a record of the asked type, and its authority section
/// holds an SOA record. The time is then no longer than any SOA record's
/// TTL, than any SOA minimum, or than the TTL of any CNAME in the answer,
/// and it is one of those: the smallest of them.
pub proof fn law_negative_ttl_is_the_smallest_bound(m: MessageV)
    ensures
        spec_negative_ttl(m) is Some <==> {
            &&& m.header.response_code == ResponseCode::NXDomain || (m.header.response_code == ResponseCode::NoError
                && !exists|i: int| 0 <= i < m.answers.len() && rdata_type((#[trigger] m.answers[i]).data) == (
                if m.queries.len() > 0 { m.queries[0].query_type } else { RecordType::A }))
            &&& exists|i: int| 0 <= i < m.authorities.len() && (#[trigger] m.authorities[i]).data is SOA
        },
        spec_negative_ttl(m) matches Some(t) ==> {
            &&& forall|i: int| 0 <= i < m.authorities.len() && (#[trigger] m.authorities[i]).data is SOA
                ==> t <= m.authorities[i].ttl && t <= m.authorities[i].data->SOA_0.minimum
            &&& forall|i: int| 0 <= i < m.answers.len() && rdata_type((#[trigger] m.answers[i]).data)
                == RecordType::CNAME ==> t <= m.answers[i].ttl
            &&& (exists|i: int| 0 <= i < m.authorities.len() && (#[trigger] m.authorities[i]).data is SOA && (t
                == m.authorities[i].ttl || t == m.authorities[i].data->SOA_0.minimum)) || (exists|i: int| 0 <= i
                < m.answers.len() && rdata_type((#[trigger] m.answers[i]).data) == RecordType::CNAME && t
                == m.answers[i].ttl)
        },
{
    lemma_soa_ttl_bounds(m.authorities);
    match soa_ttl(m.authorities) {
        Some(s) => {
            lemma_cname_cap_bounds(m.answers, s);
        },
        None => {},
    }
}

/// Under a memory limit, storing an answer leaves the cache's charge within
/// the limit.
pub proof fn law_store_keeps_memory_within_limit(before: DnsCache, after: DnsCache, e: DnsCacheEntry,
    response: DnsResponse, now: u64, ttl: u32, group: Seq<char>)
    requires
        before.wf(),
        after.wf(),
        inserted(before, after, e, response, now, ttl, group),
        before.spec_memory_limit() > 0,
    ensures
        after.spec_memory_usage() <= before.spec_memory_limit(),
{
    let k = query_key(resp_query(response.spec_message()));
    let p = pushed(before.entries(), k, e, before.capacity());
    lemma_fit_within(p, before.spec_memory_limit());
}

/// An answer just stored (without a memory limit) is served from the cache,
/// as valid, until its deadline: with its group, and with its records'
/// TTLs capped at the whole seconds left.
pub proof fn law_stored_answer_is_served(before: DnsCache, mid: DnsCache, after: DnsCache, e: DnsCacheEntry,
    response: DnsResponse, now: u64, ttl: u32, group: Seq<char>, q: QueryV, later: u64,
    r: Option<(DnsResponse, CacheStatus)>)
    requires
        before.wf(),
        mid.wf(),
        inserted(before, mid, e, response, now, ttl, group),
        before.spec_memory_limit() == 0,
        looked_up(mid, after, q, later, r),
        query_key(q) == query_key(resp_query(response.spec_message())),
        later <= deadline(now, ttl),
    ensures
        r matches Some((res, st)) && st == CacheStatus::Valid && res.spec_group() == Some(group)
            && exists|qn: Seq<Seq<u8>>| #[trigger] key_labels(qn) == key_labels(q.name)
                && res.spec_message() == served(response.spec_message(),
                    (((deadline(now, ttl) - later) / 1000) as u64) as u32, qn),
{
    let k = query_key(q);
    let p = pushed(before.entries(), k, e, before.capacity());
    lemma_fit_all(p);
    assert(p.take(p.len() as int) =~= p);
    assert(mid.entries() == p);
    assert(mid.entries()[0] == (k, e));
    lemma_find_unique(mid.entries(), 0);
}

/// Every record of a served answer has a TTL of at most the cap.
pub proof fn law_served_ttls_are_capped(m: MessageV, ttl: u32, qn: Seq<Seq<u8>>)
    ensures
        forall|i: int| 0 <= i < served(m, ttl, qn).answers.len() ==> #[trigger] served(m, ttl, qn).answers[i].ttl <= ttl,
        forall|i: int| 0 <= i < served(m, ttl, qn).authorities.len()
            ==> #[trigger] served(m, ttl, qn).authorities[i].ttl <= ttl,
        forall|i: int| 0 <= i < served(m, ttl, qn).additionals.len()
            ==> #[trigger] served(m, ttl, qn).additionals[i].ttl <= ttl,
{
}

/// An expired negative answer is never served: the lookup drops it.
pub proof fn law_expired_negative_answer_is_dropped(before: DnsCache, after: DnsCache, q: QueryV, now: u64,
    r: Option<(DnsResponse, CacheStatus)>)
    requires
        looked_up(before, after, q, now, r),
        find_key(before.entries(), query_key(q)) matches Some(i)
            && spec_negative_ttl(before.entries()[i].1.data.spec_message()) is Some
            && now > before.entries()[i].1.valid_until,
    ensures
        r is None,
        after.entries().len() + 1 == before.entries().len(),
{
}

/// The entries of a store, without their keys.
pub open spec fn entry_values(e: Seq<(Seq<u8>, DnsCacheEntry)>) -> Seq<DnsCacheEntry> {
    e.map_values(|p: (Seq<u8>, DnsCacheEntry)| p.1)
}

impl DnsCache {
    /// The cache file's bytes: each entry's stored form, from the most to
    /// the least recently used (entries that cannot be written are left
    /// out).
    pub fn persist_bytes(&self, now: u64, wall_now: u64) -> (r: Vec<u8>)
        requires
            self.wf(),
        ensures
            r@ == crate::persist::spec_emit_all(entry_values(self.entries()), now, wall_now),
    {
        let keys = lru_keys(&self.cache);
        let ghost es = lru_entries(self.cache);
        let ghost vals = entry_values(es);
        let mut out: Vec<u8> = Vec::new();
        let mut i: usize = 0;
        assert(label_seqs(keys@).len() == keys@.len());
        assert(entry_keys(es).len() == es.len());
        while i < keys.len()
            invariant
                keys@.len() == es.len(),
                es == lru_entries(self.cache),
                vals == entry_values(es),
                keys_distinct(es),
                label_seqs(keys@) == entry_keys(es),
                i <= keys@.len(),
                out@ == crate::persist::spec_emit_all(vals.take(i as int), now, wall_now),
            decreases keys.len() - i,
        {
            proof {
                assert(label_seqs(keys@)[i as int] == keys@[i as int]@);
                assert(entry_keys(es)[i as int] == es[i as int].0);
                lemma_find_unique(es, i as int);
                assert(vals.take(i as int + 1).drop_last() =~= vals.take(i as int));
                assert(vals.take(i as int + 1).last() == es[i as int].1);
            }
            match lru_peek(&self.cache, &keys[i]) {
                Some(entry) => {
                    match entry.emit(now, wall_now) {
                        Ok(b) => crate::octets::extend_bytes(&mut out, b.as_slice()),
                        Err(_) => {
                            assert(out@ + Seq::<u8>::empty() =~= out@);
                        },
                    }
                },
                None => {},
            }
            i = i + 1;
        }
        assert(vals.take(keys@.len() as int) =~= vals);
        out
    }
}

/// What the cache holds for one question: the question, its answer records,
/// how often it was read and when last.
#[derive(Debug)]
pub struct CachedQueryRecord {
    pub name: Name,
    pub query_type: RecordType,
    pub query_class: u16,
    pub records: Vec<Record>,
    pub hits: usize,
    pub last_access: u64,
}

/// Whether `r` describes the cached entry `e`.
pub open spec fn describes(r: CachedQueryRecord, e: DnsCacheEntry) -> bool {
    let q = crate::request::first_query(e.data.spec_message());
    &&& r.name@ == q.name
    &&& r.query_type == q.query_type
    &&& r.query_class == q.query_class
    &&& record_views(r.records@) == e.data.spec_message().answers
    &&& r.hits == e.stats.hits
    &&& r.last_access == e.stats.last_access
}

impl DnsCache {
    /// One record per entry, from the most to the least recently used.
    pub fn cached_records(&self) -> (r: Vec<CachedQueryRecord>)
        requires
            self.wf(),
        ensures
            r@.len() == self.entries().len(),
            forall|i: int| 0 <= i < r@.len() ==> describes(#[trigger] r@[i], self.entries()[i].1),
    {
        let keys = lru_keys(&self.cache);
        let ghost es = lru_entries(self.cache);
        let mut out: Vec<CachedQueryRecord> = Vec::new();
        let mut i: usize = 0;
        assert(label_seqs(keys@).len() == keys@.len());
        assert(entry_keys(es).len() == es.len());
        while i < keys.len()
            invariant
                keys@.len() == es.len(),
                es == lru_entries(self.cache),
                keys_distinct(es),
                label_seqs(keys@) == entry_keys(es),
                i <= keys@.len(),
                out@.len() == i,
                forall|j: int| 0 <= j < i ==> describes(#[trigger] out@[j], es[j].1),
            decreases keys.len() - i,
        {
            proof {
                assert(label_seqs(keys@)[i as int] == keys@[i as int]@);
                assert(entry_keys(es)[i as int] == es[i as int].0);
                lemma_find_unique(es, i as int);
            }
            match lru_peek(&self.cache, &keys[i]) {
                Some(entry) => {
                    let q = entry.data.query();
                    let records = copy_records(entry.data.records());
                    out.push(CachedQueryRecord {
                        name: q.name,
                        query_type: q.query_type,
                        query_class: q.query_class,
                        records,
                        hits: entry.stats.hits,
                        last_access: entry.stats.last_access,
                    });
                },
                None => {},
            }
            i = i + 1;
        }
        out
    }
}

} // verus!
