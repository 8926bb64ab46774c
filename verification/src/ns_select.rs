//! Choosing the answer to an address query among the answers of a server
//! group: address filtering and aliasing, the response strategies, and the
//! choice of the selected address.
use vstd::prelude::*;
use crate::net::IpAddress;
use crate::message::{Query, QueryV, Record, RecordV, RecordType, RData, RDataV, ResponseCode, MessageV,
    record_views, rdata_ip};
use crate::response::{DnsResponse, seq_ips};
use crate::dns_error::{LookupError, ProtoErrorKind, AuthorityData, NoRecords, no_records_of, spec_is_nx_domain};

verus! {

// ---------------------------------------------------------------------------
// Networks

/// An address block: an address and the number of leading bits that count.
#[derive(Clone, Copy, Debug, PartialEq, Eq)]
pub struct IpNet {
    pub addr: IpAddress,
    pub prefix_len: u8,
}

/// Whether two addresses agree on their first `bits` bits.
pub open spec fn prefix_eq(a: Seq<u8>, b: Seq<u8>, bits: nat) -> bool {
    let full = bits / 8;
    let rest = bits % 8;
    &&& forall|j: int| 0 <= j < full ==> #[trigger] a[j] == b[j]
    &&& (rest != 0 ==> (a[full as int] >> (8 - rest) as u8) == (b[full as int] >> (8 - rest) as u8))
}

/// Whether the block holds `ip`: same family, and the same leading bits
/// (a prefix longer than the address counts as the whole address).
pub open spec fn net_contains(n: IpNet, ip: IpAddress) -> bool {
    let width = n.addr.octet_seq().len() * 8;
    &&& n.addr.spec_is_ipv4() == ip.spec_is_ipv4()
    &&& prefix_eq(n.addr.octet_seq(), ip.octet_seq(), if n.prefix_len <= width { n.prefix_len as nat } else { width })
}

impl IpNet {
    /// Whether the block holds `ip`.
    pub fn contains(&self, ip: &IpAddress) -> (r: bool)
        ensures
            r == net_contains(*self, *ip),
    {
        if self.addr.is_ipv4() != ip.is_ipv4() {
            return false;
        }
        let a = self.addr.octets();
        let b = ip.octets();
        proof {
            match self.addr {
                IpAddress::V4(x) => {
                    match *ip {
                        IpAddress::V4(y) => {
                            assert(a@.len() == 4 && b@.len() == 4);
                        },
                        IpAddress::V6(y) => {},
                    }
                },
                IpAddress::V6(x) => {
                    match *ip {
                        IpAddress::V4(y) => {},
                        IpAddress::V6(y) => {
                            assert(a@.len() == 16 && b@.len() == 16);
                        },
                    }
                },
            }
        }
        let width: usize = a.len() * 8;
        let bits: usize = if (self.prefix_len as usize) <= width { self.prefix_len as usize } else { width };
        let full = bits / 8;
        let rest = bits % 8;
        let mut j: usize = 0;
        while j < full
            invariant
                j <= full,
                full <= a@.len(),
                a@.len() == b@.len(),
                a@ == self.addr.octet_seq(),
                b@ == ip.octet_seq(),
                self.addr.spec_is_ipv4() == ip.spec_is_ipv4(),
                full == bits / 8,
                bits == (if self.prefix_len <= self.addr.octet_seq().len() * 8 {
                    self.prefix_len as nat
                } else {
                    self.addr.octet_seq().len() * 8
                }),
                forall|m: int| 0 <= m < j ==> #[trigger] a@[m] == b@[m],
            decreases full - j,
        {
            if a[j] != b[j] {
                assert(!(a@[j as int] == b@[j as int]));
                return false;
            }
            j = j + 1;
        }
        if rest != 0 {
            let shift = (8 - rest) as u8;
            if (a[full] >> shift) != (b[full] >> shift) {
                proof {
                    let width = self.addr.octet_seq().len() * 8;
                    let sb: nat = if self.prefix_len <= width { self.prefix_len as nat } else { width };
                    assert(sb == bits);
                    assert(sb / 8 == full && sb % 8 == rest);
                    assert(shift == (8 - rest) as u8);
                    assert(!((a@[full as int] >> shift) == (b@[full as int] >> shift)));
                    assert(!prefix_eq(a@, b@, sb));
                }
                return false;
            }
        }
        true
    }
}

/// A set of address blocks.
pub struct IpSet {
    pub nets: Vec<IpNet>,
}

/// Whether some block holds `ip`.
pub open spec fn set_contains(nets: Seq<IpNet>, ip: IpAddress) -> bool {
    exists|i: int| 0 <= i < nets.len() && net_contains(#[trigger] nets[i], ip)
}

impl IpSet {
    pub fn is_empty(&self) -> (r: bool)
        ensures
            r == (self.nets@.len() == 0),
    {
        self.nets.len() == 0
    }

    /// Whether some block holds `ip`.
    pub fn contains(&self, ip: &IpAddress) -> (r: bool)
        ensures
            r == set_contains(self.nets@, *ip),
    {
        let mut i: usize = 0;
        while i < self.nets.len()
            invariant
                i <= self.nets@.len(),
                forall|j: int| 0 <= j < i ==> !net_contains(#[trigger] self.nets@[j], *ip),
            decreases self.nets.len() - i,
        {
            if self.nets[i].contains(ip) {
                return true;
            }
            i = i + 1;
        }
        false
    }
}

/// Address blocks with the addresses that stand in for the addresses they
/// hold.
pub struct IpMap {
    pub entries: Vec<(IpNet, Vec<IpAddress>)>,
}

/// The first entry whose block holds `ip`.
pub open spec fn map_find(es: Seq<(IpNet, Vec<IpAddress>)>, ip: IpAddress) -> Option<int>
    decreases es.len(),
{
    if es.len() == 0 {
        None
    } else if net_contains(es[0].0, ip) {
        Some(0)
    } else {
        match map_find(es.drop_first(), ip) {
            Some(j) => Some(j + 1),
            None => None,
        }
    }
}

proof fn lemma_map_find_range(es: Seq<(IpNet, Vec<IpAddress>)>, ip: IpAddress)
    ensures
        map_find(es, ip) matches Some(j) ==> 0 <= j < es.len() && net_contains(es[j].0, ip),
    decreases es.len(),
{
    if es.len() > 0 && !net_contains(es[0].0, ip) {
        lemma_map_find_range(es.drop_first(), ip);
    }
}

impl IpMap {
    pub fn is_empty(&self) -> (r: bool)
        ensures
            r == (self.entries@.len() == 0),
    {
        self.entries.len() == 0
    }

    /// The index of the first entry whose block holds `ip`.
    pub fn find(&self, ip: &IpAddress) -> (r: Option<usize>)
        ensures
            match r {
                Some(j) => map_find(self.entries@, *ip) == Some(j as int),
                None => map_find(self.entries@, *ip) is None,
            },
    {
        let ghost es = self.entries@;
        let mut i: usize = 0;
        assert(es.skip(0) =~= es);
        while i < self.entries.len()
            invariant
                i <= es.len(),
                es == self.entries@,
                map_find(es, *ip) == (match map_find(es.skip(i as int), *ip) {
                    Some(j) => Some(j + i),
                    None => None,
                }),
            decreases self.entries.len() - i,
        {
            assert(es.skip(i as int).drop_first() =~= es.skip(i + 1));
            assert(es.skip(i as int)[0] == es[i as int]);
            if self.entries[i].0.contains(ip) {
                return Some(i);
            }
            i = i + 1;
        }
        assert(es.skip(i as int) =~= Seq::<(IpNet, Vec<IpAddress>)>::empty());
        None
    }
}

// ---------------------------------------------------------------------------
// Filtering and aliasing the addresses of one server's answer

/// Whether an address passes the lists: a whitelisted address always does,
/// a blacklisted one never, an ignored one does not.
pub open spec fn ip_passes(ip: IpAddress, whitelist_on: bool, whitelist: Seq<IpNet>, blacklist_on: bool,
    blacklist: Seq<IpNet>, ignore: Seq<IpNet>) -> bool {
    if whitelist_on && set_contains(whitelist, ip) {
        true
    } else if blacklist_on && set_contains(blacklist, ip) {
        false
    } else {
        !set_contains(ignore, ip)
    }
}

/// The address lists a server's answers are held to.
pub struct AddressFilter {
    pub whitelist_on: bool,
    pub blacklist_on: bool,
    pub whitelist: IpSet,
    pub blacklist: IpSet,
    pub ignore: IpSet,
    pub alias: IpMap,
}

impl AddressFilter {
    pub open spec fn passes(&self, ip: IpAddress) -> bool {
        ip_passes(ip, self.whitelist_on, self.whitelist.nets@, self.blacklist_on, self.blacklist.nets@,
            self.ignore.nets@)
    }

    /// Whether the filter changes nothing.
    pub open spec fn inactive(&self) -> bool {
        !self.whitelist_on && !self.blacklist_on && self.ignore.nets@.len() == 0 && self.alias.entries@.len() == 0
    }

    pub fn ip_ok(&self, ip: &IpAddress) -> (r: bool)
        ensures
            r == self.passes(*ip),
    {
        if self.whitelist_on && self.whitelist.contains(ip) {
            return true;
        }
        if self.blacklist_on && self.blacklist.contains(ip) {
            return false;
        }
        !self.ignore.contains(ip)
    }
}

/// What the address lists of a server do to an answer's address (what
/// [`AddressFilter::ip_ok`] returns): a whitelisted address (whitelist on)
/// always passes; otherwise a blacklisted one (blacklist on) never does,
/// nor does one in the ignore list; every other address passes.
pub proof fn law_address_lists(f: AddressFilter, ip: IpAddress)
    ensures
        (f.whitelist_on && exists|i: int| 0 <= i < f.whitelist.nets@.len() && net_contains(
            #[trigger] f.whitelist.nets@[i],
            ip,
        )) ==> f.passes(ip),
        !(f.whitelist_on && exists|i: int| 0 <= i < f.whitelist.nets@.len() && net_contains(
            #[trigger] f.whitelist.nets@[i],
            ip,
        )) ==> {
            &&& (f.blacklist_on && exists|i: int| 0 <= i < f.blacklist.nets@.len() && net_contains(
                #[trigger] f.blacklist.nets@[i],
                ip,
            )) ==> !f.passes(ip)
            &&& (exists|i: int| 0 <= i < f.ignore.nets@.len() && net_contains(#[trigger] f.ignore.nets@[i], ip))
                ==> !f.passes(ip)
            &&& (!(f.blacklist_on && exists|i: int| 0 <= i < f.blacklist.nets@.len() && net_contains(
                #[trigger] f.blacklist.nets@[i],
                ip,
            )) && !exists|i: int| 0 <= i < f.ignore.nets@.len() && net_contains(#[trigger] f.ignore.nets@[i], ip))
                ==> f.passes(ip)
        },
{
}

/// The state of filtering answers: answers kept, records moved to the
/// additional section, and the alias entries already used.
pub struct AliasState {
    pub answers: Seq<RecordV>,
    pub extra: Seq<RecordV>,
    pub used: Set<int>,
}

/// Whether the address family of `ip` is the one `t` asks for.
pub open spec fn family_fits(t: RecordType, ip: IpAddress) -> bool {
    (t == RecordType::A && ip.spec_is_ipv4()) || (t == RecordType::AAAA && !ip.spec_is_ipv4())
}

/// The record with the address `ip` as its data.
pub open spec fn with_ip(r: RecordV, ip: IpAddress) -> RecordV {
    RecordV {
        data: match ip {
            IpAddress::V4(a) => RDataV::A(a),
            IpAddress::V6(a) => RDataV::AAAA(a),
        },
        ..r
    }
}

/// The records made for the aliases of `r`: those of the asked family, and
/// the others.
pub open spec fn alias_fit(r: RecordV, ips: Seq<IpAddress>, t: RecordType) -> Seq<RecordV>
    decreases ips.len(),
{
    if ips.len() == 0 {
        Seq::empty()
    } else {
        let rest = alias_fit(r, ips.drop_last(), t);
        if family_fits(t, ips.last()) { rest.push(with_ip(r, ips.last())) } else { rest }
    }
}

pub open spec fn alias_other(r: RecordV, ips: Seq<IpAddress>, t: RecordType) -> Seq<RecordV>
    decreases ips.len(),
{
    if ips.len() == 0 {
        Seq::empty()
    } else {
        let rest = alias_other(r, ips.drop_last(), t);
        if family_fits(t, ips.last()) { rest } else { rest.push(with_ip(r, ips.last())) }
    }
}

/// One answer record through the filter: a record without an address, or
/// with an address that does not pass, is dropped; an address with an alias
/// entry is replaced by the entry's addresses (once per entry; records of
/// the other family go to the additional section); other records stay.
pub open spec fn alias_step(st: AliasState, r: RecordV, t: RecordType, f: AddressFilter) -> AliasState {
    match rdata_ip(r.data) {
        None => st,
        Some(ip) => if !f.passes(ip) {
            st
        } else {
            match map_find(f.alias.entries@, ip) {
                None => AliasState { answers: st.answers.push(r), ..st },
                Some(j) => if st.used.contains(j) {
                    st
                } else {
                    let ips = f.alias.entries@[j].1@;
                    AliasState {
                        answers: st.answers + alias_fit(r, ips, t),
                        extra: st.extra + alias_other(r, ips, t),
                        used: st.used.insert(j),
                    }
                },
            }
        },
    }
}

/// The filter over a list of answer records.
pub open spec fn alias_scan(rs: Seq<RecordV>, t: RecordType, f: AddressFilter) -> AliasState
    decreases rs.len(),
{
    if rs.len() == 0 {
        AliasState { answers: Seq::empty(), extra: Seq::empty(), used: Set::empty() }
    } else {
        alias_step(alias_scan(rs.drop_last(), t, f), rs.last(), t, f)
    }
}

/// A record with an address as its data.
pub fn record_with_ip(r: &Record, ip: IpAddress) -> (out: Record)
    ensures
        out@ == with_ip(r@, ip),
{
    let mut c = r.clone();
    c.data = RData::from_ip(ip);
    proof {
        match ip {
            IpAddress::V4(a) => {},
            IpAddress::V6(a) => {},
        }
    }
    c
}

/// Whether `used` (as indices) is the set `s`.
pub open spec fn used_set(used: Seq<usize>, s: Set<int>) -> bool {
    forall|j: int| #[trigger] s.contains(j) <==> exists|m: int| 0 <= m < used.len() && used[m] == j
}

/// Whether `j` is among the used indices.
fn is_used(used: &Vec<usize>, j: usize) -> (r: bool)
    ensures
        r == exists|m: int| 0 <= m < used@.len() && used@[m] == j,
{
    let mut i: usize = 0;
    while i < used.len()
        invariant
            i <= used@.len(),
            forall|m: int| 0 <= m < i ==> used@[m] != j,
        decreases used.len() - i,
    {
        if used[i] == j {
            return true;
        }
        i = i + 1;
    }
    false
}

/// Appends the records made for the aliases `ips` of `r`.
fn push_aliases(answers: &mut Vec<Record>, extra: &mut Vec<Record>, r: &Record, ips: &Vec<IpAddress>, t: RecordType)
    ensures
        record_views(final(answers)@) == record_views(old(answers)@) + alias_fit(r@, ips@, t),
        record_views(final(extra)@) == record_views(old(extra)@) + alias_other(r@, ips@, t),
{
    let mut k: usize = 0;
    assert(ips@.take(0) =~= Seq::<IpAddress>::empty());
    assert(record_views(answers@) =~= record_views(old(answers)@) + alias_fit(r@, ips@.take(0), t));
    assert(record_views(extra@) =~= record_views(old(extra)@) + alias_other(r@, ips@.take(0), t));
    while k < ips.len()
        invariant
            k <= ips@.len(),
            record_views(answers@) == record_views(old(answers)@) + alias_fit(r@, ips@.take(k as int), t),
            record_views(extra@) == record_views(old(extra)@) + alias_other(r@, ips@.take(k as int), t),
        decreases ips.len() - k,
    {
        let ip = ips[k];
        let c = record_with_ip(r, ip);
        proof {
            let tk = ips@.take(k + 1);
            assert(tk.drop_last() =~= ips@.take(k as int));
            assert(tk.last() == ip);
        }
        let fits = match (t, ip) {
            (RecordType::A, IpAddress::V4(_)) => true,
            (RecordType::AAAA, IpAddress::V6(_)) => true,
            _ => false,
        };
        assert(fits == family_fits(t, ip));
        let ghost a0 = record_views(answers@);
        let ghost e0 = record_views(extra@);
        if fits {
            answers.push(c);
            assert(record_views(answers@) =~= a0.push(c@));
        } else {
            extra.push(c);
            assert(record_views(extra@) =~= e0.push(c@));
        }
        k = k + 1;
    }
    assert(ips@.take(ips@.len() as int) =~= ips@);
}

/// The no-records error for `query`: the name does not exist.
pub open spec fn nx_error_of(e: LookupError, query: QueryV) -> bool {
    &&& no_records_of(e) is Some
    &&& no_records_of(e)->0.query@ == query
    &&& no_records_of(e)->0.response_code == ResponseCode::NXDomain
    &&& no_records_of(e)->0.soa is None
}

/// What filtering makes of one server's answer to an address query of type
/// `t`: when the filter is active, the answer records become those that
/// pass the filter, with aliases; records of aliases of the other family go
/// to the additional section; an answer left without records becomes a
/// no-records (NXDOMAIN) error.
pub open spec fn filtered(lookup: DnsResponse, t: RecordType, f: AddressFilter, r: Result<DnsResponse, LookupError>)
    -> bool {
    let m = lookup.spec_message();
    let st = alias_scan(m.answers, t, f);
    if f.inactive() {
        r == Ok::<DnsResponse, LookupError>(lookup)
    } else if st.answers.len() == 0 {
        r matches Err(e) && nx_error_of(e, crate::cache::resp_query(m))
    } else {
        r matches Ok(res) && res.spec_message() == (MessageV {
            answers: st.answers,
            additionals: m.additionals + st.extra,
            ..m
        }) && res.spec_group() == lookup.spec_group()
    }
}

proof fn lemma_nothing_passes(rs: Seq<RecordV>, t: RecordType, f: AddressFilter)
    requires
        forall|i: int| 0 <= i < rs.len() ==> (rdata_ip((#[trigger] rs[i]).data) matches Some(ip) ==> !f.passes(ip)),
    ensures
        alias_scan(rs, t, f).answers.len() == 0,
    decreases rs.len(),
{
    if rs.len() > 0 {
        let d = rs.drop_last();
        assert forall|i: int| 0 <= i < d.len() implies (rdata_ip((#[trigger] d[i]).data) matches Some(ip)
            ==> !f.passes(ip)) by {
            assert(d[i] == rs[i]);
        }
        lemma_nothing_passes(d, t, f);
        assert(rs.last() == rs[rs.len() - 1]);
    }
}

/// An answer none of whose addresses passes an active filter is left
/// without records: filtering it gives the no-records error, never an
/// answer.
pub proof fn law_blocked_answer_has_no_records(lookup: DnsResponse, t: RecordType, f: AddressFilter,
    r: Result<DnsResponse, LookupError>)
    requires
        filtered(lookup, t, f, r),
        !f.inactive(),
        forall|i: int| 0 <= i < lookup.spec_message().answers.len() ==> (rdata_ip(
            (#[trigger] lookup.spec_message().answers[i]).data,
        ) matches Some(ip) ==> !f.passes(ip)),
    ensures
        r is Err,
{
    lemma_nothing_passes(lookup.spec_message().answers, t, f);
}

impl AddressFilter {
    /// Filters one server's answer to an address query of type `t` (see
    /// [`filtered`]); the filtered answer is valid for the maximum TTL.
    pub fn apply(&self, lookup: DnsResponse, t: RecordType) -> (r: Result<DnsResponse, LookupError>)
        ensures
            filtered(lookup, t, *self, r),
    {
        if !self.whitelist_on && !self.blacklist_on && self.ignore.is_empty() && self.alias.is_empty() {
            return Ok(lookup);
        }
        let query = lookup.query();
        let m = lookup.message();
        let ghost rs = m@.answers;
        let mut answers: Vec<Record> = Vec::new();
        let mut extra: Vec<Record> = Vec::new();
        let mut used: Vec<usize> = Vec::new();
        let ghost mut st = alias_scan(rs.take(0), t, *self);
        assert(rs.take(0) =~= Seq::<RecordV>::empty());
        assert(record_views(answers@) =~= Seq::<RecordV>::empty());
        assert(record_views(extra@) =~= Seq::<RecordV>::empty());
        let mut i: usize = 0;
        while i < m.answers.len()
            invariant
                i <= m.answers@.len(),
                rs == record_views(m.answers@),
                st == alias_scan(rs.take(i as int), t, *self),
                record_views(answers@) == st.answers,
                record_views(extra@) == st.extra,
                used_set(used@, st.used),
            decreases m.answers.len() - i,
        {
            let rec = &m.answers[i];
            proof {
                assert(rs[i as int] == rec@);
                let ti = rs.take(i + 1);
                assert(ti.drop_last() =~= rs.take(i as int));
                assert(ti.last() == rec@);
            }
            let ghost next = alias_step(st, rec@, t, *self);
            match rec.data.ip_addr() {
                None => {},
                Some(ip) => {
                    if self.ip_ok(&ip) {
                        match self.alias.find(&ip) {
                            None => {
                                let ghost a0 = record_views(answers@);
                                answers.push(rec.clone());
                                assert(record_views(answers@) =~= a0.push(rec@));
                            },
                            Some(j) => {
                                proof {
                                    lemma_map_find_range(self.alias.entries@, ip);
                                }
                                if !is_used(&used, j) {
                                    assert(!st.used.contains(j as int));
                                    let ghost u0 = used@;
                                    used.push(j);
                                    assert forall|x: int| #[trigger] st.used.insert(j as int).contains(x)
                                        <==> exists|m: int| 0 <= m < used@.len() && used@[m] == x by {
                                        if st.used.insert(j as int).contains(x) {
                                            if x == j {
                                                assert(used@[u0.len() as int] == x);
                                            } else {
                                                let m0 = choose|m: int| 0 <= m < u0.len() && u0[m] == x;
                                                assert(used@[m0] == x);
                                            }
                                        }
                                        if exists|m: int| 0 <= m < used@.len() && used@[m] == x {
                                            let m0 = choose|m: int| 0 <= m < used@.len() && used@[m] == x;
                                            if m0 < u0.len() {
                                                assert(u0[m0] == x);
                                            }
                                        }
                                    }
                                    push_aliases(&mut answers, &mut extra, rec, &self.alias.entries[j].1, t);
                                } else {
                                    assert(st.used.contains(j as int));
                                }
                            },
                        }
                    }
                },
            }
            proof {
                st = next;
            }
            i = i + 1;
        }
        assert(rs.take(rs.len() as int) =~= rs);
        if answers.len() == 0 {
            assert(st.answers.len() == 0);
            let data = AuthorityData::new(query, None, true, true, None);
            let no_records = NoRecords::from(data);
            return Err(LookupError::from(ProtoErrorKind::NoRecordsFound(no_records)));
        }
        let mut msg = m.clone();
        msg.answers = answers;
        let ghost add0 = record_views(msg.additionals@);
        let mut k: usize = 0;
        while k < extra.len()
            invariant
                k <= extra@.len(),
                record_views(msg.additionals@) == add0 + record_views(extra@).take(k as int),
                record_views(msg.answers@) == st.answers,
                msg@.header == m@.header,
                msg@.queries == m@.queries,
                msg@.authorities == m@.authorities,
                msg@.edns == m@.edns,
            decreases extra.len() - k,
        {
            let ghost before = record_views(msg.additionals@);
            let c = extra[k].clone();
            assert(c@ == record_views(extra@)[k as int]);
            msg.additionals.push(c);
            assert(record_views(msg.additionals@) =~= before.push(c@));
            assert(record_views(extra@).take(k + 1) =~= record_views(extra@).take(k as int).push(c@));
            assert(record_views(msg.additionals@) =~= add0 + record_views(extra@).take(k + 1));
            k = k + 1;
        }
        assert(record_views(extra@).take(extra@.len() as int) =~= record_views(extra@));
        let mut res = lookup;
        res.set_message(msg);
        res.set_valid_until_max();
        assert(res.spec_message() =~= (MessageV {
            answers: st.answers,
            additionals: m@.additionals + st.extra,
            ..m@
        }));
        Ok(res)
    }
}

// ---------------------------------------------------------------------------
// Response strategies

/// How the answer to an address query is chosen among the servers of a group.
#[derive(Clone, Copy, Debug, PartialEq, Eq, Structural)]
pub enum ResponseMode {
    /// The first answer whose address is reached by a probe.
    FirstPing,
    /// The address with the fastest probe over all answers.
    FastestIp,
    /// The first good answer.
    FastestResponse,
}

/// How the speed of an address is probed.
#[derive(Clone, Copy, Debug, PartialEq, Eq, Structural)]
pub enum SpeedCheckMode {
    /// No probing at all.
    NoCheck,
    Ping,
    Tcp(u16),
    Http(u16),
    Https(u16),
}

impl SpeedCheckMode {
    pub fn is_none(&self) -> (r: bool)
        ensures
            r == (*self is NoCheck),
    {
        match self {
            SpeedCheckMode::NoCheck => true,
            _ => false,
        }
    }
}

/// Whether some probe mode is `NoCheck`.
pub open spec fn any_none(ms: Seq<SpeedCheckMode>) -> bool {
    exists|i: int| 0 <= i < ms.len() && #[trigger] ms[i] is NoCheck
}

/// The strategy and probe modes a lookup uses: without speed checks (turned
/// off, not configured, or a mode of `NoCheck`) answers are taken as they come.
pub fn effective_strategy(no_speed_check: bool, modes: Option<&Vec<SpeedCheckMode>>, mode: ResponseMode)
    -> (r: (ResponseMode, Vec<SpeedCheckMode>))
    ensures
        match modes {
            None => r.0 == ResponseMode::FastestResponse && r.1@.len() == 0,
            Some(ms) => if any_none(ms@) {
                r.0 == ResponseMode::FastestResponse && r.1@.len() == 0
            } else {
                r.0 == (if no_speed_check { ResponseMode::FastestResponse } else { mode }) && r.1@ == ms@
            },
        },
{
    match modes {
        None => (ResponseMode::FastestResponse, Vec::new()),
        Some(ms) => {
            let mut i: usize = 0;
            while i < ms.len()
                invariant
                    i <= ms@.len(),
                    modes == Some(ms),
                    forall|j: int| 0 <= j < i ==> !(#[trigger] ms@[j] is NoCheck),
                decreases ms.len() - i,
            {
                if ms[i].is_none() {
                    assert(ms@[i as int] is NoCheck);
                    assert(any_none(ms@));
                    return (ResponseMode::FastestResponse, Vec::new());
                }
                i = i + 1;
            }
            let mut copy: Vec<SpeedCheckMode> = Vec::new();
            let mut j: usize = 0;
            while j < ms.len()
                invariant
                    j <= ms@.len(),
                    copy@ == ms@.take(j as int),
                decreases ms.len() - j,
            {
                copy.push(ms[j]);
                assert(copy@ =~= ms@.take(j + 1));
                j = j + 1;
            }
            assert(ms@.take(ms@.len() as int) =~= ms@);
            (if no_speed_check { ResponseMode::FastestResponse } else { mode }, copy)
        },
    }
}

/// Whether a result settles the question (NOERROR or NXDOMAIN, or a
/// no-records or NXDOMAIN error): once one arrives, the other servers get a
/// short grace period only.
pub open spec fn settles(res: Result<DnsResponse, LookupError>) -> bool {
    match res {
        Ok(r) => r.spec_message().header.response_code == ResponseCode::NoError
            || r.spec_message().header.response_code == ResponseCode::NXDomain,
        Err(e) => no_records_of(e) is Some || spec_is_nx_domain(e),
    }
}

/// Whether a result settles the question (see [`settles`]).
pub fn is_settling(res: &Result<DnsResponse, LookupError>) -> (r: bool)
    ensures
        r == settles(*res),
{
    match res {
        Ok(r) => match r.response_code() {
            ResponseCode::NoError | ResponseCode::NXDomain => true,
            _ => false,
        },
        Err(e) => {
            let no_records = match e {
                LookupError::Proto(p) => match &p.kind {
                    ProtoErrorKind::NoRecordsFound(_) => true,
                    _ => false,
                },
                _ => false,
            };
            no_records || e.is_nx_domain()
        },
    }
}

/// Whether the remaining queries must now be given a deadline: on the first
/// settling result only.
pub fn limit_remaining_queries(received_response: &mut bool, res: &Result<DnsResponse, LookupError>) -> (r: bool)
    ensures
        r == (!*old(received_response) && settles(*res)),
        *final(received_response) == (*old(received_response) || settles(*res)),
{
    if *received_response || !is_settling(res) {
        return false;
    }
    *received_response = true;
    true
}

/// Whether two errors are the same failure: the same response code, the
/// same description, or no records for the same question with the same code.
pub open spec fn same_failure(a: LookupError, b: LookupError) -> bool {
    match (a, b) {
        (LookupError::NameExists, LookupError::NameExists) => true,
        (LookupError::ResponseCode(x), LookupError::ResponseCode(y)) => x == y,
        (LookupError::Io(x), LookupError::Io(y)) => x@ == y@,
        (LookupError::Proto(x), LookupError::Proto(y)) => match (x.kind, y.kind) {
            (ProtoErrorKind::NoRecordsFound(n), ProtoErrorKind::NoRecordsFound(m)) =>
                n.query@ == m.query@ && n.response_code == m.response_code,
            (ProtoErrorKind::NoConnections, ProtoErrorKind::NoConnections) => true,
            (ProtoErrorKind::Timeout, ProtoErrorKind::Timeout) => true,
            (ProtoErrorKind::Busy, ProtoErrorKind::Busy) => true,
            (ProtoErrorKind::Msg(s), ProtoErrorKind::Msg(t)) => s@ == t@,
            _ => false,
        },
        _ => false,
    }
}

/// Whether two names have the same labels, byte for byte.
pub fn names_equal(a: &crate::message::Name, b: &crate::message::Name) -> (r: bool)
    ensures
        r == (a@ == b@),
{
    if a.labels.len() != b.labels.len() {
        assert(a@.len() != b@.len());
        return false;
    }
    let mut i: usize = 0;
    while i < a.labels.len()
        invariant
            i <= a.labels@.len(),
            a.labels@.len() == b.labels@.len(),
            forall|k: int| 0 <= k < i ==> #[trigger] a@[k] == b@[k],
        decreases a.labels.len() - i,
    {
        assert(a@[i as int] == a.labels@[i as int]@ && b@[i as int] == b.labels@[i as int]@);
        let x = &a.labels[i];
        let y = &b.labels[i];
        if x.len() != y.len() {
            assert(a@[i as int] != b@[i as int]);
            return false;
        }
        let mut j: usize = 0;
        while j < x.len()
            invariant
                j <= x@.len(),
                x@.len() == y@.len(),
                i < a.labels@.len(),
                a.labels@.len() == b.labels@.len(),
                a@[i as int] == x@,
                b@[i as int] == y@,
                forall|m: int| 0 <= m < j ==> x@[m] == y@[m],
            decreases x.len() - j,
        {
            if x[j] != y[j] {
                assert(x@[j as int] != y@[j as int]);
                assert(a@[i as int] != b@[i as int]);
                return false;
            }
            j = j + 1;
        }
        assert(x@ =~= y@);
        i = i + 1;
    }
    assert(a@ =~= b@);
    true
}

/// Whether two errors are the same failure (see [`same_failure`]).
pub fn is_same_failure(a: &LookupError, b: &LookupError) -> (r: bool)
    ensures
        r == same_failure(*a, *b),
{
    match (a, b) {
        (LookupError::NameExists, LookupError::NameExists) => true,
        (LookupError::ResponseCode(x), LookupError::ResponseCode(y)) => *x == *y,
        (LookupError::Io(x), LookupError::Io(y)) => crate::text::str_eq(x.as_str(), y.as_str()),
        (LookupError::Proto(x), LookupError::Proto(y)) => match (&x.kind, &y.kind) {
            (ProtoErrorKind::NoRecordsFound(n), ProtoErrorKind::NoRecordsFound(m)) =>
                names_equal(&n.query.name, &m.query.name) && n.query.query_type == m.query.query_type
                    && n.query.query_class == m.query.query_class && n.response_code == m.response_code,
            (ProtoErrorKind::NoConnections, ProtoErrorKind::NoConnections) => true,
            (ProtoErrorKind::Timeout, ProtoErrorKind::Timeout) => true,
            (ProtoErrorKind::Busy, ProtoErrorKind::Busy) => true,
            (ProtoErrorKind::Msg(s), ProtoErrorKind::Msg(t)) => crate::text::str_eq(s.as_str(), t.as_str()),
            _ => false,
        },
        _ => false,
    }
}

/// One result in the fastest-response strategy: a NOERROR answer, or the
/// last result, is the answer; an error repeated twice in a row ends the
/// wait; otherwise an error is remembered and the wait goes on.
pub fn fastest_response_step(res: Result<DnsResponse, LookupError>, rest_empty: bool,
    last_error: &mut Option<LookupError>) -> (r: Option<Result<DnsResponse, LookupError>>)
    ensures
        match res {
            Ok(resp) => if resp.spec_message().header.response_code == ResponseCode::NoError || rest_empty {
                r == Some(res) && *final(last_error) == *old(last_error)
            } else {
                r is None && *final(last_error) == *old(last_error)
            },
            Err(e) => if rest_empty {
                r == Some(res) && *final(last_error) == *old(last_error)
            } else if *old(last_error) matches Some(p) && same_failure(p, e) {
                r == Some(res) && *final(last_error) == *old(last_error)
            } else {
                r is None && *final(last_error) == Some(e)
            },
        },
{
    match &res {
        Ok(resp) => {
            match resp.response_code() {
                ResponseCode::NoError => {
                    return Some(res);
                },
                _ => {},
            }
        },
        Err(_) => {},
    }
    if rest_empty {
        return Some(res);
    }
    match res {
        Ok(_) => None,
        Err(err) => {
            let repeated = match last_error {
                Some(p) => is_same_failure(p, &err),
                None => false,
            };
            if repeated {
                Some(Err(err))
            } else {
                *last_error = Some(err);
                None
            }
        },
    }
}

// ---------------------------------------------------------------------------
// Counting addresses and choosing the selected one

/// Address counts after seeing `ips`: a new address is appended with count
/// one, a known one counts one more.
pub open spec fn count_step(stats: Seq<(IpAddress, usize)>, ip: IpAddress) -> Seq<(IpAddress, usize)> {
    if exists|j: int| 0 <= j < stats.len() && #[trigger] stats[j].0 == ip {
        let j = choose|j: int| 0 <= j < stats.len() && #[trigger] stats[j].0 == ip;
        stats.update(j, (ip, if stats[j].1 == usize::MAX { 0 } else { (stats[j].1 + 1) as usize }))
    } else {
        stats.push((ip, 1))
    }
}

pub open spec fn count_all(stats: Seq<(IpAddress, usize)>, ips: Seq<IpAddress>) -> Seq<(IpAddress, usize)>
    decreases ips.len(),
{
    if ips.len() == 0 {
        stats
    } else {
        count_step(count_all(stats, ips.drop_last()), ips.last())
    }
}

/// The addresses not yet counted, in order of first appearance.
pub open spec fn fresh_all(stats: Seq<(IpAddress, usize)>, ips: Seq<IpAddress>) -> Seq<IpAddress>
    decreases ips.len(),
{
    if ips.len() == 0 {
        Seq::empty()
    } else {
        let before = count_all(stats, ips.drop_last());
        let rest = fresh_all(stats, ips.drop_last());
        if exists|j: int| 0 <= j < before.len() && #[trigger] before[j].0 == ips.last() {
            rest
        } else {
            rest.push(ips.last())
        }
    }
}

/// No address is counted twice.
pub open spec fn distinct_ips(stats: Seq<(IpAddress, usize)>) -> bool {
    forall|a: int, b: int| 0 <= a < b < stats.len() ==> #[trigger] stats[a].0 != #[trigger] stats[b].0
}

/// Where `ip` is counted, if it is.
fn find_counted(stats: &Vec<(IpAddress, usize)>, ip: &IpAddress) -> (r: Option<usize>)
    ensures
        r matches Some(j) ==> j < stats@.len() && stats@[j as int].0 == *ip,
        r is None ==> forall|m: int| 0 <= m < stats@.len() ==> #[trigger] stats@[m].0 != *ip,
{
    let mut j: usize = 0;
    while j < stats.len()
        invariant
            j <= stats@.len(),
            forall|m: int| 0 <= m < j ==> #[trigger] stats@[m].0 != *ip,
        decreases stats.len() - j,
    {
        if stats[j].0.same(ip) {
            return Some(j);
        }
        j = j + 1;
    }
    None
}

/// Where the first record holding `ip` is, if any.
fn find_ip_record(rs: &Vec<Record>, ip: &IpAddress) -> (r: Option<usize>)
    ensures
        r matches Some(j) ==> j < rs@.len() && rdata_ip(rs@[j as int]@.data) == Some(*ip)
            && forall|k: int| 0 <= k < j ==> rdata_ip((#[trigger] rs@[k])@.data) != Some(*ip),
        r is None ==> forall|k: int| 0 <= k < rs@.len() ==> rdata_ip((#[trigger] rs@[k])@.data) != Some(*ip),
{
    let mut j: usize = 0;
    while j < rs.len()
        invariant
            j <= rs@.len(),
            forall|k: int| 0 <= k < j ==> rdata_ip((#[trigger] rs@[k])@.data) != Some(*ip),
        decreases rs.len() - j,
    {
        let found = match record_ip(&rs[j]) {
            Some(x) => x.same(ip),
            None => false,
        };
        if found {
            return Some(j);
        }
        j = j + 1;
    }
    None
}

/// Counts `ips` into `stats`; gives the addresses seen for the first time
/// (those to start a probe for).
pub fn count_ips(stats: &mut Vec<(IpAddress, usize)>, ips: &Vec<IpAddress>) -> (fresh: Vec<IpAddress>)
    requires
        distinct_ips(old(stats)@),
    ensures
        distinct_ips(final(stats)@),
        final(stats)@ == count_all(old(stats)@, ips@),
        fresh@ == fresh_all(old(stats)@, ips@),
{
    let mut fresh: Vec<IpAddress> = Vec::new();
    let mut i: usize = 0;
    assert(ips@.take(0) =~= Seq::<IpAddress>::empty());
    while i < ips.len()
        invariant
            i <= ips@.len(),
            distinct_ips(stats@),
            stats@ == count_all(old(stats)@, ips@.take(i as int)),
            fresh@ == fresh_all(old(stats)@, ips@.take(i as int)),
        decreases ips.len() - i,
    {
        let ip = ips[i];
        proof {
            let t = ips@.take(i + 1);
            assert(t.drop_last() =~= ips@.take(i as int));
            assert(t.last() == ip);
        }
        let ghost before = stats@;
        let pos = find_counted(stats, &ip);
        let found = pos.is_some();
        let j: usize = match pos {
            Some(x) => x,
            None => 0,
        };
        if found {
            assert(stats@[j as int].0 == ip);
            proof {
                let c = choose|c: int| 0 <= c < before.len() && #[trigger] before[c].0 == ip;
                if c != j {
                    if c < j {
                        assert(before[c].0 != before[j as int].0);
                    } else {
                        assert(before[j as int].0 != before[c].0);
                    }
                }
            }
            let n = stats[j].1;
            let v = if n == usize::MAX { 0 } else { n + 1 };
            stats.set(j, (ip, v));
            assert forall|a: int, b: int| 0 <= a < b < stats@.len() implies #[trigger] stats@[a].0 != #[trigger] stats@[b].0 by {
                assert(stats@[a].0 == before[a].0);
                assert(stats@[b].0 == before[b].0);
            }
        } else {
            stats.push((ip, 1));
            fresh.push(ip);
            assert forall|a: int, b: int| 0 <= a < b < stats@.len() implies #[trigger] stats@[a].0 != #[trigger] stats@[b].0 by {
                if b == before.len() {
                    assert(stats@[a] == before[a]);
                } else {
                    assert(stats@[a] == before[a] && stats@[b] == before[b]);
                }
            }
        }
        i = i + 1;
    }
    assert(ips@.take(ips@.len() as int) =~= ips@);
    fresh
}

/// An address with the largest count, if any was counted.
pub fn most_common(stats: &Vec<(IpAddress, usize)>) -> (r: Option<IpAddress>)
    ensures
        r is None <==> stats@.len() == 0,
        r matches Some(ip) ==> exists|j: int| 0 <= j < stats@.len() && #[trigger] stats@[j].0 == ip
            && forall|k: int| 0 <= k < stats@.len() ==> #[trigger] stats@[k].1 <= stats@[j].1,
{
    if stats.len() == 0 {
        return None;
    }
    let mut best: usize = 0;
    let mut i: usize = 1;
    while i < stats.len()
        invariant
            1 <= i <= stats@.len(),
            best < stats@.len(),
            forall|k: int| 0 <= k < i ==> #[trigger] stats@[k].1 <= stats@[best as int].1,
        decreases stats.len() - i,
    {
        if stats[i].1 > stats[best].1 {
            best = i;
        }
        i = i + 1;
    }
    assert(stats@[best as int].0 == stats@[best as int].0);
    Some(stats[best].0)
}

/// Keeps the faster of the current fastest probe and a new one.
pub fn keep_fastest(fastest: &mut Option<(IpAddress, u64)>, ip: IpAddress, elapsed: u64)
    ensures
        *final(fastest) == (match *old(fastest) {
            Some(t) => if elapsed < t.1 { Some((ip, elapsed)) } else { Some(t) },
            None => Some((ip, elapsed)),
        }),
{
    let replace = match fastest {
        Some(t) => elapsed < t.1,
        None => true,
    };
    if replace {
        *fastest = Some((ip, elapsed));
    }
}

/// The index of the first record holding `ip`.
pub open spec fn first_ip_record(rs: Seq<RecordV>, ip: IpAddress) -> Option<int>
    decreases rs.len(),
{
    if rs.len() == 0 {
        None
    } else if rdata_ip(rs[0].data) == Some(ip) {
        Some(0)
    } else {
        match first_ip_record(rs.drop_first(), ip) {
            Some(j) => Some(j + 1),
            None => None,
        }
    }
}

/// The index of the first answer holding `ip` among several.
pub open spec fn first_answer_with(ms: Seq<DnsResponse>, ip: IpAddress) -> Option<int>
    decreases ms.len(),
{
    if ms.len() == 0 {
        None
    } else if first_ip_record(ms[0].spec_message().answers, ip) is Some {
        Some(0)
    } else {
        match first_answer_with(ms.drop_first(), ip) {
            Some(j) => Some(j + 1),
            None => None,
        }
    }
}

proof fn lemma_first_ip_record(rs: Seq<RecordV>, ip: IpAddress)
    ensures
        first_ip_record(rs, ip) matches Some(j) ==> 0 <= j < rs.len() && rdata_ip(rs[j].data) == Some(ip)
            && forall|k: int| 0 <= k < j ==> rdata_ip(#[trigger] rs[k].data) != Some(ip),
        first_ip_record(rs, ip) is None ==> forall|k: int| 0 <= k < rs.len() ==> rdata_ip(#[trigger] rs[k].data) != Some(ip),
    decreases rs.len(),
{
    if rs.len() > 0 {
        lemma_first_ip_record(rs.drop_first(), ip);
        assert forall|k: int| 1 <= k < rs.len() implies #[trigger] rs[k] == rs.drop_first()[k - 1] by {}
    }
}

proof fn lemma_first_answer_with(ms: Seq<DnsResponse>, ip: IpAddress)
    ensures
        first_answer_with(ms, ip) matches Some(j) ==> 0 <= j < ms.len()
            && first_ip_record(ms[j].spec_message().answers, ip) is Some
            && forall|k: int| 0 <= k < j ==> first_ip_record((#[trigger] ms[k]).spec_message().answers, ip) is None,
        first_answer_with(ms, ip) is None ==> forall|k: int| 0 <= k < ms.len()
            ==> first_ip_record((#[trigger] ms[k]).spec_message().answers, ip) is None,
    decreases ms.len(),
{
    if ms.len() > 0 {
        lemma_first_answer_with(ms.drop_first(), ip);
        assert forall|k: int| 1 <= k < ms.len() implies #[trigger] ms[k] == ms.drop_first()[k - 1] by {}
    }
}

/// The answer for the selected address: the first answer holding it, with
/// its answer section reduced to the first record holding it. Without a
/// selected address, the first answer, else the first error.
pub open spec fn selected_result(selected: Option<IpAddress>, ok: Seq<DnsResponse>, errs: Seq<LookupError>,
    r: Result<DnsResponse, LookupError>) -> bool {
    match selected {
        Some(ip) => {
            let i = first_answer_with(ok, ip)->0;
            let m = ok[i].spec_message();
            let j = first_ip_record(m.answers, ip)->0;
            r matches Ok(res) && res.spec_message() == (MessageV { answers: seq![m.answers[j]], ..m })
                && res.spec_group() == ok[i].spec_group()
        },
        None => if ok.len() > 0 {
            r == Ok::<DnsResponse, LookupError>(ok[0])
        } else {
            r == Err::<DnsResponse, LookupError>(errs[0])
        },
    }
}

/// The address held by the record, if any (see [`rdata_ip`]).
fn record_ip(r: &Record) -> (ip: Option<IpAddress>)
    ensures
        ip == rdata_ip(r@.data),
{
    r.data.ip_addr()
}

/// Where the answer for `ip` is: the first answer holding it and its first
/// record holding it.
fn locate(ok: &Vec<DnsResponse>, ip: &IpAddress) -> (r: (usize, usize))
    requires
        first_answer_with(ok@, *ip) is Some,
    ensures
        r.0 == first_answer_with(ok@, *ip)->0,
        r.0 < ok@.len(),
        first_ip_record(ok@[r.0 as int].spec_message().answers, *ip) == Some(r.1 as int),
        r.1 < ok@[r.0 as int].spec_message().answers.len(),
{
    proof {
        lemma_first_answer_with(ok@, *ip);
    }
    let mut i: usize = 0;
    while i < ok.len()
        invariant
            i <= ok@.len(),
            first_answer_with(ok@, *ip) is Some,
            i <= first_answer_with(ok@, *ip)->0,
            forall|k: int| 0 <= k < first_answer_with(ok@, *ip)->0
                ==> first_ip_record((#[trigger] ok@[k]).spec_message().answers, *ip) is None,
            first_answer_with(ok@, *ip)->0 < ok@.len(),
            first_ip_record(ok@[first_answer_with(ok@, *ip)->0].spec_message().answers, *ip) is Some,
        decreases ok.len() - i,
    {
        let m = ok[i].message();
        let ghost rs = m@.answers;
        proof {
            lemma_first_ip_record(rs, *ip);
        }
        match find_ip_record(&m.answers, ip) {
            Some(j) => {
                assert(rs[j as int] == m.answers@[j as int]@);
                assert forall|k: int| 0 <= k < j implies rdata_ip(#[trigger] rs[k].data) != Some(*ip) by {
                    assert(rs[k] == m.answers@[k]@);
                }
                assert(first_ip_record(rs, *ip) == Some(j as int));
                return (i, j);
            },
            None => {
                assert forall|k: int| 0 <= k < rs.len() implies rdata_ip(#[trigger] rs[k].data) != Some(*ip) by {
                    assert(rs[k] == m.answers@[k]@);
                }
                assert(first_ip_record(rs, *ip) is None);
            },
        }
        i = i + 1;
    }
    proof {
        assert(false);
    }
    (0, 0)
}

/// Chooses the answer once the selected address is known (see
/// [`selected_result`]).
pub fn select_answer(selected: Option<IpAddress>, ok: Vec<DnsResponse>, errs: Vec<LookupError>)
    -> (r: Result<DnsResponse, LookupError>)
    requires
        selected matches Some(ip) ==> first_answer_with(ok@, ip) is Some,
        selected is None ==> ok@.len() > 0 || errs@.len() > 0,
    ensures
        selected_result(selected, ok@, errs@, r),
{
    match selected {
        Some(ip) => {
            let (i, j) = locate(&ok, &ip);
            let m = ok[i].message();
            let rec = m.answers[j].clone();
            let mut msg = m.clone();
            let mut only: Vec<Record> = Vec::new();
            only.push(rec);
            assert(record_views(only@) =~= seq![m@.answers[j as int]]);
            msg.answers = only;
            let ghost oks = ok@;
            let mut ok = ok;
            let mut res = ok.swap_remove(i);
            assert(res == oks[i as int]);
            res.set_message(msg);
            assert(res.spec_message() =~= (MessageV { answers: seq![m@.answers[j as int]], ..oks[i as int].spec_message() }));
            Ok(res)
        },
        None => {
            let mut ok = ok;
            let mut errs = errs;
            if ok.len() > 0 {
                Ok(ok.swap_remove(0))
            } else {
                Err(errs.swap_remove(0))
            }
        },
    }
}

/// What the first-ping strategy does with an answer.
pub enum FirstPingStep {
    /// An answer with a single address is the answer.
    Answer(DnsResponse),
    /// Probe these addresses of the answer.
    Probe(Vec<IpAddress>),
    /// Nothing to probe; wait for more.
    Wait,
}

/// The first-ping strategy receives an answer: one with a single address is
/// taken at once; otherwise it is kept, and its addresses (if any) probed.
pub fn first_ping_on_answer(ok: &mut Vec<DnsResponse>, lookup: DnsResponse) -> (r: FirstPingStep)
    ensures
        seq_ips(lookup.spec_message().answers).len() == 1 ==> r == FirstPingStep::Answer(lookup)
            && final(ok)@ == old(ok)@,
        seq_ips(lookup.spec_message().answers).len() != 1 ==> final(ok)@ == old(ok)@.push(lookup) && (
            if seq_ips(lookup.spec_message().answers).len() == 0 {
                r is Wait
            } else {
                r matches FirstPingStep::Probe(ips) && ips@ == seq_ips(lookup.spec_message().answers)
            }),
{
    let ips = lookup.ip_addrs();
    if ips.len() == 1 {
        return FirstPingStep::Answer(lookup);
    }
    ok.push(lookup);
    if ips.len() == 0 {
        FirstPingStep::Wait
    } else {
        FirstPingStep::Probe(ips)
    }
}

/// The addresses of the answers, in order.
pub open spec fn all_ips(ok: Seq<DnsResponse>) -> Seq<IpAddress>
    decreases ok.len(),
{
    if ok.len() == 0 {
        Seq::empty()
    } else {
        all_ips(ok.drop_last()) + seq_ips(ok.last().spec_message().answers)
    }
}

/// Without a probe result, the first-ping strategy selects the address
/// given by the most answers.
pub fn first_ping_fallback(ok: &Vec<DnsResponse>) -> (r: Option<IpAddress>)
    ensures
        r is None <==> all_ips(ok@).len() == 0,
        r matches Some(ip) ==> exists|j: int| 0 <= j < count_all(Seq::empty(), all_ips(ok@)).len()
            && #[trigger] count_all(Seq::empty(), all_ips(ok@))[j].0 == ip
            && forall|k: int| 0 <= k < count_all(Seq::empty(), all_ips(ok@)).len()
                ==> #[trigger] count_all(Seq::empty(), all_ips(ok@))[k].1
                    <= count_all(Seq::empty(), all_ips(ok@))[j].1,
{
    let mut stats: Vec<(IpAddress, usize)> = Vec::new();
    let ghost mut seen: Seq<IpAddress> = Seq::empty();
    let mut i: usize = 0;
    assert(ok@.take(0) =~= Seq::<DnsResponse>::empty());
    while i < ok.len()
        invariant
            i <= ok@.len(),
            distinct_ips(stats@),
            seen == all_ips(ok@.take(i as int)),
            stats@ == count_all(Seq::empty(), seen),
        decreases ok.len() - i,
    {
        let ips = ok[i].ip_addrs();
        proof {
            let t = ok@.take(i + 1);
            assert(t.drop_last() =~= ok@.take(i as int));
            lemma_count_concat(Seq::empty(), seen, ips@);
        }
        let _ = count_ips(&mut stats, &ips);
        proof {
            seen = seen + ips@;
        }
        i = i + 1;
    }
    assert(ok@.take(ok@.len() as int) =~= ok@);
    proof {
        lemma_count_len(Seq::empty(), seen);
    }
    most_common(&stats)
}

proof fn lemma_count_concat(stats: Seq<(IpAddress, usize)>, a: Seq<IpAddress>, b: Seq<IpAddress>)
    ensures
        count_all(stats, a + b) == count_all(count_all(stats, a), b),
    decreases b.len(),
{
    if b.len() == 0 {
        assert(a + b =~= a);
    } else {
        lemma_count_concat(stats, a, b.drop_last());
        assert((a + b).drop_last() =~= a + b.drop_last());
        assert((a + b).last() == b.last());
    }
}

proof fn lemma_count_len(stats: Seq<(IpAddress, usize)>, ips: Seq<IpAddress>)
    ensures
        count_all(stats, ips).len() == 0 <==> (stats.len() == 0 && ips.len() == 0),
    decreases ips.len(),
{
    if ips.len() > 0 {
        lemma_count_len(stats, ips.drop_last());
    }
}

} // verus!
