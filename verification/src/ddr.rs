//! Discovery of designated resolvers: the SVCB answers under
//! `_dns.resolver.arpa` (and `_dns.<server name>`) that advertise the
//! encrypted listeners marked for discovery, and the addresses of their
//! server names.
use vstd::prelude::*;
use crate::cache::{name_key, same_name};
use crate::codec::{enc_name, labels_ok, emit_name};
use crate::dns_error::{DefaultSOA, default_soa_view};
use crate::message::{Name, Query, QueryV, Record, RecordV, RData, RDataV, RecordType, MessageV, copy_records,
    record_views};
use crate::net::IpAddress;
use crate::octets::{be16, push_be16, extend_bytes};
use crate::response::{DnsResponse, answer_message};

verus! {

/// The transport of a listener.
#[derive(Clone, Copy, Debug, PartialEq, Eq, Structural)]
pub enum ListenerKind {
    Udp,
    Tcp,
    Tls,
    Https,
    Quic,
    H3,
}

/// What discovery reads of a listener: its transport, whether it is
/// enabled and marked `-ddr`, its address and port, and the server name of
/// its certificate settings when one is given.
#[derive(Debug)]
pub struct Listener {
    pub kind: ListenerKind,
    pub enabled: bool,
    pub ddr: bool,
    pub ip: IpAddress,
    pub port: u16,
    pub server_name: Option<Name>,
}

pub struct ListenerV {
    pub kind: ListenerKind,
    pub enabled: bool,
    pub ddr: bool,
    pub ip: IpAddress,
    pub port: u16,
    pub server_name: Option<Seq<Seq<u8>>>,
}

impl View for Listener {
    type V = ListenerV;

    open spec fn view(&self) -> ListenerV {
        ListenerV {
            kind: self.kind,
            enabled: self.enabled,
            ddr: self.ddr,
            ip: self.ip,
            port: self.port,
            server_name: match self.server_name {
                Some(n) => Some(n@),
                None => None,
            },
        }
    }
}

pub open spec fn listener_views(ls: Seq<Listener>) -> Seq<ListenerV> {
    ls.map_values(|l: Listener| l@)
}

/// The label `_dns`.
pub open spec fn dns_label() -> Seq<u8> {
    seq![95u8, 100, 110, 115]
}

/// The reserved zone `resolver.arpa`.
pub open spec fn reserved_zone() -> Seq<Seq<u8>> {
    seq![seq![114u8, 101, 115, 111, 108, 118, 101, 114], seq![97u8, 114, 112, 97]]
}

/// The discovery name `_dns.resolver.arpa`.
pub open spec fn discovery_name() -> Seq<Seq<u8>> {
    seq![dns_label()] + reserved_zone()
}

/// The path template of DNS over HTTPS, `/dns-query{?dns}`.
pub open spec fn doh_path() -> Seq<u8> {
    seq![47u8, 100, 110, 115, 45, 113, 117, 101, 114, 121, 123, 63, 100, 110, 115, 125]
}

/// Whether `n` is `zone` or a name below it, without regard to case.
pub open spec fn in_zone(zone: Seq<Seq<u8>>, n: Seq<Seq<u8>>) -> bool {
    n.len() >= zone.len() && name_key(n.skip(n.len() - zone.len())) == name_key(zone)
}

/// The protocol identifier advertised for a transport, and whether it is
/// HTTP (which also advertises the query path); none for plain DNS.
pub open spec fn alpn_of(k: ListenerKind) -> Option<(Seq<u8>, bool)> {
    match k {
        ListenerKind::Tls => Some((seq![100u8, 111, 116], false)),
        ListenerKind::Https => Some((seq![104u8, 50], true)),
        ListenerKind::Quic => Some((seq![100u8, 111, 113], false)),
        ListenerKind::H3 => Some((seq![104u8, 51], true)),
        _ => None,
    }
}

/// Whether every byte of an address is zero.
pub open spec fn is_unspecified(ip: IpAddress) -> bool {
    forall|i: int| 0 <= i < ip.octet_seq().len() ==> #[trigger] ip.octet_seq()[i] == 0
}

/// The A or AAAA data of an address.
pub open spec fn ip_data(ip: IpAddress) -> RDataV {
    match ip {
        IpAddress::V4(a) => RDataV::A(a),
        IpAddress::V6(a) => RDataV::AAAA(a),
    }
}

/// The hint parameter of an address: key 4 with the IPv4 address, or key 6
/// with the IPv6 address.
pub open spec fn hint_param(ip: Option<IpAddress>) -> Seq<u8> {
    match ip {
        None => Seq::empty(),
        Some(IpAddress::V4(a)) => be16(4) + be16(4) + a@,
        Some(IpAddress::V6(a)) => be16(6) + be16(16) + a@,
    }
}

/// The SVCB data: priority, target, then the parameters in key order:
/// alpn (1), port (3), the address hint, and for HTTP the query path (7).
pub open spec fn svcb_data(priority: u16, target: Seq<Seq<u8>>, alpn: Seq<u8>, port: u16,
    hint: Option<IpAddress>, https: bool) -> Seq<u8> {
    be16(priority) + enc_name(target) + be16(1) + be16((alpn.len() + 1) as u16) + seq![alpn.len() as u8] + alpn
        + be16(3) + be16(2) + be16(port) + hint_param(hint) + if https {
        be16(7) + be16(16) + doh_path()
    } else {
        Seq::empty()
    }
}

/// What discovery knows besides the listeners: the configured server name,
/// the question, the local address towards the client (for listeners bound
/// to the unspecified address) and the TTL of local answers.
pub struct DdrEnv {
    pub server_name: Seq<Seq<u8>>,
    pub query: QueryV,
    pub local_ip: Option<IpAddress>,
    pub ttl: u32,
}

/// The answer built so far: answers, additional records, the priority of
/// the next SVCB record, and whether some listener matched the question.
pub struct DdrAcc {
    pub answers: Seq<RecordV>,
    pub additionals: Seq<RecordV>,
    pub priority: int,
    pub matched: bool,
}

/// The server name a listener is reached by.
pub open spec fn target_of(l: ListenerV, server_name: Seq<Seq<u8>>) -> Seq<Seq<u8>> {
    match l.server_name {
        Some(n) => n,
        None => server_name,
    }
}

/// Whether two records are the same record: the same name without regard
/// to case, class and data.
pub open spec fn same_record(a: RecordV, b: RecordV) -> bool {
    name_key(a.name) == name_key(b.name) && a.dns_class == b.dns_class && a.data == b.data
}

pub open spec fn has_record(rs: Seq<RecordV>, r: RecordV) -> bool {
    exists|i: int| 0 <= i < rs.len() && same_record(#[trigger] rs[i], r)
}

/// Whether the question asks for the discovery records of `target`.
pub open spec fn asks_svcb(q: QueryV, target: Seq<Seq<u8>>) -> bool {
    q.query_type == RecordType::SVCB && (name_key(q.name) == name_key(discovery_name()) || name_key(q.name)
        == name_key(seq![dns_label()] + target))
}

/// Whether the question asks for the address of `target`.
pub open spec fn asks_address(q: QueryV, target: Seq<Seq<u8>>) -> bool {
    name_key(q.name) == name_key(target) && q.query_type.spec_is_ip_addr()
}

/// One listener's part of the answer. Listeners that are disabled, not
/// marked for discovery, plain DNS, or reached by the root or a name in
/// `resolver.arpa` add nothing; nor do those whose name the question does
/// not ask about. A question for the server name's address gets the
/// listener's address when its family matches (once); a question for the
/// discovery records gets an SVCB record with the next priority, and the
/// address as an additional record when it is known.
pub open spec fn ddr_step(acc: DdrAcc, l: ListenerV, env: DdrEnv) -> DdrAcc {
    let target = target_of(l, env.server_name);
    let q = env.query;
    if !(l.enabled && l.ddr) || alpn_of(l.kind) is None || target.len() == 0 || in_zone(reserved_zone(), target)
        || (!asks_svcb(q, target) && !asks_address(q, target)) {
        acc
    } else {
        let (alpn, https) = alpn_of(l.kind)->Some_0;
        let address = if is_unspecified(l.ip) { env.local_ip } else { Some(l.ip) };
        if asks_address(q, target) {
            match address {
                Some(ip) => {
                    let rec = RecordV { name: target, dns_class: 1, ttl: env.ttl, data: ip_data(ip) };
                    if ((ip is V4 && q.query_type == RecordType::A) || (ip is V6 && q.query_type
                        == RecordType::AAAA)) && !has_record(acc.answers, rec) {
                        DdrAcc { answers: acc.answers.push(rec), matched: true, ..acc }
                    } else {
                        DdrAcc { matched: true, ..acc }
                    }
                },
                None => DdrAcc { matched: true, ..acc },
            }
        } else {
            let svcb = RecordV {
                name: q.name,
                dns_class: 1,
                ttl: env.ttl,
                data: RDataV::Other(64, svcb_data(acc.priority as u16, target, alpn, l.port, address, https)),
            };
            DdrAcc {
                answers: acc.answers.push(svcb),
                additionals: match address {
                    Some(ip) => acc.additionals.push(
                        RecordV { name: target, dns_class: 1, ttl: env.ttl, data: ip_data(ip) },
                    ),
                    None => acc.additionals,
                },
                priority: acc.priority + 1,
                matched: true,
            }
        }
    }
}

/// The answer after the listeners in order.
pub open spec fn ddr_fold(ls: Seq<ListenerV>, env: DdrEnv) -> DdrAcc
    decreases ls.len(),
{
    if ls.len() == 0 {
        DdrAcc { answers: Seq::empty(), additionals: Seq::empty(), priority: 1, matched: false }
    } else {
        ddr_step(ddr_fold(ls.drop_last(), env), ls.last(), env)
    }
}

/// The discovery answer to a question: none when the question is outside
/// `resolver.arpa` and no listener matched it; else the answers and
/// additional records of the listeners, with an SOA record for the
/// question's name as authority when there is no answer.
pub open spec fn spec_ddr(ls: Seq<ListenerV>, env: DdrEnv) -> Option<MessageV> {
    let acc = ddr_fold(ls, env);
    if !in_zone(reserved_zone(), env.query.name) && !acc.matched {
        None
    } else {
        Some(
            MessageV {
                authorities: if acc.answers.len() == 0 {
                    seq![
                        RecordV {
                            name: env.query.name,
                            dns_class: 1,
                            ttl: env.ttl,
                            data: RDataV::SOA(default_soa_view()),
                        },
                    ]
                } else {
                    Seq::empty()
                },
                additionals: acc.additionals,
                ..answer_message(env.query, acc.answers)
            },
        )
    }
}

pub open spec fn env_of(server_name: Seq<Seq<u8>>, query: QueryV, local_ip: Option<IpAddress>, ttl: u32) -> DdrEnv {
    DdrEnv { server_name, query, local_ip, ttl }
}

pub open spec fn acc_of(answers: Seq<Record>, additionals: Seq<Record>, priority: u16, matched: bool) -> DdrAcc {
    DdrAcc {
        answers: record_views(answers),
        additionals: record_views(additionals),
        priority: priority as int,
        matched,
    }
}

fn name_of_labels(a: Vec<u8>, b: Vec<u8>) -> (r: Name)
    ensures
        r@ == seq![a@, b@],
{
    let ghost (x, y) = (a@, b@);
    let mut labels: Vec<Vec<u8>> = Vec::new();
    labels.push(a);
    labels.push(b);
    let r = Name { labels };
    assert(r@ =~= seq![x, y]);
    r
}

fn reserved_name() -> (r: Name)
    ensures
        r@ == reserved_zone(),
{
    let a: Vec<u8> = vec![114u8, 101, 115, 111, 108, 118, 101, 114];
    let b: Vec<u8> = vec![97u8, 114, 112, 97];
    assert(a@ =~= seq![114u8, 101, 115, 111, 108, 118, 101, 114]);
    assert(b@ =~= seq![97u8, 114, 112, 97]);
    name_of_labels(a, b)
}

fn dns_label_bytes() -> (r: Vec<u8>)
    ensures
        r@ == dns_label(),
{
    let r: Vec<u8> = vec![95u8, 100, 110, 115];
    assert(r@ =~= dns_label());
    r
}

/// The name `_dns` followed by the labels of `n`.
fn under_dns(n: &Name) -> (r: Name)
    ensures
        r@ == seq![dns_label()] + n@,
{
    let mut labels: Vec<Vec<u8>> = Vec::new();
    labels.push(dns_label_bytes());
    let mut i: usize = 0;
    while i < n.labels.len()
        invariant
            i <= n.labels@.len(),
            n@.len() == n.labels@.len(),
            labels@.len() == i + 1,
            labels@[0]@ == dns_label(),
            forall|j: int| 0 <= j < i ==> #[trigger] labels@[j + 1]@ == n@[j],
        decreases n.labels.len() - i,
    {
        labels.push(crate::message::copy_bytes(&n.labels[i]));
        i = i + 1;
    }
    let r = Name { labels };
    assert forall|j: int| 0 < j < r@.len() implies r@[j] == (seq![dns_label()] + n@)[j] by {
        assert(labels@[(j - 1) + 1]@ == n@[j - 1]);
    }
    assert(r@ =~= seq![dns_label()] + n@);
    r
}

/// The labels of `n` from index `k` on.
fn suffix_of(n: &Name, k: usize) -> (r: Name)
    requires
        k <= n@.len(),
    ensures
        r@ == n@.skip(k as int),
{
    let mut labels: Vec<Vec<u8>> = Vec::new();
    let mut i: usize = k;
    while i < n.labels.len()
        invariant
            k <= i <= n.labels@.len(),
            n@.len() == n.labels@.len(),
            labels@.len() == i - k,
            forall|j: int| 0 <= j < i - k ==> #[trigger] labels@[j]@ == n@[j + k],
        decreases n.labels.len() - i,
    {
        labels.push(crate::message::copy_bytes(&n.labels[i]));
        i = i + 1;
    }
    let r = Name { labels };
    assert(r@ =~= n@.skip(k as int));
    r
}

pub fn is_in_zone(zone: &Name, n: &Name) -> (r: bool)
    ensures
        r == in_zone(zone@, n@),
{
    if n.labels.len() < zone.labels.len() {
        return false;
    }
    let s = suffix_of(n, n.labels.len() - zone.labels.len());
    same_name(&s, zone)
}

pub(crate) fn unspecified(ip: &IpAddress) -> (r: bool)
    ensures
        r == is_unspecified(*ip),
{
    let o = ip.octets();
    let mut i: usize = 0;
    while i < o.len()
        invariant
            i <= o@.len(),
            o@ == ip.octet_seq(),
            forall|j: int| 0 <= j < i ==> #[trigger] o@[j] == 0,
        decreases o.len() - i,
    {
        if o[i] != 0 {
            assert(ip.octet_seq()[i as int] != 0);
            return false;
        }
        i = i + 1;
    }
    true
}

pub(crate) fn ip_rdata(ip: IpAddress) -> (r: RData)
    ensures
        r@ == ip_data(ip),
{
    match ip {
        IpAddress::V4(a) => RData::A(a),
        IpAddress::V6(a) => RData::AAAA(a),
    }
}

/// Whether `rs` holds the same address record as `rec`.
fn has_same_record(rs: &Vec<Record>, rec: &Record) -> (r: bool)
    requires
        rec@.data is A || rec@.data is AAAA,
    ensures
        r == has_record(record_views(rs@), rec@),
{
    let mut i: usize = 0;
    while i < rs.len()
        invariant
            i <= rs@.len(),
            rec@.data is A || rec@.data is AAAA,
            forall|j: int| 0 <= j < i ==> !same_record(#[trigger] record_views(rs@)[j], rec@),
        decreases rs.len() - i,
    {
        let x = &rs[i];
        assert(record_views(rs@)[i as int] == x@);
        let same_data = match (x.data.ip_addr(), rec.data.ip_addr()) {
            (Some(a), Some(b)) => a.same(&b),
            _ => false,
        };
        if same_name(&x.name, &rec.name) && x.dns_class == rec.dns_class && same_data {
            return true;
        }
        i = i + 1;
    }
    false
}

fn doh_path_bytes() -> (r: Vec<u8>)
    ensures
        r@ == doh_path(),
{
    let r: Vec<u8> = vec![47u8, 100, 110, 115, 45, 113, 117, 101, 114, 121, 123, 63, 100, 110, 115, 125];
    assert(r@ =~= doh_path());
    r
}

/// The SVCB data of one listener (see [`svcb_data`]).
pub fn svcb_bytes(priority: u16, target: &Name, alpn: &Vec<u8>, port: u16, hint: Option<IpAddress>,
    https: bool) -> (r: Vec<u8>)
    requires
        labels_ok(target@),
        alpn@.len() < 255,
    ensures
        r@ == svcb_data(priority, target@, alpn@, port, hint, https),
{
    let mut v: Vec<u8> = Vec::new();
    push_be16(&mut v, priority);
    emit_name(&mut v, target);
    push_be16(&mut v, 1);
    push_be16(&mut v, (alpn.len() + 1) as u16);
    v.push(alpn.len() as u8);
    extend_bytes(&mut v, alpn.as_slice());
    push_be16(&mut v, 3);
    push_be16(&mut v, 2);
    push_be16(&mut v, port);
    let ghost before_hint = v@;
    match hint {
        Some(IpAddress::V4(a)) => {
            push_be16(&mut v, 4);
            push_be16(&mut v, 4);
            extend_bytes(&mut v, &a);
        },
        Some(IpAddress::V6(a)) => {
            push_be16(&mut v, 6);
            push_be16(&mut v, 16);
            extend_bytes(&mut v, &a);
        },
        None => {},
    }
    assert(v@ =~= before_hint + hint_param(hint));
    let ghost before_path = v@;
    if https {
        push_be16(&mut v, 7);
        push_be16(&mut v, 16);
        let p = doh_path_bytes();
        extend_bytes(&mut v, p.as_slice());
    }
    assert(v@ =~= svcb_data(priority, target@, alpn@, port, hint, https));
    v
}

/// Adds one listener's part of the discovery answer (see [`ddr_step`]).
fn ddr_listener(l: &Listener, server_name: &Name, query: &Query, local_ip: Option<IpAddress>, ttl: u32,
    answers: &mut Vec<Record>, additionals: &mut Vec<Record>, priority: &mut u16, matched: &mut bool)
    requires
        labels_ok(server_name@),
        l@.server_name matches Some(n) ==> labels_ok(n),
        *old(priority) < u16::MAX,
    ensures
        acc_of(final(answers)@, final(additionals)@, *final(priority), *final(matched)) == ddr_step(
            acc_of(old(answers)@, old(additionals)@, *old(priority), *old(matched)),
            l@,
            env_of(server_name@, query@, local_ip, ttl),
        ),
{
    let ghost acc0 = acc_of(answers@, additionals@, *priority, *matched);
    let ghost env = env_of(server_name@, query@, local_ip, ttl);
    if !(l.enabled && l.ddr) {
        return;
    }
    let (alpn, https): (Vec<u8>, bool) = match l.kind {
        ListenerKind::Tls => (vec![100u8, 111, 116], false),
        ListenerKind::Https => (vec![104u8, 50], true),
        ListenerKind::Quic => (vec![100u8, 111, 113], false),
        ListenerKind::H3 => (vec![104u8, 51], true),
        _ => {
            return;
        },
    };
    assert(alpn@ =~= (alpn_of(l.kind)->Some_0).0);
    let target = match &l.server_name {
        Some(n) => n.clone(),
        None => server_name.clone(),
    };
    assert(target@ == target_of(l@, server_name@));
    if target.labels.len() == 0 {
        return;
    }
    let reserved = reserved_name();
    if is_in_zone(&reserved, &target) {
        return;
    }
    let disc = under_dns(&reserved);
    let named = under_dns(&target);
    let svcb_asked = query.query_type == RecordType::SVCB && (same_name(&query.name, &disc) || same_name(
        &query.name,
        &named,
    ));
    let address_asked = same_name(&query.name, &target) && query.query_type.is_ip_addr();
    assert(svcb_asked == asks_svcb(query@, target@));
    assert(address_asked == asks_address(query@, target@));
    if !svcb_asked && !address_asked {
        return;
    }
    *matched = true;
    let address = if unspecified(&l.ip) {
        local_ip
    } else {
        Some(l.ip)
    };
    if address_asked {
        match address {
            Some(ip) => {
                let family = (ip.is_ipv4() && query.query_type == RecordType::A) || (!ip.is_ipv4()
                    && query.query_type == RecordType::AAAA);
                if family {
                    let rec = Record::from_rdata(target, ttl, ip_rdata(ip));
                    if !has_same_record(answers, &rec) {
                        let ghost before = answers@;
                        answers.push(rec);
                        assert(record_views(answers@) =~= record_views(before).push(rec@));
                    }
                }
            },
            None => {},
        }
        return;
    }
    let data = svcb_bytes(*priority, &target, &alpn, l.port, address, https);
    let svcb = Record::from_rdata(query.name.clone(), ttl, RData::Other(64, data));
    let ghost before = answers@;
    answers.push(svcb);
    assert(record_views(answers@) =~= record_views(before).push(svcb@));
    match address {
        Some(ip) => {
            let extra = Record::from_rdata(target, ttl, ip_rdata(ip));
            let ghost before_extra = additionals@;
            additionals.push(extra);
            assert(record_views(additionals@) =~= record_views(before_extra).push(extra@));
        },
        None => {},
    }
    *priority = *priority + 1;
}

/// The discovery answer to `query` from the listeners (see [`spec_ddr`]):
/// `server_name` is the configured server name, `local_ip` the local
/// address towards the client, used for listeners bound to the unspecified
/// address, and `ttl` the TTL of local answers.
pub fn ddr_lookup(server_name: &Name, listeners: &Vec<Listener>, query: &Query, local_ip: Option<IpAddress>,
    ttl: u32) -> (r: Option<DnsResponse>)
    requires
        labels_ok(server_name@),
        forall|i: int| 0 <= i < listeners@.len() ==> ((#[trigger] listeners@[i])@.server_name matches Some(n)
            ==> labels_ok(n)),
        listeners@.len() < u16::MAX,
    ensures
        match spec_ddr(listener_views(listeners@), env_of(server_name@, query@, local_ip, ttl)) {
            None => r is None,
            Some(m) => r matches Some(res) && res.spec_message() == m,
        },
{
    let ghost lv = listener_views(listeners@);
    let ghost env = env_of(server_name@, query@, local_ip, ttl);
    let mut answers: Vec<Record> = Vec::new();
    let mut additionals: Vec<Record> = Vec::new();
    let mut priority: u16 = 1;
    let mut matched = false;
    let mut i: usize = 0;
    assert(record_views(answers@) =~= Seq::<RecordV>::empty());
    assert(record_views(additionals@) =~= Seq::<RecordV>::empty());
    assert(lv.take(0).len() == 0);
    assert(acc_of(answers@, additionals@, priority, matched) == ddr_fold(lv.take(0), env));
    while i < listeners.len()
        invariant
            i <= listeners@.len(),
            listeners@.len() < u16::MAX,
            lv == listener_views(listeners@),
            env == env_of(server_name@, query@, local_ip, ttl),
            labels_ok(server_name@),
            forall|k: int| 0 <= k < listeners@.len() ==> ((#[trigger] listeners@[k])@.server_name matches Some(n)
                ==> labels_ok(n)),
            priority <= i + 1,
            acc_of(answers@, additionals@, priority, matched) == ddr_fold(lv.take(i as int), env),
        decreases listeners.len() - i,
    {
        let l = &listeners[i];
        assert(listeners@[i as int] == *l);
        ddr_listener(l, server_name, query, local_ip, ttl, &mut answers, &mut additionals, &mut priority,
            &mut matched);
        assert(lv.take(i + 1).drop_last() =~= lv.take(i as int));
        assert(lv.take(i + 1).last() == l@);
        i = i + 1;
    }
    assert(lv.take(listeners@.len() as int) =~= lv);
    let reserved = reserved_name();
    if !is_in_zone(&reserved, &query.name) && !matched {
        return None;
    }
    let empty = answers.len() == 0;
    let mut res = DnsResponse::new_with_max_ttl(query.clone(), answers);
    let mut authorities: Vec<Record> = Vec::new();
    if empty {
        authorities.push(Record::from_rdata(query.name.clone(), ttl, RData::default_soa()));
    }
    let m0 = res.message();
    let m = crate::message::Message {
        header: m0.header,
        queries: crate::message::copy_queries(&m0.queries),
        answers: copy_records(&m0.answers),
        authorities,
        additionals,
        edns: None,
    };
    proof {
        let want = spec_ddr(lv, env)->Some_0;
        assert(m@.authorities =~= want.authorities);
        assert(m@ =~= want);
    }
    res.set_message(m);
    Some(res)
}

} // verus!
