//! Audit lines: one line of text per answered query, and which answers are
//! left out of the audit.
use vstd::prelude::*;
use vstd::string::StringSliceAdditionalSpecFns;
use crate::bench::decimal;
use crate::cache::{has_type, any_of_type};
use crate::dns_error::{LookupError, no_records_of, no_records_message};
use crate::doh::{name_text, rdata_text, push_name_text, push_rdata_text};
use crate::message::{MessageV, Query, Record, RecordType, RecordV, rdata_type, record_views};
use crate::octets::extend_bytes;
use crate::response::{DnsResponse, ProbeResult, seq_ips};

verus! {

/// An answer with no address and an SOA record among its answers or
/// authorities.
pub open spec fn soa_only(m: MessageV) -> bool {
    seq_ips(m.answers).len() == 0 && (has_type(m.answers, RecordType::SOA) || has_type(
        m.authorities,
        RecordType::SOA,
    ))
}

/// Whether a result is an SOA-only answer (a negative error counts as the
/// answer it carries).
pub open spec fn spec_is_soa_only(result: Result<DnsResponse, LookupError>, query: crate::message::QueryV) -> bool {
    match result {
        Ok(r) => soa_only(r.spec_message()),
        Err(e) => match no_records_of(e) {
            Some(n) => soa_only(no_records_message(query, n)),
            None => false,
        },
    }
}

fn message_soa_only(r: &DnsResponse) -> (b: bool)
    ensures
        b == soa_only(r.spec_message()),
{
    let m = r.message();
    r.ip_addrs().len() == 0 && (any_of_type(&m.answers, RecordType::SOA) || any_of_type(
        &m.authorities,
        RecordType::SOA,
    ))
}

/// Whether a result is left out of the audit unless SOA answers are
/// audited (see [`spec_is_soa_only`]).
pub fn is_soa_only(result: &Result<DnsResponse, LookupError>, query: &Query) -> (r: bool)
    ensures
        r == spec_is_soa_only(*result, query@),
{
    match result {
        Ok(response) => message_soa_only(response),
        Err(error) => match error.as_no_records_response(query) {
            Some(response) => message_soa_only(&response),
            None => false,
        },
    }
}

/// The speed an audit line reports (microseconds): the measured probe of
/// the answer, else the fastest probe of the request.
pub fn audit_speed(result: &Result<DnsResponse, LookupError>, fastest_speed: u64) -> (r: u64)
    ensures
        r == match *result {
            Ok(res) => match res.spec_probe() {
                ProbeResult::Measured(s) => s,
                _ => fastest_speed,
            },
            Err(_) => fastest_speed,
        },
{
    match result {
        Ok(res) => match res.probe_result() {
            ProbeResult::Measured(s) => s,
            _ => fastest_speed,
        },
        Err(_) => fastest_speed,
    }
}

/// The name of a record type as text.
pub open spec fn type_text(t: RecordType) -> Seq<u8> {
    match t {
        RecordType::A => seq![65u8],
        RecordType::NS => seq![78u8, 83u8],
        RecordType::CNAME => seq![67u8, 78u8, 65u8, 77u8, 69u8],
        RecordType::SOA => seq![83u8, 79u8, 65u8],
        RecordType::PTR => seq![80u8, 84u8, 82u8],
        RecordType::MX => seq![77u8, 88u8],
        RecordType::TXT => seq![84u8, 88u8, 84u8],
        RecordType::AAAA => seq![65u8, 65u8, 65u8, 65u8],
        RecordType::SRV => seq![83u8, 82u8, 86u8],
        RecordType::OPT => seq![79u8, 80u8, 84u8],
        RecordType::SVCB => seq![83u8, 86u8, 67u8, 66u8],
        RecordType::HTTPS => seq![72u8, 84u8, 84u8, 80u8, 83u8],
        RecordType::ANY => seq![65u8, 78u8, 89u8],
        RecordType::Unknown(_) => seq![85u8, 110u8, 107u8, 110u8, 111u8, 119u8, 110u8],
    }
}

fn push_type_text(v: &mut Vec<u8>, t: RecordType)
    ensures
        final(v)@ == old(v)@ + type_text(t),
{
    match t {
        RecordType::A => extend_bytes(v, &[65u8]),
        RecordType::NS => extend_bytes(v, &[78u8, 83u8]),
        RecordType::CNAME => extend_bytes(v, &[67u8, 78u8, 65u8, 77u8, 69u8]),
        RecordType::SOA => extend_bytes(v, &[83u8, 79u8, 65u8]),
        RecordType::PTR => extend_bytes(v, &[80u8, 84u8, 82u8]),
        RecordType::MX => extend_bytes(v, &[77u8, 88u8]),
        RecordType::TXT => extend_bytes(v, &[84u8, 88u8, 84u8]),
        RecordType::AAAA => extend_bytes(v, &[65u8, 65u8, 65u8, 65u8]),
        RecordType::SRV => extend_bytes(v, &[83u8, 82u8, 86u8]),
        RecordType::OPT => extend_bytes(v, &[79u8, 80u8, 84u8]),
        RecordType::SVCB => extend_bytes(v, &[83u8, 86u8, 67u8, 66u8]),
        RecordType::HTTPS => extend_bytes(v, &[72u8, 84u8, 84u8, 80u8, 83u8]),
        RecordType::ANY => extend_bytes(v, &[65u8, 78u8, 89u8]),
        RecordType::Unknown(_) => extend_bytes(v, &[85u8, 110u8, 107u8, 110u8, 111u8, 119u8, 110u8]),
    }
    assert(v@ =~= old(v)@ + type_text(t));
}

/// Appends the decimal digits of `n`.
pub fn push_u64(v: &mut Vec<u8>, n: u64)
    ensures
        final(v)@ == old(v)@ + decimal(n as nat),
    decreases n,
{
    if n >= 10 {
        push_u64(v, n / 10);
    }
    v.push((48 + n % 10) as u8);
}

/// The digits of a fraction `f` of `10 * d`, until nothing is left.
pub open spec fn frac_digits(f: nat, d: nat) -> Seq<u8>
    decreases d,
{
    if f == 0 || d == 0 {
        Seq::empty()
    } else {
        seq![(48 + f / d) as u8] + frac_digits(f % d, d / 10)
    }
}

/// A number with its fraction, as `Duration`'s `Debug` writes it.
pub open spec fn decimal_text(whole: nat, frac: nat, d: nat) -> Seq<u8> {
    decimal(whole) + if frac > 0 {
        seq![46u8] + frac_digits(frac, d)
    } else {
        Seq::empty()
    }
}

/// A time of `nanos` nanoseconds as `Duration`'s `Debug` writes it: in
/// seconds, milliseconds, microseconds or nanoseconds, with every digit of
/// the fraction.
pub open spec fn duration_text(nanos: nat) -> Seq<u8> {
    if nanos >= 1_000_000_000 {
        decimal_text(nanos / 1_000_000_000, nanos % 1_000_000_000, 100_000_000) + seq![115u8]
    } else if nanos >= 1_000_000 {
        decimal_text(nanos / 1_000_000, nanos % 1_000_000, 100_000) + seq![109u8, 115u8]
    } else if nanos >= 1000 {
        decimal_text(nanos / 1000, nanos % 1000, 100) + seq![0xc2u8, 0xb5u8, 115u8]
    } else {
        decimal(nanos) + seq![110u8, 115u8]
    }
}

/// One of 1, 10, 100, ...
pub open spec fn ten_power(d: nat) -> bool
    decreases d,
{
    if d <= 1 {
        d == 1
    } else {
        d % 10 == 0 && ten_power(d / 10)
    }
}

fn push_frac(v: &mut Vec<u8>, f: u64, d: u64)
    requires
        ten_power(d as nat),
        f < 10 * d,
    ensures
        final(v)@ == old(v)@ + frac_digits(f as nat, d as nat),
    decreases d,
{
    if f == 0 || d == 0 {
        return;
    }
    assert(f / d < 10) by (nonlinear_arith)
        requires
            f < 10 * d,
            d > 0,
    ;
    v.push((48 + f / d) as u8);
    if d == 1 {
        assert(f % d == 0);
        assert(frac_digits(0, 0) == Seq::<u8>::empty());
        assert(v@ =~= old(v)@ + frac_digits(f as nat, d as nat));
        return;
    }
    assert(f % d < 10 * (d / 10)) by (nonlinear_arith)
        requires
            d % 10 == 0,
            d > 0,
    {
        assert(f % d < d);
    }
    push_frac(v, f % d, d / 10);
    assert(v@ =~= old(v)@ + frac_digits(f as nat, d as nat));
}

fn push_decimal_text(v: &mut Vec<u8>, whole: u64, frac: u64, d: u64)
    requires
        ten_power(d as nat),
        frac < 10 * d,
    ensures
        final(v)@ == old(v)@ + decimal_text(whole as nat, frac as nat, d as nat),
{
    push_u64(v, whole);
    if frac > 0 {
        let ghost mid = v@;
        v.push(46);
        push_frac(v, frac, d);
        assert(v@ =~= old(v)@ + decimal_text(whole as nat, frac as nat, d as nat));
    } else {
        assert(v@ =~= old(v)@ + decimal_text(whole as nat, frac as nat, d as nat));
    }
}

/// Appends the text of a time in nanoseconds.
pub fn push_duration(v: &mut Vec<u8>, nanos: u64)
    ensures
        final(v)@ == old(v)@ + duration_text(nanos as nat),
{
    let ghost start = v@;
    assert(ten_power(100_000_000) && ten_power(100_000) && ten_power(100)) by {
        reveal_with_fuel(ten_power, 10);
    }
    if nanos >= 1_000_000_000 {
        push_decimal_text(v, nanos / 1_000_000_000, nanos % 1_000_000_000, 100_000_000);
        v.push(115);
    } else if nanos >= 1_000_000 {
        push_decimal_text(v, nanos / 1_000_000, nanos % 1_000_000, 100_000);
        extend_bytes(v, &[109u8, 115u8]);
    } else if nanos >= 1000 {
        push_decimal_text(v, nanos / 1000, nanos % 1000, 100);
        extend_bytes(v, &[0xc2u8, 0xb5u8, 115u8]);
    } else {
        push_u64(v, nanos);
        extend_bytes(v, &[110u8, 115u8]);
    }
    assert(v@ =~= start + duration_text(nanos as nat));
}

/// A record as the audit writes it: its data, TTL and type.
pub open spec fn record_text(r: RecordV) -> Seq<u8> {
    rdata_text(r.data) + seq![32u8] + decimal(r.ttl as nat) + seq![32u8] + type_text(rdata_type(r.data))
}

/// Records as the audit writes them, separated by `|`.
pub open spec fn records_text(rs: Seq<RecordV>) -> Seq<u8>
    decreases rs.len(),
{
    if rs.len() == 0 {
        Seq::empty()
    } else if rs.len() == 1 {
        record_text(rs[0])
    } else {
        records_text(rs.drop_last()) + seq![124u8] + record_text(rs.last())
    }
}

/// The result part of an audit line: the answers and authorities, or
/// `query failed`.
pub open spec fn result_text(result: Result<DnsResponse, LookupError>) -> Seq<u8> {
    match result {
        Ok(r) => records_text(r.spec_message().answers + r.spec_message().authorities),
        Err(_) => seq![113u8, 117u8, 101u8, 114u8, 121u8, 32u8, 102u8, 97u8, 105u8, 108u8, 101u8, 100u8],
    }
}

fn push_record_text(v: &mut Vec<u8>, r: &Record)
    ensures
        final(v)@ == old(v)@ + record_text(r@),
{
    let ghost start = v@;
    push_rdata_text(v, &r.data);
    v.push(32);
    push_u64(v, r.ttl as u64);
    v.push(32);
    push_type_text(v, r.data.record_type());
    assert(v@ =~= start + record_text(r@));
}

/// Appends the text of the records: `rs` after `before` that were written.
fn push_records(v: &mut Vec<u8>, rs: &Vec<Record>, after_some: bool, Ghost(before): Ghost<Seq<RecordV>>)
    requires
        after_some == (before.len() > 0),
    ensures
        final(v)@ == old(v)@ + (records_text(before + record_views(rs@)).subrange(
            records_text(before).len() as int,
            records_text(before + record_views(rs@)).len() as int,
        )),
{
    let ghost start = v@;
    let ghost rv = record_views(rs@);
    let mut i: usize = 0;
    assert(before + rv.take(0) =~= before);
    while i < rs.len()
        invariant
            i <= rs@.len(),
            rv == record_views(rs@),
            after_some == (before.len() > 0),
            start + records_text(before + rv.take(i as int)).subrange(
                records_text(before).len() as int,
                records_text(before + rv.take(i as int)).len() as int,
            ) == v@,
            records_text(before).len() <= records_text(before + rv.take(i as int)).len(),
            records_text(before + rv.take(i as int)).subrange(0, records_text(before).len() as int)
                == records_text(before),
        decreases rs.len() - i,
    {
        let ghost prev = before + rv.take(i as int);
        let ghost next = before + rv.take(i + 1);
        assert(next.drop_last() =~= prev);
        assert(next.last() == rs@[i as int]@);
        let ghost vv = v@;
        if after_some || i > 0 {
            v.push(124);
        }
        push_record_text(v, &rs[i]);
        proof {
            let n = records_text(before).len() as int;
            let tp = records_text(prev);
            let tn = records_text(next);
            if after_some || i > 0 {
                assert(next.len() > 1);
                assert(tn == tp + seq![124u8] + record_text(next.last()));
            } else {
                assert(next.len() == 1);
                assert(tp.len() == 0);
                assert(tn == record_text(next[0]));
            }
            assert(tn.subrange(0, tp.len() as int) =~= tp);
            assert(tn.subrange(n, tn.len() as int) =~= tp.subrange(n, tp.len() as int) + tn.subrange(
                tp.len() as int,
                tn.len() as int,
            ));
            assert(tn.subrange(0, n) =~= tp.subrange(0, n));
            assert(v@ =~= start + tn.subrange(n, tn.len() as int));
        }
        i = i + 1;
    }
    assert(rv.take(i as int) =~= rv);
}

/// Appends the result part of an audit line.
pub fn push_result_text(v: &mut Vec<u8>, result: &Result<DnsResponse, LookupError>)
    ensures
        final(v)@ == old(v)@ + result_text(*result),
{
    match result {
        Ok(r) => {
            let m = r.message();
            let ghost a = record_views(m.answers@);
            let ghost start = v@;
            assert(Seq::<RecordV>::empty() + a =~= a);
            assert(records_text(Seq::<RecordV>::empty()).len() == 0);
            push_records(v, &m.answers, false, Ghost(Seq::empty()));
            assert(records_text(a).subrange(0, records_text(a).len() as int) =~= records_text(a));
            let ghost mid = v@;
            assert(mid == start + records_text(a));
            let some = m.answers.len() > 0;
            push_records(v, &m.authorities, some, Ghost(a));
            proof {
                let all = a + record_views(m.authorities@);
                lemma_records_text_prefix(a, record_views(m.authorities@));
                let t = records_text(all);
                let n = records_text(a).len() as int;
                assert(t.subrange(0, n) == records_text(a));
                assert(t =~= t.subrange(0, n) + t.subrange(n, t.len() as int));
                assert(v@ =~= start + t);
            }
        },
        Err(_) => {
            extend_bytes(v, &[113u8, 117u8, 101u8, 114u8, 121u8, 32u8, 102u8, 97u8, 105u8, 108u8, 101u8, 100u8]);
            assert(v@ =~= old(v)@ + result_text(*result));
        },
    }
}

/// The text of records is a prefix of the text with more records after.
proof fn lemma_records_text_prefix(a: Seq<RecordV>, b: Seq<RecordV>)
    ensures
        records_text(a).len() <= records_text(a + b).len(),
        records_text(a + b).subrange(0, records_text(a).len() as int) == records_text(a),
    decreases b.len(),
{
    if b.len() == 0 {
        assert(a + b =~= a);
        assert(records_text(a).subrange(0, records_text(a).len() as int) =~= records_text(a));
    } else {
        lemma_records_text_prefix(a, b.drop_last());
        let ab = a + b;
        assert(ab.drop_last() =~= a + b.drop_last());
        let p = records_text(a + b.drop_last());
        let t = records_text(ab);
        let n = records_text(a).len() as int;
        if ab.len() == 1 {
            assert(a.len() == 0);
        } else {
            assert(t == p + seq![124u8] + record_text(ab.last()));
            assert(t.subrange(0, n) =~= p.subrange(0, n));
        }
    }
}

/// An audit line without its date: the client, the question, the time the
/// answer took and the speed of its address, and the result.
pub open spec fn audit_text(client: Seq<u8>, query: crate::message::QueryV, elapsed_nanos: nat, speed_nanos: nat,
    result: Result<DnsResponse, LookupError>) -> Seq<u8> {
    client + seq![32u8, 113u8, 117u8, 101u8, 114u8, 121u8, 32u8] + name_text(query.name) + seq![
        44u8,
        32u8,
        116u8,
        121u8,
        112u8,
        101u8,
        58u8,
        32u8,
    ] + type_text(query.query_type) + seq![44u8, 32u8, 101u8, 108u8, 97u8, 112u8, 115u8, 101u8, 100u8, 58u8, 32u8]
        + duration_text(elapsed_nanos) + seq![44u8, 32u8, 115u8, 112u8, 101u8, 101u8, 100u8, 58u8, 32u8]
        + duration_text(speed_nanos) + seq![44u8, 32u8, 114u8, 101u8, 115u8, 117u8, 108u8, 116u8, 32u8]
        + result_text(result)
}

/// The audit line of a query, without its date.
pub fn audit_line(client: &str, query: &Query, elapsed_nanos: u64, speed_nanos: u64,
    result: &Result<DnsResponse, LookupError>) -> (r: Vec<u8>)
    ensures
        r@ == audit_text(client.spec_bytes(), query@, elapsed_nanos as nat, speed_nanos as nat, *result),
{
    let mut v: Vec<u8> = Vec::new();
    extend_bytes(&mut v, client.as_bytes());
    extend_bytes(&mut v, &[32u8, 113u8, 117u8, 101u8, 114u8, 121u8, 32u8]);
    push_name_text(&mut v, &query.name);
    extend_bytes(&mut v, &[44u8, 32u8, 116u8, 121u8, 112u8, 101u8, 58u8, 32u8]);
    push_type_text(&mut v, query.query_type);
    extend_bytes(&mut v, &[44u8, 32u8, 101u8, 108u8, 97u8, 112u8, 115u8, 101u8, 100u8, 58u8, 32u8]);
    push_duration(&mut v, elapsed_nanos);
    extend_bytes(&mut v, &[44u8, 32u8, 115u8, 112u8, 101u8, 101u8, 100u8, 58u8, 32u8]);
    push_duration(&mut v, speed_nanos);
    extend_bytes(&mut v, &[44u8, 32u8, 114u8, 101u8, 115u8, 117u8, 108u8, 116u8, 32u8]);
    push_result_text(&mut v, result);
    assert(v@ =~= audit_text(client.spec_bytes(), query@, elapsed_nanos as nat, speed_nanos as nat, *result));
    v
}

/// The audit line with its date in brackets in front.
pub fn dated_audit_line(date: &str, client: &str, query: &Query, elapsed_nanos: u64, speed_nanos: u64,
    result: &Result<DnsResponse, LookupError>) -> (r: Vec<u8>)
    ensures
        r@ == seq![91u8] + date.spec_bytes() + seq![93u8, 32u8] + audit_text(
            client.spec_bytes(),
            query@,
            elapsed_nanos as nat,
            speed_nanos as nat,
            *result,
        ),
{
    let mut v: Vec<u8> = Vec::new();
    v.push(91);
    extend_bytes(&mut v, date.as_bytes());
    extend_bytes(&mut v, &[93u8, 32u8]);
    let line = audit_line(client, query, elapsed_nanos, speed_nanos, result);
    extend_bytes(&mut v, line.as_slice());
    assert(v@ =~= seq![91u8] + date.spec_bytes() + seq![93u8, 32u8] + line@);
    v
}

/// What chrono writes for the instant `secs` seconds and `nanos`
/// nanoseconds after the Unix epoch, seen at `offset` seconds east of UTC,
/// in the audit format `%Y-%m-%d %H:%M:%S,%3f`; none when the offset or the
/// instant is out of chrono's range.
pub uninterp spec fn chrono_date_text(secs: i64, nanos: u32, offset: i32) -> Option<Seq<u8>>;

/// chrono's `FixedOffset::east_opt`, `DateTime::from_timestamp`,
/// `with_timezone` and `format`: the date of an instant at a fixed offset in
/// the audit format. The contract claims only that the text is a function
/// of the arguments, and none for an offset of a day or more (`east_opt`
/// refuses it).
#[verifier::external_body]
fn date_text(secs: i64, nanos: u32, offset: i32) -> (r: Option<Vec<u8>>)
    ensures
        crate::response::option_bytes(r) == chrono_date_text(secs, nanos, offset),
        (offset <= -86400 || offset >= 86400) ==> r is None,
{
    let zone = chrono::FixedOffset::east_opt(offset)?;
    let at = chrono::DateTime::from_timestamp(secs, nanos)?;
    Some(at.with_timezone(&zone).format("%Y-%m-%d %H:%M:%S,%3f").to_string().into_bytes())
}

/// The audit line of a query answered at an instant (seconds and
/// nanoseconds after the Unix epoch) seen at `offset` seconds east of UTC:
/// the date in brackets, then [`audit_line`]; none when chrono has no date
/// for the instant at that offset.
pub fn audit_line_at(secs: i64, nanos: u32, offset: i32, client: &str, query: &Query, elapsed_nanos: u64,
    speed_nanos: u64, result: &Result<DnsResponse, LookupError>) -> (r: Option<Vec<u8>>)
    ensures
        match chrono_date_text(secs, nanos, offset) {
            Some(d) => r matches Some(v) && v@ == seq![91u8] + d + seq![93u8, 32u8] + audit_text(
                client.spec_bytes(),
                query@,
                elapsed_nanos as nat,
                speed_nanos as nat,
                *result,
            ),
            None => r is None,
        },
{
    let date = match date_text(secs, nanos, offset) {
        Some(d) => d,
        None => {
            return None;
        },
    };
    let mut v: Vec<u8> = Vec::new();
    v.push(91);
    extend_bytes(&mut v, date.as_slice());
    extend_bytes(&mut v, &[93u8, 32u8]);
    let line = audit_line(client, query, elapsed_nanos, speed_nanos, result);
    extend_bytes(&mut v, line.as_slice());
    assert(v@ =~= seq![91u8] + date@ + seq![93u8, 32u8] + line@);
    Some(v)
}

} // verus!
