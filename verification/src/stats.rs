//! Request and upstream counters.
use vstd::prelude::*;
use crate::message::{RecordType, ResponseCode, rdata_type};
use crate::response::DnsResponse;
use crate::dns_error::{LookupError, ProtoError, ProtoErrorKind, spec_is_negative};
use crate::context::{DnsContext, LookupFrom};
use crate::cache::has_type;

verus! {

/// Counts of queries and their total time.
#[derive(Clone, Copy, Debug)]
pub struct QueryStatistics {
    pub total: u64,
    pub success: u64,
    pub received: u64,
    pub elapsed_micros: u64,
}

/// `a + b` wrapping around at the counter's limit.
pub open spec fn wrap_add(a: u64, b: u64) -> u64 {
    if a + b > u64::MAX {
        (a + b - u64::MAX - 1) as u64
    } else {
        (a + b) as u64
    }
}

impl QueryStatistics {
    pub fn new() -> (r: QueryStatistics)
        ensures
            r.total == 0 && r.success == 0 && r.received == 0 && r.elapsed_micros == 0,
    {
        QueryStatistics { total: 0, success: 0, received: 0, elapsed_micros: 0 }
    }
}

/// The request counters of the server.
#[derive(Clone, Copy, Debug)]
pub struct Counters {
    pub requests: QueryStatistics,
    pub from_client: u64,
    pub blocked: u64,
}

/// Whether a result counts as blocked: a local (static or zone) answer
/// carrying an SOA record, or NXDOMAIN.
pub open spec fn spec_blocked(source: LookupFrom, result: Result<DnsResponse, LookupError>) -> bool {
    match result {
        Ok(r) => (source is Static || source is Zone)
            && (has_type(r.spec_message().answers, RecordType::SOA)
                || has_type(r.spec_message().authorities, RecordType::SOA)),
        Err(LookupError::ResponseCode(ResponseCode::NXDomain)) => true,
        _ => false,
    }
}

/// Whether a result counts as blocked (see [`spec_blocked`]).
pub fn blocked(ctx: &DnsContext, result: &Result<DnsResponse, LookupError>) -> (r: bool)
    ensures
        r == spec_blocked(ctx.source, *result),
{
    match result {
        Ok(response) => {
            let local = match &ctx.source {
                LookupFrom::Static => true,
                LookupFrom::Zone(_) => true,
                _ => false,
            };
            let m = response.message();
            local && (crate::cache::any_of_type(&m.answers, RecordType::SOA)
                || crate::cache::any_of_type(&m.authorities, RecordType::SOA))
        },
        Err(LookupError::ResponseCode(ResponseCode::NXDomain)) => true,
        _ => false,
    }
}

impl Counters {
    pub fn new() -> (r: Counters)
        ensures
            r.requests.total == 0 && r.requests.success == 0 && r.requests.received == 0,
            r.requests.elapsed_micros == 0 && r.from_client == 0 && r.blocked == 0,
    {
        Counters { requests: QueryStatistics::new(), from_client: 0, blocked: 0 }
    }

    /// Counts a finished request that took `micros` microseconds from a
    /// source port `src_port` (0 for requests made by the server itself). A
    /// negative answer counts as a success.
    pub fn completed(&mut self, ctx: &DnsContext, src_port: u16, result: &Result<DnsResponse, LookupError>,
        micros: u64)
        ensures
            final(self).requests.total == wrap_add(old(self).requests.total, 1),
            final(self).requests.received == wrap_add(old(self).requests.received, 1),
            final(self).requests.elapsed_micros == wrap_add(old(self).requests.elapsed_micros, micros),
            final(self).requests.success == (if *result is Ok || (*result matches Err(e) && spec_is_negative(e)) {
                wrap_add(old(self).requests.success, 1)
            } else {
                old(self).requests.success
            }),
            final(self).from_client == (if !ctx.server_opts.is_background && !ctx.is_dualstack && src_port != 0 {
                wrap_add(old(self).from_client, 1)
            } else {
                old(self).from_client
            }),
            final(self).blocked == (if spec_blocked(ctx.source, *result) {
                wrap_add(old(self).blocked, 1)
            } else {
                old(self).blocked
            }),
    {
        self.requests.total = self.requests.total.wrapping_add(1);
        self.requests.received = self.requests.received.wrapping_add(1);
        self.requests.elapsed_micros = self.requests.elapsed_micros.wrapping_add(micros);
        let success = match result {
            Ok(_) => true,
            Err(e) => e.is_negative_response(),
        };
        if success {
            self.requests.success = self.requests.success.wrapping_add(1);
        }
        if !ctx.server_opts.is_background && !ctx.is_dualstack && src_port != 0 {
            self.from_client = self.from_client.wrapping_add(1);
        }
        if blocked(ctx, result) {
            self.blocked = self.blocked.wrapping_add(1);
        }
    }
}

/// Whether a protocol error still shows the upstream reachable: it answered
/// NXDOMAIN or without records.
pub open spec fn answered(e: ProtoError) -> bool {
    e.kind is NoRecordsFound
}

/// An upstream server and its counters.
#[derive(Debug)]
pub struct Upstream {
    pub host: String,
    pub ip: String,
    pub stats: QueryStatistics,
    pub alive: bool,
    pub registered: bool,
}

impl Upstream {
    /// An upstream at `host` (address `ip`, empty if unknown), alive and
    /// registered, without counts.
    pub fn new(host: String, ip: String) -> (r: Upstream)
        ensures
            r.host@ == host@ && r.ip@ == ip@,
            r.alive && r.registered,
            r.stats.total == 0 && r.stats.success == 0 && r.stats.received == 0 && r.stats.elapsed_micros == 0,
    {
        Upstream { host, ip, stats: QueryStatistics::new(), alive: true, registered: true }
    }

    /// Records the outcome of a query to this upstream that took `micros`
    /// microseconds: it is alive when it answered (also NXDOMAIN or without
    /// records), and only then is the answer counted.
    pub fn completed(&mut self, result: &Result<DnsResponse, ProtoError>, micros: u64)
        ensures
            final(self).alive == (*result is Ok || (*result matches Err(e) && answered(e))),
            final(self).alive ==> final(self).stats.received == wrap_add(old(self).stats.received, 1)
                && final(self).stats.success == wrap_add(old(self).stats.success, 1)
                && final(self).stats.elapsed_micros == wrap_add(old(self).stats.elapsed_micros, micros),
            !final(self).alive ==> final(self).stats == old(self).stats,
            final(self).stats.total == old(self).stats.total,
            final(self).registered == old(self).registered,
            final(self).host == old(self).host && final(self).ip == old(self).ip,
    {
        let reachable = match result {
            Ok(_) => true,
            Err(e) => match &e.kind {
                ProtoErrorKind::NoRecordsFound(_) => true,
                _ => false,
            },
        };
        self.alive = reachable;
        if reachable {
            self.stats.received = self.stats.received.wrapping_add(1);
            self.stats.elapsed_micros = self.stats.elapsed_micros.wrapping_add(micros);
            self.stats.success = self.stats.success.wrapping_add(1);
        }
    }
}

} // verus!
