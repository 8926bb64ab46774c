//! Dual-stack address selection: whether to race the other address family
//! for an address query, which family answered faster, and the empty answer
//! that hands a client over to the faster family.
use vstd::prelude::*;
use crate::message::{Query, Record, RecordType, RecordV, RDataV, QueryV, record_views};
use crate::response::{DnsResponse, ProbeResult, answer_message};
use crate::config::{ServerOpts, RuleGroup, flag};
use crate::dns_rule::{DomainRuleMap, DomainRuleTreeNode};
use crate::context::DnsContext;
use crate::ns_select::{SpeedCheckMode, any_none};
use crate::dns_error::{DefaultSOA, default_soa_view};

verus! {

/// What the middleware does with an address query.
#[derive(Debug)]
pub enum DualStackPlan {
    /// Hand the request on unchanged.
    Pass,
    /// Ask for the other family as well and compare the two.
    Race {
        /// An answer of the other family that is faster wins without the
        /// selection threshold (the query was for A).
        prefer_that: bool,
        /// The type asked of the other family.
        that_type: RecordType,
        /// The probe modes that compare the two answers.
        modes: Vec<SpeedCheckMode>,
    },
}

/// The other address family's record type.
pub open spec fn other_family(t: RecordType) -> RecordType {
    match t {
        RecordType::A => RecordType::AAAA,
        RecordType::AAAA => RecordType::A,
        _ => t,
    }
}

/// Whether dual-stack selection is on for the request: its domain rule
/// says so, else the global setting.
pub open spec fn selection_on(nodes: Seq<DomainRuleTreeNode>, node: Option<usize>, global: bool) -> bool {
    match node {
        Some(i) => if (i as int) < nodes.len() {
            match nodes[i as int].rule.dualstack_ip_selection {
                Some(b) => b,
                None => global,
            }
        } else {
            global
        },
        None => global,
    }
}

/// The probe modes of the request's domain rule (or of its zone's rule),
/// else the global ones.
pub open spec fn modes_for(nodes: Seq<DomainRuleTreeNode>, node: Option<usize>, global: Option<Seq<SpeedCheckMode>>)
    -> Option<Seq<SpeedCheckMode>>
{
    let own = match node {
        Some(i) => if (i as int) < nodes.len() {
            match nodes[i as int].rule.speed_check_mode {
                Some(m) => Some(m@),
                None => match nodes[i as int].zone {
                    Some(z) => if (z as int) < nodes.len() {
                        match nodes[z as int].rule.speed_check_mode {
                            Some(m) => Some(m@),
                            None => None,
                        }
                    } else {
                        None
                    },
                    None => None,
                },
            }
        } else {
            None
        },
        None => None,
    };
    match own {
        Some(m) => Some(m),
        None => global,
    }
}

/// The plan for a request, as `Some((prefer_that, that_type, modes))` for
/// a race: only for address queries that the options do not exempt, for A
/// only when forcing AAAA is allowed, when selection is on and probe modes
/// are configured and none of them is `none`.
pub open spec fn spec_plan(opts: ServerOpts, nodes: Seq<DomainRuleTreeNode>, node: Option<usize>,
    query_type: RecordType, allow_force_aaaa: bool, global_selection: bool, global_modes: Option<Seq<SpeedCheckMode>>)
    -> Option<(bool, RecordType, Seq<SpeedCheckMode>)>
{
    if flag(opts.no_dualstack_selection) || flag(opts.no_speed_check) {
        None
    } else if !(query_type == RecordType::A || query_type == RecordType::AAAA) {
        None
    } else if query_type == RecordType::A && !allow_force_aaaa {
        None
    } else if !selection_on(nodes, node, global_selection) {
        None
    } else {
        match modes_for(nodes, node, global_modes) {
            Some(m) => if m.len() > 0 && !any_none(m) {
                Some((query_type == RecordType::A, other_family(query_type), m))
            } else {
                None
            },
            None => None,
        }
    }
}

/// The plan's value.
pub open spec fn plan_view(p: DualStackPlan) -> Option<(bool, RecordType, Seq<SpeedCheckMode>)> {
    match p {
        DualStackPlan::Pass => None,
        DualStackPlan::Race { prefer_that, that_type, modes } => Some((prefer_that, that_type, modes@)),
    }
}

fn copy_modes(m: &Vec<SpeedCheckMode>) -> (r: Vec<SpeedCheckMode>)
    ensures
        r@ == m@,
{
    let mut r: Vec<SpeedCheckMode> = Vec::new();
    let mut i: usize = 0;
    while i < m.len()
        invariant
            i <= m@.len(),
            r@ == m@.take(i as int),
        decreases m.len() - i,
    {
        r.push(m[i]);
        i = i + 1;
        assert(r@ =~= m@.take(i as int));
    }
    assert(m@.take(m@.len() as int) =~= m@);
    r
}

fn modes_valid(m: &Vec<SpeedCheckMode>) -> (r: bool)
    ensures
        r == (m@.len() > 0 && !any_none(m@)),
{
    if m.len() == 0 {
        return false;
    }
    let mut i: usize = 0;
    while i < m.len()
        invariant
            i <= m@.len(),
            forall|j: int| 0 <= j < i ==> !(#[trigger] m@[j] is NoCheck),
        decreases m.len() - i,
    {
        if m[i].is_none() {
            return false;
        }
        i = i + 1;
    }
    true
}

/// Whether an address query is raced against the other family, and how.
/// `rules` is the map `ctx.domain_rule` points into; the other arguments
/// are the global settings.
pub fn plan(ctx: &DnsContext, rules: &DomainRuleMap, query_type: RecordType, allow_force_aaaa: bool,
    global_selection: bool, global_modes: Option<&Vec<SpeedCheckMode>>) -> (r: DualStackPlan)
    ensures
        plan_view(r) == spec_plan(ctx.server_opts, rules.spec_nodes(), ctx.domain_rule, query_type, allow_force_aaaa,
            global_selection, match global_modes {
                Some(m) => Some(m@),
                None => None,
            }),
{
    if ctx.server_opts.no_dualstack_selection() || ctx.server_opts.no_speed_check() {
        return DualStackPlan::Pass;
    }
    if !query_type.is_ip_addr() {
        return DualStackPlan::Pass;
    }
    let prefer_that = query_type == RecordType::A;
    if prefer_that && !allow_force_aaaa {
        return DualStackPlan::Pass;
    }
    let node = match ctx.domain_rule {
        Some(i) => if i < rules.len() {
            Some(rules.node(i))
        } else {
            None
        },
        None => None,
    };
    let selection = match node {
        Some(n) => match n.rule.dualstack_ip_selection {
            Some(b) => b,
            None => global_selection,
        },
        None => global_selection,
    };
    if !selection {
        return DualStackPlan::Pass;
    }
    let own: Option<&Vec<SpeedCheckMode>> = match node {
        Some(n) => match &n.rule.speed_check_mode {
            Some(m) => Some(m),
            None => match n.zone {
                Some(z) => if z < rules.len() {
                    match &rules.node(z).rule.speed_check_mode {
                        Some(m) => Some(m),
                        None => None,
                    }
                } else {
                    None
                },
                None => None,
            },
        },
        None => None,
    };
    let modes = match own {
        Some(m) => Some(m),
        None => global_modes,
    };
    match modes {
        Some(m) => if modes_valid(m) {
            let that_type = if prefer_that { RecordType::AAAA } else { RecordType::A };
            DualStackPlan::Race { prefer_that, that_type, modes: copy_modes(m) }
        } else {
            DualStackPlan::Pass
        },
        None => DualStackPlan::Pass,
    }
}

/// The comparison of two answers by their probes, when the probes decide:
/// `Some(true)` when the other family's answer is faster (by more than the
/// threshold, in microseconds), `Some(false)` when it is not, `None` when
/// the addresses must be pinged.
pub open spec fn spec_probe_verdict(this: ProbeResult, that: ProbeResult, threshold_us: u64) -> Option<bool> {
    match (this, that) {
        (ProbeResult::Measured(a), ProbeResult::Measured(b)) => Some(a - b > threshold_us),
        (ProbeResult::Failed, ProbeResult::Measured(_)) => Some(true),
        (ProbeResult::Measured(_), ProbeResult::Failed) => Some(false),
        _ => None,
    }
}

pub fn probe_verdict(this: ProbeResult, that: ProbeResult, threshold_us: u64) -> (r: Option<bool>)
    ensures
        r == spec_probe_verdict(this, that, threshold_us),
{
    match (this, that) {
        (ProbeResult::Measured(a), ProbeResult::Measured(b)) => Some(a > b && a - b > threshold_us),
        (ProbeResult::Failed, ProbeResult::Measured(_)) => Some(true),
        (ProbeResult::Measured(_), ProbeResult::Failed) => Some(false),
        _ => None,
    }
}

/// The comparison by pinging both answers' addresses (round trips in
/// microseconds, `None` when no address answered): the other family is
/// faster only when its ping finished first with an answer, and this
/// family's ping then failed or was slower by more than the threshold.
pub open spec fn spec_ping_verdict(that_first: bool, this_ping: Option<u64>, that_ping: Option<u64>, threshold_us: u64) -> bool {
    that_first && match that_ping {
        Some(t) => match this_ping {
            Some(s) => s > t && s - t > threshold_us,
            None => true,
        },
        None => false,
    }
}

pub fn ping_verdict(that_first: bool, this_ping: Option<u64>, that_ping: Option<u64>, threshold_us: u64) -> (r: bool)
    ensures
        r == spec_ping_verdict(that_first, this_ping, that_ping, threshold_us),
{
    if !that_first {
        return false;
    }
    match that_ping {
        Some(t) => match this_ping {
            Some(s) => s > t && s - t > threshold_us,
            None => true,
        },
        None => false,
    }
}

/// The selection threshold in microseconds, from milliseconds.
pub fn threshold_micros(ms: u64) -> (r: u64)
    ensures
        r == (if ms * 1000 > u64::MAX { u64::MAX as int } else { ms * 1000 }),
{
    match ms.checked_mul(1000) {
        Some(v) => v,
        None => u64::MAX,
    }
}

/// The answer that hands the client over to the other family: the
/// question, no records, and the default SOA with the local TTL.
pub open spec fn nodata_message(query: QueryV, ttl: u32) -> crate::message::MessageV {
    let m = answer_message(query, Seq::empty());
    crate::message::MessageV {
        authorities: m.authorities.push(RecordV { name: query.name, dns_class: 1, ttl, data: RDataV::SOA(default_soa_view()) }),
        ..m
    }
}

pub fn nodata_response(query: Query, ttl: u32) -> (r: DnsResponse)
    ensures
        r.spec_message() == nodata_message(query@, ttl),
        r.spec_probe() == ProbeResult::Unchecked,
{
    let name = query.name.clone();
    let mut response = DnsResponse::new_with_max_ttl(query, Vec::new());
    let soa = <crate::message::RData as DefaultSOA>::default_soa();
    response.add_authority(Record::from_rdata(name, ttl, soa));
    proof {
        assert(record_views(Seq::<Record>::empty()) =~= Seq::empty());
    }
    response
}

/// The answer once both families have been heard: the empty hand-over
/// answer when the other family was faster and is preferred (always so for
/// AAAA queries), else this family's answer.
pub fn settle(this: DnsResponse, that_faster: bool, prefer_that: bool, query_type: RecordType, query: Query, ttl: u32)
    -> (r: DnsResponse)
    ensures
        (that_faster && (prefer_that || query_type == RecordType::AAAA)) ==> r.spec_message() == nodata_message(query@, ttl),
        !(that_faster && (prefer_that || query_type == RecordType::AAAA)) ==> r == this,
{
    if that_faster && (prefer_that || query_type == RecordType::AAAA) {
        nodata_response(query, ttl)
    } else {
        this
    }
}

/// Whether a rule group turns selection on for some domain.
pub open spec fn group_selects(g: RuleGroup) -> bool {
    exists|i: int| 0 <= i < g.domain_rules.len()
        && (#[trigger] g.domain_rules@[i]).config.dualstack_ip_selection == Some(true)
}

fn group_selection_on(g: &RuleGroup) -> (r: bool)
    ensures
        r == group_selects(*g),
{
    let mut i: usize = 0;
    while i < g.domain_rules.len()
        invariant
            i <= g.domain_rules.len(),
            forall|j: int| 0 <= j < i ==> (#[trigger] g.domain_rules@[j]).config.dualstack_ip_selection != Some(true),
        decreases g.domain_rules.len() - i,
    {
        if let Some(true) = g.domain_rules[i].config.dualstack_ip_selection {
            return true;
        }
        i = i + 1;
    }
    false
}

/// The middleware that races the address families.
pub struct DnsDualStackIpSelectionMiddleware;

impl DnsDualStackIpSelectionMiddleware {
    /// Whether selection can happen: on globally, or turned on by some
    /// domain rule of some group.
    pub fn is_configured(global: bool, groups: &Vec<RuleGroup>) -> (r: bool)
        ensures
            r == (global || exists|i: int| 0 <= i < groups.len() && group_selects(#[trigger] groups@[i])),
    {
        if global {
            return true;
        }
        let mut i: usize = 0;
        while i < groups.len()
            invariant
                i <= groups.len(),
                forall|j: int| 0 <= j < i ==> !group_selects(#[trigger] groups@[j]),
            decreases groups.len() - i,
        {
            if group_selection_on(&groups[i]) {
                return true;
            }
            i = i + 1;
        }
        false
    }
}

} // verus!
