//! The context of a request: its options, the domain rule that applies to
//! its name, and the server group that answers it.
use vstd::prelude::*;
use crate::message::Name;
use crate::config::{ServerOpts, flag};
use crate::ddr::{in_zone, is_in_zone};
use crate::dns_rule::{DomainRuleMap, DomainRuleTreeNode, zone_index};
use crate::ns_select::{ResponseMode, SpeedCheckMode};

verus! {

/// Where an answer came from.
#[derive(Debug)]
pub enum LookupFrom {
    /// Not known (yet).
    Nowhere,
    Cache,
    Static,
    Zone(String),
    Server(String),
}

impl LookupFrom {
    pub fn default() -> (r: LookupFrom)
        ensures
            r is Nowhere,
    {
        LookupFrom::Nowhere
    }
}

/// How the answer to an address query is chosen.
#[derive(Clone, Copy, Debug, PartialEq, Eq, Structural)]
pub enum LookupResponseStrategy {
    /// Query and probe; the first address reached wins.
    FirstPing,
    /// Probe every address; the fastest wins.
    FastestIp,
    /// The first answer wins.
    FastestResponse,
}

impl LookupResponseStrategy {
    pub fn default() -> (r: LookupResponseStrategy)
        ensures
            r == LookupResponseStrategy::FirstPing,
    {
        LookupResponseStrategy::FirstPing
    }
}

/// The server group of the rule at `i`: its own, else that of the nearest
/// enclosing zone with one.
pub open spec fn chain_group(nodes: Seq<DomainRuleTreeNode>, i: int) -> Option<Seq<char>>
    decreases i,
{
    if !(0 <= i < nodes.len()) {
        None
    } else {
        match nodes[i].rule.nameserver {
            Some(n) => Some(n@),
            None => match nodes[i].zone {
                Some(z) => if (z as int) < i { chain_group(nodes, z as int) } else { None },
                None => None,
            },
        }
    }
}

/// The state of a request on its way through the server.
pub struct DnsContext {
    pub server_opts: ServerOpts,
    /// The node of the domain rule for the request's name.
    pub domain_rule: Option<usize>,
    /// The fastest probe so far (microseconds).
    pub fastest_speed: u64,
    pub source: LookupFrom,
    pub no_cache: bool,
    pub is_dualstack: bool,
}

impl DnsContext {
    /// The context of a request for `name` served with `server_opts`, with
    /// the rules of its rule group: the node for the name, and whether the
    /// rule of that node turns caching off.
    pub fn new(name: &Name, rules: &DomainRuleMap, server_opts: ServerOpts) -> (r: DnsContext)
        requires
            rules.wf(),
        ensures
            r.domain_rule == zone_index(rules.spec_find(name@)),
            r.no_cache == match r.domain_rule {
                Some(i) => rules.spec_nodes()[i as int].rule.no_cache == Some(true),
                None => false,
            },
            r.server_opts == server_opts,
            r.fastest_speed == 0,
            r.source is Nowhere,
            !r.is_dualstack,
    {
        let domain_rule = rules.find(name);
        let no_cache = match domain_rule {
            Some(i) => {
                proof {
                    rules.lemma_find_range(name@);
                }
                let node = rules.node(i);
                match node.rule.no_cache {
                    Some(b) => b,
                    None => false,
                }
            },
            None => false,
        };
        DnsContext {
            server_opts,
            domain_rule,
            fastest_speed: 0,
            source: LookupFrom::Nowhere,
            no_cache,
            is_dualstack: false,
        }
    }

    pub fn server_opts(&self) -> (r: &ServerOpts)
        ensures
            *r == self.server_opts,
    {
        &self.server_opts
    }

    /// The server group that answers the request: the one its options name,
    /// else that of the nearest domain rule up the zone chain that names
    /// one, else `default`.
    pub fn server_group_name<'a>(&'a self, rules: &'a DomainRuleMap) -> (r: &'a str)
        requires
            rules.wf(),
        ensures
            r@ == match self.server_opts.group {
                Some(g) => g@,
                None => match self.domain_rule {
                    Some(i) => match chain_group(rules.spec_nodes(), i as int) {
                        Some(n) => n,
                        None => "default"@,
                    },
                    None => "default"@,
                },
            },
    {
        match self.server_opts.group() {
            Some(g) => g,
            None => {
                let mut node = self.domain_rule;
                while node.is_some()
                    invariant
                        rules.wf(),
                        self.server_opts.group is None,
                        (match self.domain_rule {
                            Some(i) => chain_group(rules.spec_nodes(), i as int),
                            None => None::<Seq<char>>,
                        }) == (match node {
                            Some(i) => chain_group(rules.spec_nodes(), i as int),
                            None => None::<Seq<char>>,
                        }),
                    decreases match node {
                        Some(i) => i as int + 1,
                        None => 0,
                    },
                {
                    let i = match node {
                        Some(i) => i,
                        None => 0,
                    };
                    if i >= rules.len() {
                        assert(chain_group(rules.spec_nodes(), i as int) is None);
                        node = None;
                    } else {
                        let n = rules.node(i);
                        match &n.rule.nameserver {
                            Some(g) => {
                                return g.as_str();
                            },
                            None => {
                                proof {
                                    rules.lemma_zone_range(i as int);
                                }
                                node = n.zone;
                            },
                        }
                    }
                }
                proof {
                    reveal_strlit("default");
                }
                "default"
            },
        }
    }
}

/// The server group of a request with options naming `group` and the rule
/// at `domain_rule` (see [`DnsContext::server_group_name`]).
pub open spec fn group_name_of(group: Option<String>, domain_rule: Option<usize>, nodes: Seq<DomainRuleTreeNode>)
    -> Seq<char> {
    match group {
        Some(g) => g@,
        None => match domain_rule {
            Some(i) => match chain_group(nodes, i as int) {
                Some(n) => n,
                None => "default"@,
            },
            None => "default"@,
        },
    }
}

/// The response mode of the rule at `i`, else that of its zone.
pub open spec fn node_response_mode(nodes: Seq<DomainRuleTreeNode>, i: int) -> Option<ResponseMode> {
    match nodes[i].rule.response_mode {
        Some(m) => Some(m),
        None => match nodes[i].zone {
            Some(z) => nodes[z as int].rule.response_mode,
            None => None,
        },
    }
}

/// The zone `local`, answered by mDNS.
pub open spec fn local_zone() -> Seq<Seq<u8>> {
    seq![seq![108u8, 111, 99, 97, 108]]
}

/// How an address question is looked up: how the answer is chosen, the
/// probe modes, and whether probing is turned off.
#[derive(Debug)]
pub struct IpPlan {
    pub strategy: ResponseMode,
    pub speed_check: Option<Vec<SpeedCheckMode>>,
    pub no_speed_check: bool,
}

/// How a request goes to the upstream servers: the server group to ask
/// (none when the request skips nameserver rules and goes to the default
/// servers), whether the mDNS group is tried first, and for an address
/// question the [`IpPlan`].
#[derive(Debug)]
pub struct LookupPlan {
    pub group: Option<String>,
    pub mdns_first: bool,
    pub ip: Option<IpPlan>,
}

fn copy_modes(v: &Vec<SpeedCheckMode>) -> (r: Vec<SpeedCheckMode>)
    ensures
        r@ == v@,
{
    let mut r: Vec<SpeedCheckMode> = Vec::new();
    let mut i: usize = 0;
    while i < v.len()
        invariant
            i <= v@.len(),
            r@ == v@.take(i as int),
        decreases v.len() - i,
    {
        r.push(v[i]);
        assert(v@.take(i + 1) =~= v@.take(i as int).push(v@[i as int]));
        i = i + 1;
    }
    assert(v@.take(v@.len() as int) =~= v@);
    r
}

impl DnsContext {
    /// How the request for `name` goes upstream. A request that skips
    /// nameserver rules goes to the default servers as it is. Otherwise it
    /// goes to its server group, trying the mDNS group first for names
    /// under `local` when mDNS lookups are on; an address question takes
    /// the response mode of its rule (or of the rule's zone), else
    /// `cfg_mode`, and the probe modes of its rule, else `cfg_speed`; a
    /// background request always probes every address (`FastestIp`).
    pub fn lookup_plan(&self, rules: &DomainRuleMap, name: &Name, is_ip: bool, mdns_lookup: bool,
        cfg_mode: ResponseMode, cfg_speed: &Option<Vec<SpeedCheckMode>>) -> (r: LookupPlan)
        requires
            rules.wf(),
            self.domain_rule matches Some(i) ==> i < rules.spec_nodes().len(),
        ensures
            flag(self.server_opts.no_rule_nameserver) ==> r.group is None && !r.mdns_first && r.ip is None,
            !flag(self.server_opts.no_rule_nameserver) ==> {
                &&& r.group matches Some(g) && g@ == group_name_of(
                    self.server_opts.group,
                    self.domain_rule,
                    rules.spec_nodes(),
                )
                &&& r.mdns_first == (mdns_lookup && in_zone(local_zone(), name@))
                &&& is_ip ==> (r.ip matches Some(p) && {
                    &&& p.strategy == if self.server_opts.is_background {
                        ResponseMode::FastestIp
                    } else {
                        match self.domain_rule {
                            Some(i) => match node_response_mode(rules.spec_nodes(), i as int) {
                                Some(m) => m,
                                None => cfg_mode,
                            },
                            None => cfg_mode,
                        }
                    }
                    &&& p.no_speed_check == flag(self.server_opts.no_speed_check)
                    &&& match (match self.domain_rule {
                        Some(i) => match rules.spec_nodes()[i as int].rule.speed_check_mode {
                            Some(ms) => Some(ms),
                            None => *cfg_speed,
                        },
                        None => *cfg_speed,
                    }) {
                        Some(ms) => p.speed_check matches Some(v) && v@ == ms@,
                        None => p.speed_check is None,
                    }
                })
                &&& !is_ip ==> r.ip is None
            },
    {
        if self.server_opts.no_rule_nameserver() {
            return LookupPlan { group: None, mdns_first: false, ip: None };
        }
        let group = self.server_group_name(rules).to_string();
        let local = Name { labels: vec![vec![108u8, 111, 99, 97, 108]] };
        assert(local@ =~= local_zone()) by {
            assert(local.labels@[0]@ =~= seq![108u8, 111, 99, 97, 108]);
        }
        let mdns_first = mdns_lookup && is_in_zone(&local, name);
        if !is_ip {
            return LookupPlan { group: Some(group), mdns_first, ip: None };
        }
        let (mode, speed) = match self.domain_rule {
            Some(i) => {
                let node = rules.node(i);
                let mode = match node.rule.response_mode {
                    Some(m) => m,
                    None => match node.zone {
                        Some(z) => {
                            proof {
                                rules.lemma_zone_range(i as int);
                            }
                            match rules.node(z).rule.response_mode {
                                Some(m) => m,
                                None => cfg_mode,
                            }
                        },
                        None => cfg_mode,
                    },
                };
                let speed = match &node.rule.speed_check_mode {
                    Some(ms) => Some(copy_modes(ms)),
                    None => match cfg_speed {
                        Some(ms) => Some(copy_modes(ms)),
                        None => None,
                    },
                };
                (mode, speed)
            },
            None => (
                cfg_mode,
                match cfg_speed {
                    Some(ms) => Some(copy_modes(ms)),
                    None => None,
                },
            ),
        };
        let strategy = if self.server_opts.is_background {
            ResponseMode::FastestIp
        } else {
            mode
        };
        LookupPlan {
            group: Some(group),
            mdns_first,
            ip: Some(IpPlan { strategy, speed_check: speed, no_speed_check: self.server_opts.no_speed_check() }),
        }
    }
}

} // verus!
