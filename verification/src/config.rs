//! The configuration the request path reads: server options, domain rules,
//! network sets and rule groups.
use vstd::prelude::*;
use crate::message::Name;
use crate::ns_select::{ResponseMode, SpeedCheckMode};

verus! {

/// An IPSet by name.
#[derive(Clone, Debug)]
pub struct KernelIpSet(pub String);

/// An nftables set: family, table and set name.
#[derive(Clone, Debug)]
pub struct NFTsetConfig {
    pub family: String,
    pub table: String,
    pub name: String,
}

/// A setting for one address family or both, or the suppression of the
/// setting for one family or both.
#[derive(Clone, Debug)]
pub enum ConfigForIP<T> {
    All(T),
    V4(T),
    V6(T),
    /// No set for any address.
    NoneAll,
    NoneV4,
    NoneV6,
}

/// The options a request is served with.
#[derive(Debug)]
pub struct ServerOpts {
    /// The server group to ask.
    pub group: Option<String>,
    /// The rule group to apply.
    pub rule_group: Option<String>,
    /// A request made by the server itself (refresh or background query).
    pub is_background: bool,
    pub no_cache: Option<bool>,
    pub no_speed_check: Option<bool>,
    pub no_serve_expired: Option<bool>,
    pub no_dualstack_selection: Option<bool>,
    pub no_rule_nameserver: Option<bool>,
    pub no_rule_ipset: Option<bool>,
    pub ipset: Option<Vec<ConfigForIP<KernelIpSet>>>,
    pub nftset: Option<Vec<ConfigForIP<NFTsetConfig>>>,
}

/// An optional flag, false when unset.
pub open spec fn flag(b: Option<bool>) -> bool {
    match b {
        Some(x) => x,
        None => false,
    }
}

fn flag_of(b: Option<bool>) -> (r: bool)
    ensures
        r == flag(b),
{
    match b {
        Some(x) => x,
        None => false,
    }
}

impl ServerOpts {
    /// Options with nothing set.
    pub fn new() -> (r: ServerOpts)
        ensures
            r.group is None && r.rule_group is None && !r.is_background,
            r.no_cache is None && r.no_speed_check is None && r.no_serve_expired is None,
            r.no_dualstack_selection is None && r.no_rule_nameserver is None && r.no_rule_ipset is None,
            r.ipset is None && r.nftset is None,
    {
        ServerOpts {
            group: None,
            rule_group: None,
            is_background: false,
            no_cache: None,
            no_speed_check: None,
            no_serve_expired: None,
            no_dualstack_selection: None,
            no_rule_nameserver: None,
            no_rule_ipset: None,
            ipset: None,
            nftset: None,
        }
    }

    /// The server group to ask, if set.
    pub fn group(&self) -> (r: Option<&str>)
        ensures
            match r {
                Some(g) => self.group matches Some(s) && s@ == g@,
                None => self.group is None,
            },
    {
        match &self.group {
            Some(g) => Some(g.as_str()),
            None => None,
        }
    }

    pub fn no_cache(&self) -> (r: bool)
        ensures
            r == flag(self.no_cache),
    {
        flag_of(self.no_cache)
    }

    pub fn no_speed_check(&self) -> (r: bool)
        ensures
            r == flag(self.no_speed_check),
    {
        flag_of(self.no_speed_check)
    }

    pub fn no_serve_expired(&self) -> (r: bool)
        ensures
            r == flag(self.no_serve_expired),
    {
        flag_of(self.no_serve_expired)
    }

    pub fn no_dualstack_selection(&self) -> (r: bool)
        ensures
            r == flag(self.no_dualstack_selection),
    {
        flag_of(self.no_dualstack_selection)
    }

    pub fn no_rule_nameserver(&self) -> (r: bool)
        ensures
            r == flag(self.no_rule_nameserver),
    {
        flag_of(self.no_rule_nameserver)
    }

    pub fn no_rule_ipset(&self) -> (r: bool)
        ensures
            r == flag(self.no_rule_ipset),
    {
        flag_of(self.no_rule_ipset)
    }
}

/// The answer an address rule gives: fixed addresses, SOA (no records), or
/// ignoring the rule; for both families or one.
#[derive(Debug)]
pub enum AddressRuleValue {
    Addr { v4: Option<Vec<[u8; 4]>>, v6: Option<Vec<[u8; 16]>> },
    Soa,
    SoaV4,
    SoaV6,
    Ignore,
    IgnoreV4,
    IgnoreV6,
}

/// What the rules say of a domain.
#[derive(Debug)]
pub struct DomainRule {
    /// The server group that answers for the domain.
    pub nameserver: Option<String>,
    pub address: Option<AddressRuleValue>,
    pub no_cache: Option<bool>,
    pub no_serve_expired: Option<bool>,
    pub dualstack_ip_selection: Option<bool>,
    pub response_mode: Option<ResponseMode>,
    pub speed_check_mode: Option<Vec<SpeedCheckMode>>,
    pub rr_ttl_min: Option<u64>,
    pub rr_ttl_max: Option<u64>,
    pub ipset: Option<Vec<ConfigForIP<KernelIpSet>>>,
    pub nftset: Option<Vec<ConfigForIP<NFTsetConfig>>>,
    /// The name the domain is an alias of.
    pub cname: Option<Name>,
    /// The SRV record answered for the domain.
    pub srv: Option<SrvTarget>,
    /// The HTTPS record data answered for the domain.
    pub https: Option<Vec<u8>>,
}

/// The value of an address answer: the addresses as sequences.
pub enum AddressV {
    Addr { v4: Option<Seq<[u8; 4]>>, v6: Option<Seq<[u8; 16]>> },
    Soa,
    SoaV4,
    SoaV6,
    Ignore,
    IgnoreV4,
    IgnoreV6,
}

/// The sequence in an optional vector.
pub open spec fn opt_seq<T>(v: Option<Vec<T>>) -> Option<Seq<T>> {
    match v {
        Some(x) => Some(x@),
        None => None,
    }
}

impl View for AddressRuleValue {
    type V = AddressV;

    open spec fn view(&self) -> AddressV {
        match self {
            AddressRuleValue::Addr { v4, v6 } => AddressV::Addr { v4: opt_seq(*v4), v6: opt_seq(*v6) },
            AddressRuleValue::Soa => AddressV::Soa,
            AddressRuleValue::SoaV4 => AddressV::SoaV4,
            AddressRuleValue::SoaV6 => AddressV::SoaV6,
            AddressRuleValue::Ignore => AddressV::Ignore,
            AddressRuleValue::IgnoreV4 => AddressV::IgnoreV4,
            AddressRuleValue::IgnoreV6 => AddressV::IgnoreV6,
        }
    }
}

/// A copy of a vector of plain values.
fn copy_plain<T: Copy>(v: &Vec<T>) -> (r: Vec<T>)
    ensures
        r@ == v@,
{
    let mut r: Vec<T> = Vec::new();
    let mut i: usize = 0;
    while i < v.len()
        invariant
            i <= v@.len(),
            r@ == v@.take(i as int),
        decreases v.len() - i,
    {
        r.push(v[i]);
        i = i + 1;
        assert(r@ =~= v@.take(i as int));
    }
    assert(v@.take(v@.len() as int) =~= v@);
    r
}

fn copy_opt_plain<T: Copy>(v: &Option<Vec<T>>) -> (r: Option<Vec<T>>)
    ensures
        opt_seq(r) == opt_seq(*v),
{
    match v {
        Some(x) => Some(copy_plain(x)),
        None => None,
    }
}

impl Clone for AddressRuleValue {
    fn clone(&self) -> (r: Self)
        ensures
            r@ == self@,
    {
        match self {
            AddressRuleValue::Addr { v4, v6 } => AddressRuleValue::Addr { v4: copy_opt_plain(v4), v6: copy_opt_plain(v6) },
            AddressRuleValue::Soa => AddressRuleValue::Soa,
            AddressRuleValue::SoaV4 => AddressRuleValue::SoaV4,
            AddressRuleValue::SoaV6 => AddressRuleValue::SoaV6,
            AddressRuleValue::Ignore => AddressRuleValue::Ignore,
            AddressRuleValue::IgnoreV4 => AddressRuleValue::IgnoreV4,
            AddressRuleValue::IgnoreV6 => AddressRuleValue::IgnoreV6,
        }
    }
}

/// A copy of an IPSet setting.
pub fn copy_ipset(e: &ConfigForIP<KernelIpSet>) -> (r: ConfigForIP<KernelIpSet>)
    ensures
        r == *e,
{
    match e {
        ConfigForIP::All(k) => ConfigForIP::All(KernelIpSet(k.0.clone())),
        ConfigForIP::V4(k) => ConfigForIP::V4(KernelIpSet(k.0.clone())),
        ConfigForIP::V6(k) => ConfigForIP::V6(KernelIpSet(k.0.clone())),
        ConfigForIP::NoneAll => ConfigForIP::NoneAll,
        ConfigForIP::NoneV4 => ConfigForIP::NoneV4,
        ConfigForIP::NoneV6 => ConfigForIP::NoneV6,
    }
}

fn copy_nft(c: &NFTsetConfig) -> (r: NFTsetConfig)
    ensures
        r == *c,
{
    NFTsetConfig { family: c.family.clone(), table: c.table.clone(), name: c.name.clone() }
}

/// A copy of an nftables set setting.
pub fn copy_nftset(e: &ConfigForIP<NFTsetConfig>) -> (r: ConfigForIP<NFTsetConfig>)
    ensures
        r == *e,
{
    match e {
        ConfigForIP::All(c) => ConfigForIP::All(copy_nft(c)),
        ConfigForIP::V4(c) => ConfigForIP::V4(copy_nft(c)),
        ConfigForIP::V6(c) => ConfigForIP::V6(copy_nft(c)),
        ConfigForIP::NoneAll => ConfigForIP::NoneAll,
        ConfigForIP::NoneV4 => ConfigForIP::NoneV4,
        ConfigForIP::NoneV6 => ConfigForIP::NoneV6,
    }
}

/// A copy of a list of IPSet settings.
pub fn copy_ipsets(v: &Vec<ConfigForIP<KernelIpSet>>) -> (r: Vec<ConfigForIP<KernelIpSet>>)
    ensures
        r@ == v@,
{
    let mut r: Vec<ConfigForIP<KernelIpSet>> = Vec::new();
    let mut i: usize = 0;
    while i < v.len()
        invariant
            i <= v@.len(),
            r@ == v@.take(i as int),
        decreases v.len() - i,
    {
        r.push(copy_ipset(&v[i]));
        i = i + 1;
        assert(r@ =~= v@.take(i as int));
    }
    assert(v@.take(v@.len() as int) =~= v@);
    r
}

/// A copy of a list of nftables set settings.
pub fn copy_nftsets(v: &Vec<ConfigForIP<NFTsetConfig>>) -> (r: Vec<ConfigForIP<NFTsetConfig>>)
    ensures
        r@ == v@,
{
    let mut r: Vec<ConfigForIP<NFTsetConfig>> = Vec::new();
    let mut i: usize = 0;
    while i < v.len()
        invariant
            i <= v@.len(),
            r@ == v@.take(i as int),
        decreases v.len() - i,
    {
        r.push(copy_nftset(&v[i]));
        i = i + 1;
        assert(r@ =~= v@.take(i as int));
    }
    assert(v@.take(v@.len() as int) =~= v@);
    r
}

/// The value of a domain rule: its lists as sequences.
pub struct DomainRuleV {
    pub nameserver: Option<Seq<char>>,
    pub address: Option<AddressV>,
    pub no_cache: Option<bool>,
    pub no_serve_expired: Option<bool>,
    pub dualstack_ip_selection: Option<bool>,
    pub response_mode: Option<ResponseMode>,
    pub speed_check_mode: Option<Seq<SpeedCheckMode>>,
    pub rr_ttl_min: Option<u64>,
    pub rr_ttl_max: Option<u64>,
    pub ipset: Option<Seq<ConfigForIP<KernelIpSet>>>,
    pub nftset: Option<Seq<ConfigForIP<NFTsetConfig>>>,
    pub cname: Option<Seq<Seq<u8>>>,
    pub srv: Option<SrvTargetV>,
    pub https: Option<Seq<u8>>,
}

impl View for DomainRule {
    type V = DomainRuleV;

    open spec fn view(&self) -> DomainRuleV {
        DomainRuleV {
            nameserver: match self.nameserver {
                Some(s) => Some(s@),
                None => None,
            },
            address: match self.address {
                Some(a) => Some(a@),
                None => None,
            },
            no_cache: self.no_cache,
            no_serve_expired: self.no_serve_expired,
            dualstack_ip_selection: self.dualstack_ip_selection,
            response_mode: self.response_mode,
            speed_check_mode: opt_seq(self.speed_check_mode),
            rr_ttl_min: self.rr_ttl_min,
            rr_ttl_max: self.rr_ttl_max,
            ipset: opt_seq(self.ipset),
            nftset: opt_seq(self.nftset),
            cname: match self.cname {
                Some(n) => Some(n@),
                None => None,
            },
            srv: match self.srv {
                Some(t) => Some(t@),
                None => None,
            },
            https: match self.https {
                Some(h) => Some(h@),
                None => None,
            },
        }
    }
}

/// The value of a rule that says nothing.
pub open spec fn empty_rule() -> DomainRuleV {
    DomainRuleV {
        nameserver: None,
        address: None,
        no_cache: None,
        no_serve_expired: None,
        dualstack_ip_selection: None,
        response_mode: None,
        speed_check_mode: None,
        rr_ttl_min: None,
        rr_ttl_max: None,
        ipset: None,
        nftset: None,
        cname: None,
        srv: None,
        https: None,
    }
}

impl Clone for DomainRule {
    fn clone(&self) -> (r: Self)
        ensures
            r@ == self@,
    {
        DomainRule {
            nameserver: match &self.nameserver {
                Some(s) => Some(s.clone()),
                None => None,
            },
            address: match &self.address {
                Some(a) => Some(a.clone()),
                None => None,
            },
            no_cache: self.no_cache,
            no_serve_expired: self.no_serve_expired,
            dualstack_ip_selection: self.dualstack_ip_selection,
            response_mode: self.response_mode,
            speed_check_mode: copy_opt_plain(&self.speed_check_mode),
            rr_ttl_min: self.rr_ttl_min,
            rr_ttl_max: self.rr_ttl_max,
            ipset: match &self.ipset {
                Some(v) => Some(copy_ipsets(v)),
                None => None,
            },
            nftset: match &self.nftset {
                Some(v) => Some(copy_nftsets(v)),
                None => None,
            },
            cname: match &self.cname {
                Some(n) => Some(n.clone()),
                None => None,
            },
            srv: match &self.srv {
                Some(t) => Some(t.clone()),
                None => None,
            },
            https: match &self.https {
                Some(h) => Some(crate::message::copy_bytes(h)),
                None => None,
            },
        }
    }
}

impl DomainRule {
    /// A rule that says nothing.
    pub fn new() -> (r: DomainRule)
        ensures
            r@ == empty_rule(),
            r.nameserver is None && r.address is None && r.no_cache is None && r.no_serve_expired is None,
            r.dualstack_ip_selection is None && r.response_mode is None && r.speed_check_mode is None,
            r.rr_ttl_min is None && r.rr_ttl_max is None && r.ipset is None && r.nftset is None,
            r.cname is None && r.srv is None && r.https is None,
    {
        DomainRule {
            nameserver: None,
            address: None,
            no_cache: None,
            no_serve_expired: None,
            dualstack_ip_selection: None,
            response_mode: None,
            speed_check_mode: None,
            rr_ttl_min: None,
            rr_ttl_max: None,
            ipset: None,
            nftset: None,
            cname: None,
            srv: None,
            https: None,
        }
    }
}

/// A domain, or a named set of domains.
#[derive(Debug)]
pub enum Domain {
    Name(Name),
    /// A named set of domains.
    DomainSet(String),
}

/// A setting for a domain.
#[derive(Debug)]
pub struct ConfigForDomain<T> {
    pub domain: Domain,
    pub config: T,
}

/// `nameserver /domain/group`: the server group for a domain.
#[derive(Debug)]
pub struct ForwardRule {
    pub domain: Domain,
    pub nameserver: String,
}

/// `address /domain/value`: the answer for a domain.
#[derive(Debug)]
pub struct AddressRule {
    pub domain: Domain,
    pub address: AddressRuleValue,
}

/// A SRV target.
#[derive(Debug)]
pub struct SrvTarget {
    pub priority: u16,
    pub weight: u16,
    pub port: u16,
    pub target: Name,
}

/// The value of a SRV target.
pub struct SrvTargetV {
    pub priority: u16,
    pub weight: u16,
    pub port: u16,
    pub target: Seq<Seq<u8>>,
}

impl View for SrvTarget {
    type V = SrvTargetV;

    open spec fn view(&self) -> SrvTargetV {
        SrvTargetV { priority: self.priority, weight: self.weight, port: self.port, target: self.target@ }
    }
}

impl Clone for SrvTarget {
    fn clone(&self) -> (r: Self)
        ensures
            r@ == self@,
    {
        SrvTarget { priority: self.priority, weight: self.weight, port: self.port, target: self.target.clone() }
    }
}

/// The network-set settings of a rule group.
#[derive(Debug)]
pub struct NetworkSetOptions {
    pub ipset_timeout: Option<bool>,
    pub nftset_timeout: Option<bool>,
    pub ipset_no_speed: Option<Vec<ConfigForIP<KernelIpSet>>>,
    pub nftset_no_speed: Option<Vec<ConfigForIP<NFTsetConfig>>>,
}

/// The rules of a group.
#[derive(Debug)]
pub struct RuleGroup {
    pub network_sets: NetworkSetOptions,
    pub nftsets: Vec<ConfigForDomain<Vec<ConfigForIP<NFTsetConfig>>>>,
    pub forward_rules: Vec<ForwardRule>,
    pub address_rules: Vec<AddressRule>,
    pub domain_rules: Vec<ConfigForDomain<DomainRule>>,
    pub cnames: Vec<ConfigForDomain<Name>>,
    pub srv_records: Vec<ConfigForDomain<SrvTarget>>,
    pub https_records: Vec<ConfigForDomain<Vec<u8>>>,
}

/// `b` if it is set, else `a`.
pub open spec fn prefer<T>(b: Option<T>, a: Option<T>) -> Option<T> {
    match b {
        Some(x) => Some(x),
        None => a,
    }
}

fn prefer_of<T>(b: Option<T>, a: Option<T>) -> (r: Option<T>)
    ensures
        r == prefer(b, a),
{
    match b {
        Some(x) => Some(x),
        None => a,
    }
}

impl RuleGroup {
    /// A group without rules.
    pub fn empty() -> (r: RuleGroup)
        ensures
            r.network_sets.ipset_timeout is None && r.network_sets.nftset_timeout is None,
            r.network_sets.ipset_no_speed is None && r.network_sets.nftset_no_speed is None,
            r.nftsets@.len() == 0 && r.forward_rules@.len() == 0 && r.address_rules@.len() == 0,
            r.domain_rules@.len() == 0 && r.cnames@.len() == 0 && r.srv_records@.len() == 0,
            r.https_records@.len() == 0,
    {
        RuleGroup {
            network_sets: NetworkSetOptions {
                ipset_timeout: None,
                nftset_timeout: None,
                ipset_no_speed: None,
                nftset_no_speed: None,
            },
            nftsets: Vec::new(),
            forward_rules: Vec::new(),
            address_rules: Vec::new(),
            domain_rules: Vec::new(),
            cnames: Vec::new(),
            srv_records: Vec::new(),
            https_records: Vec::new(),
        }
    }

    /// Adds the rules of `other` after those of this group; the network-set
    /// settings of `other` win where it has them.
    pub fn merge(&mut self, other: RuleGroup)
        ensures
            final(self).network_sets.ipset_timeout
                == prefer(other.network_sets.ipset_timeout, old(self).network_sets.ipset_timeout),
            final(self).network_sets.nftset_timeout
                == prefer(other.network_sets.nftset_timeout, old(self).network_sets.nftset_timeout),
            final(self).network_sets.ipset_no_speed
                == prefer(other.network_sets.ipset_no_speed, old(self).network_sets.ipset_no_speed),
            final(self).network_sets.nftset_no_speed
                == prefer(other.network_sets.nftset_no_speed, old(self).network_sets.nftset_no_speed),
            final(self).forward_rules@ == old(self).forward_rules@ + other.forward_rules@,
            final(self).address_rules@ == old(self).address_rules@ + other.address_rules@,
            final(self).domain_rules@ == old(self).domain_rules@ + other.domain_rules@,
            final(self).cnames@ == old(self).cnames@ + other.cnames@,
            final(self).srv_records@ == old(self).srv_records@ + other.srv_records@,
            final(self).https_records@ == old(self).https_records@ + other.https_records@,
            final(self).nftsets@ == old(self).nftsets@ + other.nftsets@,
    {
        let RuleGroup {
            network_sets,
            mut nftsets,
            mut forward_rules,
            mut address_rules,
            mut domain_rules,
            mut cnames,
            mut srv_records,
            mut https_records,
        } = other;
        let NetworkSetOptions { ipset_timeout, nftset_timeout, ipset_no_speed, nftset_no_speed } = network_sets;
        self.network_sets.ipset_timeout = prefer_of(ipset_timeout, self.network_sets.ipset_timeout);
        self.network_sets.nftset_timeout = prefer_of(nftset_timeout, self.network_sets.nftset_timeout);
        let own_ipset = self.network_sets.ipset_no_speed.take();
        self.network_sets.ipset_no_speed = prefer_of(ipset_no_speed, own_ipset);
        let own_nftset = self.network_sets.nftset_no_speed.take();
        self.network_sets.nftset_no_speed = prefer_of(nftset_no_speed, own_nftset);
        self.forward_rules.append(&mut forward_rules);
        self.address_rules.append(&mut address_rules);
        self.domain_rules.append(&mut domain_rules);
        self.cnames.append(&mut cnames);
        self.srv_records.append(&mut srv_records);
        self.https_records.append(&mut https_records);
        self.nftsets.append(&mut nftsets);
    }
}

} // verus!
