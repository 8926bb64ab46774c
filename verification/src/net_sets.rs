//! Which kernel sets (IPSet and nftables) the addresses of an answer are
//! added to, and with which timeout.
use vstd::prelude::*;
use crate::net::IpAddress;
use crate::message::{Record, RecordV, rdata_ip, record_views};
use crate::response::{DnsResponse, ProbeResult};
use crate::config::{ConfigForIP, KernelIpSet, NFTsetConfig, NetworkSetOptions, ServerOpts, DomainRule, RuleGroup, flag};
use crate::dns_rule::{DomainRuleMap, DomainRuleTreeNode, zone_index};
use crate::message::MessageV;
use crate::context::DnsContext;

verus! {

/// A kernel set: an IPSet or an nftables set.
pub trait NetSet: Sized {
    /// What names the set: family, table and set name (an IPSet has only a
    /// name).
    spec fn set_id(&self) -> (Seq<char>, Seq<char>, Seq<char>);

    /// Whether the sets of this kind are nftables sets.
    spec fn is_nft() -> bool;

    /// The rules for sets of this kind in a domain rule.
    spec fn spec_domain_rules(d: DomainRule) -> Option<Vec<ConfigForIP<Self>>>;

    /// The rules for sets of this kind in the server options.
    spec fn spec_server_rules(o: ServerOpts) -> Option<Vec<ConfigForIP<Self>>>;

    /// The sets of this kind for addresses whose probe failed.
    spec fn spec_fallback(n: NetworkSetOptions) -> Option<Vec<ConfigForIP<Self>>>;

    /// Whether additions to sets of this kind carry a timeout.
    spec fn spec_timeout(n: NetworkSetOptions) -> Option<bool>;

    fn copy(&self) -> (r: Self)
        ensures
            r.set_id() == self.set_id(),
    ;

    fn domain_rules(d: &DomainRule) -> (r: Option<&Vec<ConfigForIP<Self>>>)
        ensures
            rules_view(r) == rules_seq(Self::spec_domain_rules(*d)),
    ;

    fn server_rules(o: &ServerOpts) -> (r: Option<&Vec<ConfigForIP<Self>>>)
        ensures
            rules_view(r) == rules_seq(Self::spec_server_rules(*o)),
    ;

    fn fallback(n: &NetworkSetOptions) -> (r: Option<&Vec<ConfigForIP<Self>>>)
        ensures
            rules_view(r) == rules_seq(Self::spec_fallback(*n)),
    ;

    fn timeout(n: &NetworkSetOptions) -> (r: Option<bool>)
        ensures
            r == Self::spec_timeout(*n),
    ;

    /// The addition of `ip` to this set.
    fn update(&self, ip: IpAddress, timeout: u32) -> (r: SetUpdate)
        ensures
            r@ == (SetUpdateV { nft: Self::is_nft(), id: self.set_id(), ip, timeout }),
    ;
}

/// The addition of an address to a kernel set, with its timeout in seconds
/// (0: none).
#[derive(Debug)]
pub enum SetUpdate {
    IpSet(KernelIpSet, IpAddress, u32),
    NftSet(NFTsetConfig, IpAddress, u32),
}

/// The value of a set update.
pub struct SetUpdateV {
    pub nft: bool,
    pub id: (Seq<char>, Seq<char>, Seq<char>),
    pub ip: IpAddress,
    pub timeout: u32,
}

impl View for SetUpdate {
    type V = SetUpdateV;

    open spec fn view(&self) -> SetUpdateV {
        match self {
            SetUpdate::IpSet(s, ip, t) => SetUpdateV { nft: false, id: (Seq::empty(), Seq::empty(), s.0@), ip: *ip, timeout: *t },
            SetUpdate::NftSet(s, ip, t) => SetUpdateV {
                nft: true,
                id: (s.family@, s.table@, s.name@),
                ip: *ip,
                timeout: *t,
            },
        }
    }
}

pub open spec fn update_views(s: Seq<SetUpdate>) -> Seq<SetUpdateV> {
    s.map_values(|u: SetUpdate| u@)
}

impl NetSet for KernelIpSet {
    open spec fn set_id(&self) -> (Seq<char>, Seq<char>, Seq<char>) {
        (Seq::empty(), Seq::empty(), self.0@)
    }

    open spec fn is_nft() -> bool {
        false
    }

    open spec fn spec_domain_rules(d: DomainRule) -> Option<Vec<ConfigForIP<Self>>> {
        d.ipset
    }

    open spec fn spec_server_rules(o: ServerOpts) -> Option<Vec<ConfigForIP<Self>>> {
        o.ipset
    }

    open spec fn spec_fallback(n: NetworkSetOptions) -> Option<Vec<ConfigForIP<Self>>> {
        n.ipset_no_speed
    }

    open spec fn spec_timeout(n: NetworkSetOptions) -> Option<bool> {
        n.ipset_timeout
    }

    fn copy(&self) -> (r: KernelIpSet) {
        KernelIpSet(self.0.clone())
    }

    fn domain_rules(d: &DomainRule) -> (r: Option<&Vec<ConfigForIP<KernelIpSet>>>) {
        match &d.ipset {
            Some(v) => Some(v),
            None => None,
        }
    }

    fn server_rules(o: &ServerOpts) -> (r: Option<&Vec<ConfigForIP<KernelIpSet>>>) {
        match &o.ipset {
            Some(v) => Some(v),
            None => None,
        }
    }

    fn fallback(n: &NetworkSetOptions) -> (r: Option<&Vec<ConfigForIP<KernelIpSet>>>) {
        match &n.ipset_no_speed {
            Some(v) => Some(v),
            None => None,
        }
    }

    fn timeout(n: &NetworkSetOptions) -> (r: Option<bool>) {
        n.ipset_timeout
    }

    fn update(&self, ip: IpAddress, timeout: u32) -> (r: SetUpdate) {
        SetUpdate::IpSet(self.copy(), ip, timeout)
    }
}

impl NetSet for NFTsetConfig {
    open spec fn set_id(&self) -> (Seq<char>, Seq<char>, Seq<char>) {
        (self.family@, self.table@, self.name@)
    }

    open spec fn is_nft() -> bool {
        true
    }

    open spec fn spec_domain_rules(d: DomainRule) -> Option<Vec<ConfigForIP<Self>>> {
        d.nftset
    }

    open spec fn spec_server_rules(o: ServerOpts) -> Option<Vec<ConfigForIP<Self>>> {
        o.nftset
    }

    open spec fn spec_fallback(n: NetworkSetOptions) -> Option<Vec<ConfigForIP<Self>>> {
        n.nftset_no_speed
    }

    open spec fn spec_timeout(n: NetworkSetOptions) -> Option<bool> {
        n.nftset_timeout
    }

    fn copy(&self) -> (r: NFTsetConfig) {
        NFTsetConfig { family: self.family.clone(), table: self.table.clone(), name: self.name.clone() }
    }

    fn domain_rules(d: &DomainRule) -> (r: Option<&Vec<ConfigForIP<NFTsetConfig>>>) {
        match &d.nftset {
            Some(v) => Some(v),
            None => None,
        }
    }

    fn server_rules(o: &ServerOpts) -> (r: Option<&Vec<ConfigForIP<NFTsetConfig>>>) {
        match &o.nftset {
            Some(v) => Some(v),
            None => None,
        }
    }

    fn fallback(n: &NetworkSetOptions) -> (r: Option<&Vec<ConfigForIP<NFTsetConfig>>>) {
        match &n.nftset_no_speed {
            Some(v) => Some(v),
            None => None,
        }
    }

    fn timeout(n: &NetworkSetOptions) -> (r: Option<bool>) {
        n.nftset_timeout
    }

    fn update(&self, ip: IpAddress, timeout: u32) -> (r: SetUpdate) {
        SetUpdate::NftSet(self.copy(), ip, timeout)
    }
}

/// A list of rules by reference, as a sequence.
pub open spec fn rules_view<T>(r: Option<&Vec<ConfigForIP<T>>>) -> Option<Seq<ConfigForIP<T>>> {
    match r {
        Some(v) => Some(v@),
        None => None,
    }
}

/// A list of rules, as a sequence.
pub open spec fn rules_seq<T>(r: Option<Vec<ConfigForIP<T>>>) -> Option<Seq<ConfigForIP<T>>> {
    match r {
        Some(v) => Some(v@),
        None => None,
    }
}

/// The names of a list of sets.
pub open spec fn set_ids<T: NetSet>(s: Seq<T>) -> Seq<(Seq<char>, Seq<char>, Seq<char>)> {
    s.map_values(|t: T| t.set_id())
}

/// Whether a set rule concerns the family of `ip`.
pub open spec fn applies<T>(rule: ConfigForIP<T>, ip: IpAddress) -> bool {
    match rule {
        ConfigForIP::All(_) | ConfigForIP::NoneAll => true,
        ConfigForIP::V4(_) | ConfigForIP::NoneV4 => ip.spec_is_ipv4(),
        ConfigForIP::V6(_) | ConfigForIP::NoneV6 => !ip.spec_is_ipv4(),
    }
}

/// Whether some rule concerns the family of `ip`.
pub open spec fn any_applies<T>(rules: Seq<ConfigForIP<T>>, ip: IpAddress) -> bool {
    exists|i: int| 0 <= i < rules.len() && applies(#[trigger] rules[i], ip)
}

fn rule_applies<T>(rule: &ConfigForIP<T>, ip: &IpAddress) -> (r: bool)
    ensures
        r == applies(*rule, *ip),
{
    match rule {
        ConfigForIP::All(_) | ConfigForIP::NoneAll => true,
        ConfigForIP::V4(_) | ConfigForIP::NoneV4 => ip.is_ipv4(),
        ConfigForIP::V6(_) | ConfigForIP::NoneV6 => !ip.is_ipv4(),
    }
}

fn some_applies<T>(rules: &Vec<ConfigForIP<T>>, ip: &IpAddress) -> (r: bool)
    ensures
        r == any_applies(rules@, *ip),
{
    let mut i: usize = 0;
    while i < rules.len()
        invariant
            i <= rules@.len(),
            forall|j: int| 0 <= j < i ==> !applies(#[trigger] rules@[j], *ip),
        decreases rules.len() - i,
    {
        if rule_applies(&rules[i], ip) {
            return true;
        }
        i = i + 1;
    }
    false
}

/// The rules for sets of kind `T` that apply to `ip` up the zone chain from
/// the node `i`: those of the first node with a rule for the family of `ip`.
pub open spec fn chain_sets<T: NetSet>(nodes: Seq<DomainRuleTreeNode>, i: int, ip: IpAddress) -> Option<Seq<ConfigForIP<T>>>
    decreases i,
{
    if !(0 <= i < nodes.len()) {
        None
    } else {
        let own = match T::spec_domain_rules(nodes[i].rule) {
            Some(v) => if any_applies(v@, ip) { Some(v@) } else { None },
            None => None,
        };
        match own {
            Some(s) => Some(s),
            None => match nodes[i].zone {
                Some(z) => if (z as int) < i { chain_sets::<T>(nodes, z as int, ip) } else { None },
                None => None,
            },
        }
    }
}

/// The domain rules for sets of kind `T` from an optional start node.
pub open spec fn domain_chain<T: NetSet>(nodes: Seq<DomainRuleTreeNode>, start: Option<usize>, ip: IpAddress) -> Option<Seq<ConfigForIP<T>>> {
    match start {
        Some(i) => chain_sets::<T>(nodes, i as int, ip),
        None => None,
    }
}

/// Whether a rule suppresses sets for the family of `ip`.
pub open spec fn suppresses<T>(rule: ConfigForIP<T>, ip: IpAddress) -> bool {
    match rule {
        ConfigForIP::NoneAll => true,
        ConfigForIP::NoneV4 => ip.spec_is_ipv4(),
        ConfigForIP::NoneV6 => !ip.spec_is_ipv4(),
        _ => false,
    }
}

/// The set a rule names for the family of `ip`.
pub open spec fn rule_set<T>(rule: ConfigForIP<T>, ip: IpAddress) -> Option<T> {
    match rule {
        ConfigForIP::All(s) => Some(s),
        ConfigForIP::V4(s) => if ip.spec_is_ipv4() { Some(s) } else { None },
        ConfigForIP::V6(s) => if !ip.spec_is_ipv4() { Some(s) } else { None },
        _ => None,
    }
}

/// The sets the rules of a layer name for `ip`, in order.
pub open spec fn picked<T>(layer: Seq<ConfigForIP<T>>, ip: IpAddress) -> Seq<T>
    decreases layer.len(),
{
    if layer.len() == 0 {
        Seq::empty()
    } else {
        let rest = picked(layer.drop_last(), ip);
        match rule_set(layer.last(), ip) {
            Some(s) => rest.push(s),
            None => rest,
        }
    }
}

/// Whether some rule of a layer suppresses sets for `ip`.
pub open spec fn suppressed<T>(layer: Seq<ConfigForIP<T>>, ip: IpAddress) -> bool {
    exists|i: int| 0 <= i < layer.len() && suppresses(#[trigger] layer[i], ip)
}

/// What a layer of rules decides for `ip`: `Some` ends the selection with
/// its sets (none when a rule suppresses them); `None` passes to the next
/// layer.
pub open spec fn layer_choice<T>(layer: Option<Seq<ConfigForIP<T>>>, ip: IpAddress) -> Option<Seq<T>> {
    match layer {
        None => None,
        Some(l) => if suppressed(l, ip) {
            Some(Seq::empty())
        } else if picked(l, ip).len() > 0 {
            Some(picked(l, ip))
        } else {
            None
        },
    }
}

/// The sets for `ip` from three layers of rules, the first that decides.
pub open spec fn select_sets<T>(ip: IpAddress, a: Option<Seq<ConfigForIP<T>>>, b: Option<Seq<ConfigForIP<T>>>,
    c: Option<Seq<ConfigForIP<T>>>) -> Seq<T>
{
    match layer_choice(a, ip) {
        Some(s) => s,
        None => match layer_choice(b, ip) {
            Some(s) => s,
            None => match layer_choice(c, ip) {
                Some(s) => s,
                None => Seq::empty(),
            },
        },
    }
}

proof fn lemma_set_ids_push<T: NetSet>(s: Seq<T>, x: T)
    ensures
        set_ids(s.push(x)) == set_ids(s).push(x.set_id()),
{
    assert(set_ids(s.push(x)) =~= set_ids(s).push(x.set_id()));
}

/// What one layer decides for `ip`.
fn pick_layer<T: NetSet>(layer: &Vec<ConfigForIP<T>>, ip: &IpAddress) -> (r: Option<Vec<T>>)
    ensures
        match layer_choice(Some(layer@), *ip) {
            Some(s) => r matches Some(v) && set_ids(v@) == set_ids(s),
            None => r is None,
        },
{
    let mut sets: Vec<T> = Vec::new();
    let mut i: usize = 0;
    while i < layer.len()
        invariant
            i <= layer@.len(),
            set_ids(sets@) == set_ids(picked(layer@.take(i as int), *ip)),
            forall|j: int| 0 <= j < i ==> !suppresses(#[trigger] layer@[j], *ip),
        decreases layer.len() - i,
    {
        assert(layer@.take(i as int + 1).drop_last() =~= layer@.take(i as int));
        assert(layer@.take(i as int + 1).last() == layer@[i as int]);
        match &layer[i] {
            ConfigForIP::NoneAll => {
                assert(suppresses(layer@[i as int], *ip));
                return Some(Vec::new());
            },
            ConfigForIP::NoneV4 => {
                if ip.is_ipv4() {
                    assert(suppresses(layer@[i as int], *ip));
                    return Some(Vec::new());
                }
            },
            ConfigForIP::NoneV6 => {
                if !ip.is_ipv4() {
                    assert(suppresses(layer@[i as int], *ip));
                    return Some(Vec::new());
                }
            },
            ConfigForIP::All(s) => {
                proof { lemma_set_ids_push(sets@, *s); }
                sets.push(s.copy());
                proof { lemma_set_ids_push(picked(layer@.take(i as int), *ip), *s); }
            },
            ConfigForIP::V4(s) => {
                if ip.is_ipv4() {
                    proof { lemma_set_ids_push(picked(layer@.take(i as int), *ip), *s); }
                    let c = s.copy();
                    proof { lemma_set_ids_push(sets@, c); }
                    sets.push(c);
                }
            },
            ConfigForIP::V6(s) => {
                if !ip.is_ipv4() {
                    proof { lemma_set_ids_push(picked(layer@.take(i as int), *ip), *s); }
                    let c = s.copy();
                    proof { lemma_set_ids_push(sets@, c); }
                    sets.push(c);
                }
            },
        }
        i = i + 1;
    }
    assert(layer@.take(layer@.len() as int) =~= layer@);
    if sets.len() > 0 {
        Some(sets)
    } else {
        None
    }
}

/// The sets for `ip` from three layers of rules, the first that decides.
fn select_layers<T: NetSet>(ip: &IpAddress, a: Option<&Vec<ConfigForIP<T>>>, b: Option<&Vec<ConfigForIP<T>>>,
    c: Option<&Vec<ConfigForIP<T>>>) -> (r: Vec<T>)
    ensures
        set_ids(r@) == set_ids(select_sets(*ip, rules_view(a), rules_view(b), rules_view(c))),
{
    if let Some(l) = a {
        if let Some(v) = pick_layer(l, ip) {
            return v;
        }
    }
    if let Some(l) = b {
        if let Some(v) = pick_layer(l, ip) {
            return v;
        }
    }
    if let Some(l) = c {
        if let Some(v) = pick_layer(l, ip) {
            return v;
        }
    }
    assert(set_ids(Seq::<T>::empty()) =~= Seq::empty());
    Vec::new()
}

/// The rules for sets of kind `T` up the zone chain from `start`.
fn chain_rules<'a, T: NetSet>(rules: &'a DomainRuleMap, start: Option<usize>, ip: &IpAddress)
    -> (r: Option<&'a Vec<ConfigForIP<T>>>)
    requires
        rules.wf(),
    ensures
        rules_view(r) == domain_chain::<T>(rules.spec_nodes(), start, *ip),
{
    let mut node = start;
    while node.is_some()
        invariant
            rules.wf(),
            domain_chain::<T>(rules.spec_nodes(), start, *ip) == domain_chain::<T>(rules.spec_nodes(), node, *ip),
        decreases match node {
            Some(i) => i as int + 1,
            None => 0,
        },
    {
        let i = match node {
            Some(i) => i,
            None => 0,
        };
        if i >= rules.len() {
            node = None;
        } else {
            let n = rules.node(i);
            proof {
                rules.lemma_zone_range(i as int);
            }
            let own = T::domain_rules(&n.rule);
            if let Some(v) = own {
                if some_applies(v, ip) {
                    return Some(v);
                }
            }
            node = n.zone;
        }
    }
    None
}

/// A setting of the rule group, else of the default group.
pub open spec fn group_pick<X>(g: Option<X>, d: Option<X>) -> Option<X> {
    match g {
        Some(x) => Some(x),
        None => d,
    }
}

/// The options of an optional group, by value.
pub open spec fn options_of(g: Option<&NetworkSetOptions>) -> Option<NetworkSetOptions> {
    match g {
        Some(n) => Some(*n),
        None => None,
    }
}

/// The fallback rules of kind `T` of a group.
pub open spec fn group_fallback<T: NetSet>(g: Option<NetworkSetOptions>) -> Option<Seq<ConfigForIP<T>>> {
    match g {
        Some(n) => rules_seq(T::spec_fallback(n)),
        None => None,
    }
}

/// The timeout flag of kind `T` of a group.
pub open spec fn group_timeout<T: NetSet>(g: Option<NetworkSetOptions>) -> Option<bool> {
    match g {
        Some(n) => T::spec_timeout(n),
        None => None,
    }
}

/// Where the sets for the answer to a request come from.
pub struct SetPlan {
    /// The nodes of the request's rule group and the request's node.
    pub nodes: Seq<DomainRuleTreeNode>,
    pub node: Option<usize>,
    /// The nodes of the default group and the node of the asked name there.
    pub default_nodes: Seq<DomainRuleTreeNode>,
    pub default_node: Option<usize>,
    pub opts: ServerOpts,
    /// The network set options of the request's rule group and of the
    /// default group.
    pub group: Option<NetworkSetOptions>,
    pub default: Option<NetworkSetOptions>,
    /// The probe of the answer's addresses failed.
    pub failed: bool,
}

/// The fallback rules of kind `T`: those of the rule group, else of the
/// default group, and only when the probe failed.
pub open spec fn fallback_rules<T: NetSet>(p: SetPlan) -> Option<Seq<ConfigForIP<T>>> {
    if p.failed {
        group_pick(group_fallback::<T>(p.group), group_fallback::<T>(p.default))
    } else {
        None
    }
}

/// Whether additions to sets of kind `T` carry a timeout.
pub open spec fn timeout_on<T: NetSet>(p: SetPlan) -> bool {
    flag(group_pick(group_timeout::<T>(p.group), group_timeout::<T>(p.default)))
}

/// The sets of kind `T` an address is added to: the domain rules of the
/// request's node (else of the default group's node for the name), then
/// the server options, then the fallback.
pub open spec fn sets_for<T: NetSet>(p: SetPlan, ip: IpAddress) -> Seq<T> {
    let dom = group_pick(domain_chain::<T>(p.nodes, p.node, ip), domain_chain::<T>(p.default_nodes, p.default_node, ip));
    select_sets(ip, dom, rules_seq(T::spec_server_rules(p.opts)), fallback_rules::<T>(p))
}

/// The timeout of an addition for a record with TTL `ttl`: three TTLs,
/// at least one second.
pub open spec fn set_timeout(ttl: u32) -> u32 {
    if ttl * 3 > u32::MAX {
        u32::MAX
    } else if ttl == 0 {
        1
    } else {
        (ttl * 3) as u32
    }
}

/// The additions of `ip` to sets with the given names.
pub open spec fn updates_of(ids: Seq<(Seq<char>, Seq<char>, Seq<char>)>, nft: bool, ip: IpAddress, timeout: u32) -> Seq<SetUpdateV> {
    Seq::new(ids.len(), |k: int| SetUpdateV { nft, id: ids[k], ip, timeout })
}

/// The additions of kind `T` for an address record.
pub open spec fn kind_updates<T: NetSet>(p: SetPlan, ip: IpAddress, ttl: u32) -> Seq<SetUpdateV> {
    updates_of(set_ids(sets_for::<T>(p, ip)), T::is_nft(), ip, if timeout_on::<T>(p) { set_timeout(ttl) } else { 0 })
}

/// The additions for a record: none unless it holds an address; IPSet
/// additions, then nftables ones.
pub open spec fn record_updates(p: SetPlan, r: RecordV) -> Seq<SetUpdateV> {
    match rdata_ip(r.data) {
        Some(ip) => kind_updates::<KernelIpSet>(p, ip, r.ttl) + kind_updates::<NFTsetConfig>(p, ip, r.ttl),
        None => Seq::empty(),
    }
}

/// The additions for a list of records, in order.
pub open spec fn all_updates(p: SetPlan, rs: Seq<RecordV>) -> Seq<SetUpdateV>
    decreases rs.len(),
{
    if rs.len() == 0 {
        Seq::empty()
    } else {
        all_updates(p, rs.drop_last()) + record_updates(p, rs.last())
    }
}

/// The name asked in a message (the root when there is no question).
pub open spec fn asked_name(m: MessageV) -> Seq<Seq<u8>> {
    if m.queries.len() > 0 {
        m.queries[0].name
    } else {
        Seq::empty()
    }
}

/// The plan for a request's answer.
pub open spec fn plan_of(ctx: DnsContext, rules: DomainRuleMap, default_rules: DomainRuleMap,
    group: Option<&NetworkSetOptions>, default: Option<&NetworkSetOptions>, response: DnsResponse) -> SetPlan
{
    SetPlan {
        nodes: rules.spec_nodes(),
        node: ctx.domain_rule,
        default_nodes: default_rules.spec_nodes(),
        default_node: zone_index(default_rules.spec_find(asked_name(response.spec_message()))),
        opts: ctx.server_opts,
        group: options_of(group),
        default: options_of(default),
        failed: response.spec_probe() == ProbeResult::Failed,
    }
}

fn set_timeout_of(ttl: u32) -> (r: u32)
    ensures
        r == set_timeout(ttl),
{
    let t = match ttl.checked_mul(3) {
        Some(v) => v,
        None => u32::MAX,
    };
    if t < 1 {
        1
    } else {
        t
    }
}

fn fallback_of<'a, T: NetSet>(group: Option<&'a NetworkSetOptions>, default: Option<&'a NetworkSetOptions>, failed: bool)
    -> (r: Option<&'a Vec<ConfigForIP<T>>>)
    ensures
        rules_view(r) == (if failed {
            group_pick(group_fallback::<T>(options_of(group)), group_fallback::<T>(options_of(default)))
        } else {
            None
        }),
{
    if !failed {
        return None;
    }
    if let Some(g) = group {
        if let Some(v) = T::fallback(g) {
            return Some(v);
        }
    }
    match default {
        Some(d) => T::fallback(d),
        None => None,
    }
}

fn timeout_flag<T: NetSet>(group: Option<&NetworkSetOptions>, default: Option<&NetworkSetOptions>) -> (r: bool)
    ensures
        r == flag(group_pick(group_timeout::<T>(options_of(group)), group_timeout::<T>(options_of(default)))),
{
    if let Some(g) = group {
        if let Some(b) = T::timeout(g) {
            return b;
        }
    }
    match default {
        Some(d) => match T::timeout(d) {
            Some(b) => b,
            None => false,
        },
        None => false,
    }
}

/// Appends the additions of `ip` to each of `sets`.
fn push_updates<T: NetSet>(out: &mut Vec<SetUpdate>, sets: &Vec<T>, ip: IpAddress, timeout: u32)
    ensures
        update_views(final(out)@) == update_views(old(out)@) + updates_of(set_ids(sets@), T::is_nft(), ip, timeout),
{
    let ghost base = update_views(out@);
    let mut k: usize = 0;
    while k < sets.len()
        invariant
            k <= sets@.len(),
            update_views(out@) == base + updates_of(set_ids(sets@.take(k as int)), T::is_nft(), ip, timeout),
        decreases sets.len() - k,
    {
        let u = sets[k].update(ip, timeout);
        proof {
            assert(sets@.take(k as int + 1) =~= sets@.take(k as int).push(sets@[k as int]));
            lemma_set_ids_push(sets@.take(k as int), sets@[k as int]);
        }
        let ghost prev = out@;
        out.push(u);
        proof {
            assert(update_views(out@) =~= update_views(prev).push(u@));
        }
        k = k + 1;
        assert(update_views(out@) =~= base + updates_of(set_ids(sets@.take(k as int)), T::is_nft(), ip, timeout));
    }
    assert(sets@.take(sets@.len() as int) =~= sets@);
}

/// The kernel set additions for the addresses of an answer: none for a
/// background request or when the options turn set rules off; else, for
/// each address record in order, its IPSet additions then its nftables
/// ones. `rules` is the map of the request's rule group (the one
/// `ctx.domain_rule` points into), `default_rules` that of the default
/// group; `group` and `default` are their network set options.
pub fn updates(ctx: &DnsContext, rules: &DomainRuleMap, default_rules: &DomainRuleMap,
    group: Option<&NetworkSetOptions>, default: Option<&NetworkSetOptions>, response: &DnsResponse) -> (r: Vec<SetUpdate>)
    requires
        rules.wf(),
        default_rules.wf(),
    ensures
        update_views(r@) == (if ctx.server_opts.is_background || flag(ctx.server_opts.no_rule_ipset) {
            Seq::empty()
        } else {
            all_updates(plan_of(*ctx, *rules, *default_rules, group, default, *response), response.spec_message().answers)
        }),
{
    if ctx.server_opts.is_background || ctx.server_opts.no_rule_ipset() {
        let out: Vec<SetUpdate> = Vec::new();
        assert(update_views(out@) =~= Seq::empty());
        return out;
    }
    let failed = match response.probe_result() {
        ProbeResult::Failed => true,
        _ => false,
    };
    let fallback_ip = fallback_of::<KernelIpSet>(group, default, failed);
    let fallback_nft = fallback_of::<NFTsetConfig>(group, default, failed);
    let ipset_timeout = timeout_flag::<KernelIpSet>(group, default);
    let nftset_timeout = timeout_flag::<NFTsetConfig>(group, default);
    let query = response.query();
    let default_node = default_rules.find(&query.name);
    let ghost plan = plan_of(*ctx, *rules, *default_rules, group, default, *response);
    let records = response.records();
    let ghost recs = record_views(records@);
    let mut out: Vec<SetUpdate> = Vec::new();
    let mut i: usize = 0;
    assert(update_views(out@) =~= all_updates(plan, recs.take(0)));
    while i < records.len()
        invariant
            rules.wf(),
            default_rules.wf(),
            plan == plan_of(*ctx, *rules, *default_rules, group, default, *response),
            default_node == plan.default_node,
            rules_view(fallback_ip) == fallback_rules::<KernelIpSet>(plan),
            rules_view(fallback_nft) == fallback_rules::<NFTsetConfig>(plan),
            ipset_timeout == timeout_on::<KernelIpSet>(plan),
            nftset_timeout == timeout_on::<NFTsetConfig>(plan),
            recs == record_views(records@),
            i <= records@.len(),
            update_views(out@) == all_updates(plan, recs.take(i as int)),
        decreases records.len() - i,
    {
        let rec = &records[i];
        proof {
            assert(recs.take(i as int + 1).drop_last() =~= recs.take(i as int));
            assert(recs.take(i as int + 1).last() == rec@);
        }
        let ghost before = update_views(out@);
        match rec.data.ip_addr() {
            Some(ip) => {
                let timeout = set_timeout_of(rec.ttl);
                let ip_dom = match chain_rules::<KernelIpSet>(rules, ctx.domain_rule, &ip) {
                    Some(v) => Some(v),
                    None => chain_rules::<KernelIpSet>(default_rules, default_node, &ip),
                };
                let ip_sets = select_layers(&ip, ip_dom, KernelIpSet::server_rules(&ctx.server_opts), fallback_ip);
                push_updates(&mut out, &ip_sets, ip, if ipset_timeout { timeout } else { 0 });
                let ghost mid = update_views(out@);
                let nft_dom = match chain_rules::<NFTsetConfig>(rules, ctx.domain_rule, &ip) {
                    Some(v) => Some(v),
                    None => chain_rules::<NFTsetConfig>(default_rules, default_node, &ip),
                };
                let nft_sets = select_layers(&ip, nft_dom, NFTsetConfig::server_rules(&ctx.server_opts), fallback_nft);
                push_updates(&mut out, &nft_sets, ip, if nftset_timeout { timeout } else { 0 });
                proof {
                    let a = kind_updates::<KernelIpSet>(plan, ip, rec.ttl);
                    let b = kind_updates::<NFTsetConfig>(plan, ip, rec.ttl);
                    assert(mid == before + a);
                    assert(update_views(out@) == mid + b);
                    assert(update_views(out@) =~= before + (a + b));
                }
            },
            None => {
                assert(record_updates(plan, rec@) =~= Seq::empty());
                assert(update_views(out@) =~= before + Seq::empty());
            },
        }
        i = i + 1;
    }
    assert(recs.take(records@.len() as int) =~= recs);
    out
}

/// Whether a server's options add addresses to sets.
pub open spec fn opts_have_sets(o: ServerOpts) -> bool {
    o.ipset is Some || o.nftset is Some
}

/// Whether a rule group adds addresses to sets.
pub open spec fn group_has_sets(g: RuleGroup) -> bool {
    ||| g.nftsets.len() > 0
    ||| g.network_sets.ipset_no_speed is Some
    ||| g.network_sets.nftset_no_speed is Some
    ||| exists|i: int| 0 <= i < g.domain_rules.len()
        && (#[trigger] g.domain_rules@[i]).config.ipset is Some
    ||| exists|i: int| 0 <= i < g.domain_rules.len()
        && (#[trigger] g.domain_rules@[i]).config.nftset is Some
}

fn some_opts_have_sets(opts: &Vec<ServerOpts>) -> (r: bool)
    ensures
        r == exists|i: int| 0 <= i < opts.len() && opts_have_sets(#[trigger] opts@[i]),
{
    let mut i: usize = 0;
    while i < opts.len()
        invariant
            i <= opts.len(),
            forall|j: int| 0 <= j < i ==> !opts_have_sets(#[trigger] opts@[j]),
        decreases opts.len() - i,
    {
        if opts[i].ipset.is_some() || opts[i].nftset.is_some() {
            assert(opts_have_sets(opts@[i as int]));
            return true;
        }
        i = i + 1;
    }
    false
}

fn group_sets_on(g: &RuleGroup) -> (r: bool)
    ensures
        r == group_has_sets(*g),
{
    if g.nftsets.len() > 0 || g.network_sets.ipset_no_speed.is_some() || g.network_sets.nftset_no_speed.is_some() {
        return true;
    }
    let mut i: usize = 0;
    while i < g.domain_rules.len()
        invariant
            i <= g.domain_rules.len(),
            forall|j: int| 0 <= j < i ==> (#[trigger] g.domain_rules@[j]).config.ipset is None
                && g.domain_rules@[j].config.nftset is None,
        decreases g.domain_rules.len() - i,
    {
        if g.domain_rules[i].config.ipset.is_some() || g.domain_rules[i].config.nftset.is_some() {
            return true;
        }
        i = i + 1;
    }
    false
}

/// The middleware that adds the addresses of answers to kernel sets.
pub struct DnsNftsetMiddleware;

impl DnsNftsetMiddleware {
    /// Whether any part of the configuration adds addresses to sets: the
    /// options of a listener or of a client rule, or a rule group's
    /// domain set rules, fallback sets or domain rules.
    pub fn is_configured(binds: &Vec<ServerOpts>, client_rules: &Vec<ServerOpts>, groups: &Vec<RuleGroup>) -> (r: bool)
        ensures
            r == ((exists|i: int| 0 <= i < binds.len() && opts_have_sets(#[trigger] binds@[i]))
                || (exists|i: int| 0 <= i < client_rules.len() && opts_have_sets(#[trigger] client_rules@[i]))
                || (exists|i: int| 0 <= i < groups.len() && group_has_sets(#[trigger] groups@[i]))),
    {
        if some_opts_have_sets(binds) || some_opts_have_sets(client_rules) {
            return true;
        }
        let mut i: usize = 0;
        while i < groups.len()
            invariant
                i <= groups.len(),
                forall|j: int| 0 <= j < i ==> !group_has_sets(#[trigger] groups@[j]),
            decreases groups.len() - i,
        {
            if group_sets_on(&groups[i]) {
                return true;
            }
            i = i + 1;
        }
        false
    }
}

} // verus!
