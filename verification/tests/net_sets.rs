use smartdns::config::{
    ConfigForDomain, ConfigForIP, Domain, DomainRule, KernelIpSet, NFTsetConfig, NetworkSetOptions, RuleGroup,
    ServerOpts,
};
use smartdns::context::DnsContext;
use smartdns::dns_rule::DomainRuleMap;
use smartdns::message::{Name, Query, RData, Record, RecordType};
use smartdns::net::IpAddress;
use smartdns::net_sets::{updates, DnsNftsetMiddleware, SetUpdate};
use smartdns::response::{DnsResponse, ProbeResult};

fn name(text: &str) -> Name {
    Name::from_ascii(text).unwrap()
}

fn nft(family: &str, table: &str, set: &str) -> NFTsetConfig {
    NFTsetConfig { family: family.to_string(), table: table.to_string(), name: set.to_string() }
}

fn nft_rule(domain: &str, sets: Vec<ConfigForIP<NFTsetConfig>>) -> ConfigForDomain<Vec<ConfigForIP<NFTsetConfig>>> {
    ConfigForDomain { domain: Domain::Name(name(domain)), config: sets }
}

fn map(domain_rules: Vec<ConfigForDomain<DomainRule>>, nftsets: Vec<ConfigForDomain<Vec<ConfigForIP<NFTsetConfig>>>>) -> DomainRuleMap {
    DomainRuleMap::create(&domain_rules, &Vec::new(), &Vec::new(), &Vec::new(), &Vec::new(), &Vec::new(), &Vec::new(), &nftsets)
}

fn net_options() -> NetworkSetOptions {
    NetworkSetOptions { ipset_timeout: None, nftset_timeout: None, ipset_no_speed: None, nftset_no_speed: None }
}

fn is_nft(u: &SetUpdate, set_name: &str, timeout: u32) -> bool {
    matches!(u, SetUpdate::NftSet(s, _, t) if s.name == set_name && *t == timeout)
}

#[test]
fn test_set_rule_precedence_timeout_and_probe_fallback() {
    let mut rule = DomainRule::new();
    rule.ipset = Some(vec![ConfigForIP::V4(KernelIpSet("route4".to_string())), ConfigForIP::NoneV6]);
    let rules = map(
        vec![ConfigForDomain { domain: Domain::Name(name("selected.example")), config: rule }],
        vec![nft_rule("selected.example", vec![ConfigForIP::V4(nft("inet", "fw4", "route4"))])],
    );
    let mut default = net_options();
    default.nftset_timeout = Some(true);
    default.ipset_timeout = Some(true);
    default.nftset_no_speed =
        Some(vec![ConfigForIP::V4(nft("inet", "fw4", "failed4")), ConfigForIP::V6(nft("inet", "fw4", "failed6"))]);
    let query = Query::query(name("selected.example."), RecordType::A);
    let mut ctx = DnsContext::new(&query.name, &rules, ServerOpts::new());
    let ip = IpAddress::V4([192, 0, 2, 1]);
    let records = vec![Record::from_rdata(name("selected.example."), 30, RData::A([192, 0, 2, 1]))];
    let response = DnsResponse::new_with_max_ttl(query, records).with_probe_result(ProbeResult::Failed);
    let result = updates(&ctx, &rules, &rules, None, Some(&default), &response);
    assert!(matches!(&result[0], SetUpdate::IpSet(s, i, 90) if s.0 == "route4" && *i == ip));
    assert!(matches!(&result[1], SetUpdate::NftSet(s, i, 90)
        if s.family == "inet" && s.table == "fw4" && s.name == "route4" && *i == ip));

    ctx.domain_rule = None;
    let unmatched = |probe: ProbeResult| {
        let records = vec![Record::from_rdata(name("unmatched.example."), 30, RData::A([192, 0, 2, 1]))];
        DnsResponse::new_with_max_ttl(Query::query(name("unmatched.example."), RecordType::A), records)
            .with_probe_result(probe)
    };
    assert!(is_nft(&updates(&ctx, &rules, &rules, None, Some(&default), &unmatched(ProbeResult::Failed))[0], "failed4", 90));
    assert!(updates(&ctx, &rules, &rules, None, Some(&default), &unmatched(ProbeResult::Unchecked)).is_empty());
    assert!(updates(&ctx, &rules, &rules, None, Some(&default), &unmatched(ProbeResult::Measured(1000))).is_empty());
    ctx.server_opts.no_rule_ipset = Some(true);
    assert!(updates(&ctx, &rules, &rules, None, Some(&default), &unmatched(ProbeResult::Failed)).is_empty());
}

#[test]
fn test_set_family_inheritance_and_rule_group_scope() {
    let global = map(
        Vec::new(),
        vec![
            nft_rule("example", vec![ConfigForIP::V6(nft("inet", "fw4", "global6"))]),
            nft_rule("child.example", vec![ConfigForIP::V4(nft("inet", "fw4", "global4"))]),
        ],
    );
    let work = map(Vec::new(), vec![nft_rule("example", vec![ConfigForIP::V4(nft("inet", "fw4", "work4"))])]);
    let default_net = net_options();
    let work_net = net_options();
    let query = Query::query(name("child.example."), RecordType::ANY);
    let records = vec![
        Record::from_rdata(name("child.example."), 30, RData::A([192, 0, 2, 4])),
        Record::from_rdata(name("child.example."), 30, RData::AAAA([0x20, 0x01, 0x0d, 0xb8, 0, 0, 0, 0, 0, 0, 0, 0, 0, 0, 0, 4])),
    ];
    let response = DnsResponse::new_with_max_ttl(query.clone(), records);
    for (in_work, expected4) in [(false, "global4"), (true, "work4")] {
        let mut opts = ServerOpts::new();
        let (rules, group) = if in_work {
            opts.rule_group = Some("work".to_string());
            (&work, Some(&work_net))
        } else {
            (&global, None)
        };
        let ctx = DnsContext::new(&query.name, rules, opts);
        let result = updates(&ctx, rules, &global, group, Some(&default_net), &response);
        assert!(matches!(&result[0], SetUpdate::NftSet(s, _, _) if s.name == expected4));
        assert!(matches!(&result[1], SetUpdate::NftSet(s, _, _) if s.name == "global6"));
    }
}

#[test]
fn test_all_network_set_configuration_sources_enable_middleware() {
    let plain = ServerOpts::new();
    assert!(!DnsNftsetMiddleware::is_configured(&vec![plain], &Vec::new(), &vec![RuleGroup::empty()]));

    let mut with_rule_ipset = RuleGroup::empty();
    let mut rule = DomainRule::new();
    rule.ipset = Some(vec![ConfigForIP::All(KernelIpSet("route4".to_string()))]);
    with_rule_ipset.domain_rules.push(ConfigForDomain { domain: Domain::Name(name("example")), config: rule });
    let mut with_rule_nftset = RuleGroup::empty();
    let mut rule = DomainRule::new();
    rule.nftset = Some(vec![ConfigForIP::V4(nft("inet", "fw4", "route4"))]);
    with_rule_nftset.domain_rules.push(ConfigForDomain { domain: Domain::Name(name("example")), config: rule });
    let mut with_nftsets = RuleGroup::empty();
    with_nftsets.nftsets.push(nft_rule("example", vec![ConfigForIP::V4(nft("inet", "fw4", "route4"))]));
    let mut with_ipset_fallback = RuleGroup::empty();
    with_ipset_fallback.network_sets.ipset_no_speed = Some(vec![ConfigForIP::All(KernelIpSet("route4".to_string()))]);
    let mut with_nftset_fallback = RuleGroup::empty();
    with_nftset_fallback.network_sets.nftset_no_speed = Some(vec![ConfigForIP::V4(nft("inet", "fw4", "route4"))]);
    for group in [with_rule_ipset, with_rule_nftset, with_nftsets, with_ipset_fallback, with_nftset_fallback] {
        assert!(DnsNftsetMiddleware::is_configured(&Vec::new(), &Vec::new(), &vec![group]));
    }
    let mut bind = ServerOpts::new();
    bind.ipset = Some(vec![ConfigForIP::All(KernelIpSet("route4".to_string()))]);
    assert!(DnsNftsetMiddleware::is_configured(&vec![bind], &Vec::new(), &Vec::new()));
    let mut client = ServerOpts::new();
    client.nftset = Some(vec![ConfigForIP::V4(nft("inet", "fw4", "route4"))]);
    assert!(DnsNftsetMiddleware::is_configured(&Vec::new(), &vec![client], &Vec::new()));
}
