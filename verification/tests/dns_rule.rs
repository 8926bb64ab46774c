use smartdns::config::{AddressRule, AddressRuleValue, Domain};
use smartdns::dns_rule::DomainRuleMap;
use smartdns::message::Name;

fn name(text: &str) -> Name {
    Name::from_ascii(text).unwrap()
}

fn v4_rule(domain: &str, address: [u8; 4]) -> AddressRule {
    AddressRule {
        domain: Domain::Name(name(domain)),
        address: AddressRuleValue::Addr { v4: Some(vec![address]), v6: None },
    }
}

fn v4_of(map: &DomainRuleMap, node: usize) -> Option<Vec<[u8; 4]>> {
    match &map.node(node).rule.address {
        Some(AddressRuleValue::Addr { v4, v6: None }) => v4.clone(),
        _ => None,
    }
}

#[test]
fn test_zone_rule() {
    let map = DomainRuleMap::create(
        &Vec::new(),
        &vec![
            v4_rule("a.b.c.www.example.com", [127, 0, 0, 2]),
            v4_rule("www.example.com", [127, 0, 0, 1]),
            v4_rule("example.com", [127, 0, 0, 1]),
        ],
        &Vec::new(),
        &Vec::new(),
        &Vec::new(),
        &Vec::new(),
        &Vec::new(),
        &Vec::new(),
    );

    let rule1 = map.find(&name("z.a.b.c.www.example.com"));
    assert!(rule1.is_some());
    assert_eq!(v4_of(&map, rule1.unwrap()), Some(vec![[127, 0, 0, 2]]));

    let rule2 = map.find(&name("www.example.com"));
    assert_eq!(v4_of(&map, rule2.unwrap()), Some(vec![[127, 0, 0, 1]]));

    assert_eq!(map.node(rule1.unwrap()).zone(), rule2);
}

#[test]
fn names_find_their_longest_suffix_without_regard_to_case() {
    let map = DomainRuleMap::create(
        &Vec::new(),
        &vec![v4_rule("Example.COM", [192, 0, 2, 1]), v4_rule("deep.example.com", [192, 0, 2, 2])],
        &Vec::new(),
        &Vec::new(),
        &Vec::new(),
        &Vec::new(),
        &Vec::new(),
        &Vec::new(),
    );
    assert_eq!(map.len(), 2);
    let top = map.find(&name("www.EXAMPLE.com")).unwrap();
    assert_eq!(v4_of(&map, top), Some(vec![[192, 0, 2, 1]]));
    let deep = map.find(&name("x.Deep.example.com")).unwrap();
    assert_eq!(v4_of(&map, deep), Some(vec![[192, 0, 2, 2]]));
    assert_eq!(map.node(deep).zone(), Some(top));
    assert_eq!(map.node(top).zone(), None);
    assert_eq!(map.find(&name("example.org")), None);
}

fn ns_rule(domain: &str, nameserver: &str, ttl_min: Option<u64>, ttl_max: Option<u64>) -> smartdns::config::ConfigForDomain<smartdns::config::DomainRule> {
    let mut rule = smartdns::config::DomainRule::new();
    rule.nameserver = Some(nameserver.to_string());
    rule.rr_ttl_min = ttl_min;
    rule.rr_ttl_max = ttl_max;
    smartdns::config::ConfigForDomain { domain: Domain::Name(name(domain)), config: rule }
}

#[test]
fn shared_rules_keep_domain_overrides_independent() {
    let mut rules = Vec::new();
    for domain in ["a.example", "b.example", "c.example"] {
        rules.push(ns_rule(domain, "remote", Some(10), None));
    }
    rules.push(ns_rule("a.example", "domestic", None, Some(50)));
    let forwards = vec![smartdns::config::ForwardRule {
        domain: Domain::Name(name("a.example")),
        nameserver: "forward".to_string(),
    }];
    let map = DomainRuleMap::create(&rules, &Vec::new(), &forwards, &Vec::new(), &Vec::new(), &Vec::new(), &Vec::new(), &Vec::new());
    let a = &map.node(map.find(&name("a.example")).unwrap()).rule;
    let b = &map.node(map.find(&name("b.example")).unwrap()).rule;
    let c = &map.node(map.find(&name("c.example")).unwrap()).rule;

    assert_eq!(a.nameserver.as_deref(), Some("forward"));
    assert_eq!((a.rr_ttl_min, a.rr_ttl_max), (Some(10), Some(50)));
    assert_eq!(b.nameserver.as_deref(), Some("remote"));
    assert_eq!((b.rr_ttl_min, b.rr_ttl_max), (Some(10), None));
    assert_eq!(
        (b.nameserver.as_deref(), b.rr_ttl_min, b.rr_ttl_max),
        (c.nameserver.as_deref(), c.rr_ttl_min, c.rr_ttl_max)
    );
    assert_ne!(
        (a.nameserver.as_deref(), a.rr_ttl_max),
        (b.nameserver.as_deref(), b.rr_ttl_max)
    );
}

#[test]
fn alias_srv_and_https_rules_reach_their_domains() {
    let cnames = vec![smartdns::config::ConfigForDomain { domain: Domain::Name(name("alias.example")), config: name("target.example") }];
    let srvs = vec![smartdns::config::ConfigForDomain {
        domain: Domain::Name(name("_sip._udp.example")),
        config: smartdns::config::SrvTarget { priority: 1, weight: 2, port: 5060, target: name("sip.example") },
    }];
    let https = vec![smartdns::config::ConfigForDomain { domain: Domain::Name(name("alias.example")), config: vec![0, 1, 0] }];
    let map = DomainRuleMap::create(&Vec::new(), &Vec::new(), &Vec::new(), &Vec::new(), &cnames, &srvs, &https, &Vec::new());
    assert_eq!(map.len(), 2);
    let alias = &map.node(map.find(&name("www.alias.example")).unwrap()).rule;
    assert_eq!(alias.cname, Some(name("target.example")));
    assert_eq!(alias.https, Some(vec![0, 1, 0]));
    assert!(alias.srv.is_none());
    let sip = &map.node(map.find(&name("_sip._udp.example")).unwrap()).rule;
    assert_eq!(sip.srv.as_ref().map(|t| (t.priority, t.weight, t.port)), Some((1, 2, 5060)));
    assert!(sip.cname.is_none());
}
