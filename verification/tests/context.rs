use smartdns::config::{ConfigForDomain, Domain, DomainRule, ServerOpts};
use smartdns::context::DnsContext;
use smartdns::dns_rule::DomainRuleMap;
use smartdns::message::Name;
use smartdns::ns_select::{ResponseMode, SpeedCheckMode};

fn name(text: &str) -> Name {
    Name::from_ascii(text).unwrap()
}

fn rules() -> DomainRuleMap {
    let mut parent = DomainRule::new();
    parent.response_mode = Some(ResponseMode::FastestIp);
    parent.nameserver = Some("remote".to_string());
    let mut child = DomainRule::new();
    child.speed_check_mode = Some(vec![SpeedCheckMode::Ping]);
    let rules = vec![
        ConfigForDomain { domain: Domain::Name(name("example.com")), config: parent },
        ConfigForDomain { domain: Domain::Name(name("www.example.com")), config: child },
    ];
    DomainRuleMap::create(&rules, &Vec::new(), &Vec::new(), &Vec::new(), &Vec::new(), &Vec::new(), &Vec::new(), &Vec::new())
}

#[test]
fn address_lookups_take_modes_from_the_rule_and_its_zone() {
    let map = rules();
    let n = name("www.example.com");
    let ctx = DnsContext::new(&n, &map, ServerOpts::new());
    let plan = ctx.lookup_plan(&map, &n, true, false, ResponseMode::FirstPing, &Some(vec![SpeedCheckMode::Tcp(80)]));
    assert_eq!(plan.group.as_deref(), Some("remote"));
    assert!(!plan.mdns_first);
    let ip = plan.ip.unwrap();
    assert_eq!(ip.strategy, ResponseMode::FastestIp);
    assert_eq!(ip.speed_check, Some(vec![SpeedCheckMode::Ping]));
    assert!(!ip.no_speed_check);
    let other = ctx.lookup_plan(&map, &n, false, false, ResponseMode::FirstPing, &None);
    assert!(other.ip.is_none());
}

#[test]
fn unruled_names_use_the_configuration_and_background_requests_probe_all() {
    let map = rules();
    let n = name("printer.local");
    let ctx = DnsContext::new(&n, &map, ServerOpts::new());
    let plan = ctx.lookup_plan(&map, &n, true, true, ResponseMode::FirstPing, &None);
    assert_eq!(plan.group.as_deref(), Some("default"));
    assert!(plan.mdns_first);
    let ip = plan.ip.unwrap();
    assert_eq!(ip.strategy, ResponseMode::FirstPing);
    assert_eq!(ip.speed_check, None);
    let mut opts = ServerOpts::new();
    opts.is_background = true;
    let background = DnsContext::new(&n, &map, opts);
    let plan = background.lookup_plan(&map, &n, true, false, ResponseMode::FirstPing, &None);
    assert_eq!(plan.ip.unwrap().strategy, ResponseMode::FastestIp);
    assert!(!plan.mdns_first);
    let mut opts = ServerOpts::new();
    opts.no_rule_nameserver = Some(true);
    let direct = DnsContext::new(&n, &map, opts);
    let plan = direct.lookup_plan(&map, &n, true, true, ResponseMode::FirstPing, &None);
    assert!(plan.group.is_none() && plan.ip.is_none() && !plan.mdns_first);
}
