use smartdns::config::{ConfigForDomain, Domain, DomainRule, RuleGroup, ServerOpts};
use smartdns::context::DnsContext;
use smartdns::dns_rule::DomainRuleMap;
use smartdns::dualstack::{
    nodata_response, ping_verdict, plan, probe_verdict, settle, threshold_micros, DnsDualStackIpSelectionMiddleware,
    DualStackPlan,
};
use smartdns::message::{Name, Query, RData, RecordType, ResponseCode};
use smartdns::ns_select::SpeedCheckMode;
use smartdns::response::{DnsResponse, ProbeResult};

fn name(text: &str) -> Name {
    Name::from_ascii(text).unwrap()
}

fn group_with(selection: Option<bool>) -> RuleGroup {
    let mut g = RuleGroup::empty();
    if let Some(b) = selection {
        let mut rule = DomainRule::new();
        rule.dualstack_ip_selection = Some(b);
        g.domain_rules.push(ConfigForDomain { domain: Domain::Name(name("example")), config: rule });
    }
    g
}

#[test]
fn configured_detection_keeps_domain_and_group_overrides() {
    let cases: Vec<(bool, Vec<RuleGroup>, bool)> = vec![
        (false, vec![group_with(None)], false),
        (true, vec![group_with(None)], true),
        (false, vec![group_with(Some(true))], true),
        (false, vec![group_with(Some(false))], false),
        (false, vec![group_with(None), group_with(Some(true))], true),
    ];
    for (global, groups, expected) in cases {
        assert_eq!(DnsDualStackIpSelectionMiddleware::is_configured(global, &groups), expected);
    }
}

#[test]
fn plan_races_only_address_queries_with_probe_modes() {
    let rules = DomainRuleMap::empty();
    let ctx = DnsContext::new(&name("dualstack.example."), &rules, ServerOpts::new());
    let modes = vec![SpeedCheckMode::Tcp(443)];
    match plan(&ctx, &rules, RecordType::AAAA, false, true, Some(&modes)) {
        DualStackPlan::Race { prefer_that, that_type, modes } => {
            assert!(!prefer_that);
            assert_eq!(that_type, RecordType::A);
            assert_eq!(modes.len(), 1);
        },
        DualStackPlan::Pass => panic!("expected a race"),
    }
    assert!(matches!(plan(&ctx, &rules, RecordType::A, false, true, Some(&modes)), DualStackPlan::Pass));
    assert!(matches!(plan(&ctx, &rules, RecordType::A, true, true, Some(&modes)),
        DualStackPlan::Race { prefer_that: true, that_type: RecordType::AAAA, .. }));
    assert!(matches!(plan(&ctx, &rules, RecordType::MX, true, true, Some(&modes)), DualStackPlan::Pass));
    assert!(matches!(plan(&ctx, &rules, RecordType::AAAA, false, false, Some(&modes)), DualStackPlan::Pass));
    let none = vec![SpeedCheckMode::NoCheck];
    assert!(matches!(plan(&ctx, &rules, RecordType::AAAA, false, true, Some(&none)), DualStackPlan::Pass));
    assert!(matches!(plan(&ctx, &rules, RecordType::AAAA, false, true, None), DualStackPlan::Pass));
}

#[test]
fn verdicts_compare_by_probe_then_by_ping() {
    let t = threshold_micros(10);
    assert_eq!(t, 10_000);
    assert_eq!(probe_verdict(ProbeResult::Measured(1_000_000), ProbeResult::Measured(1_000), t), Some(true));
    assert_eq!(probe_verdict(ProbeResult::Measured(1_000), ProbeResult::Measured(1_000_000), t), Some(false));
    assert_eq!(probe_verdict(ProbeResult::Measured(15_000), ProbeResult::Measured(10_000), t), Some(false));
    assert_eq!(probe_verdict(ProbeResult::Failed, ProbeResult::Measured(5), t), Some(true));
    assert_eq!(probe_verdict(ProbeResult::Measured(5), ProbeResult::Failed, t), Some(false));
    assert_eq!(probe_verdict(ProbeResult::Unchecked, ProbeResult::Measured(5), t), None);
    assert!(ping_verdict(true, None, Some(100), t));
    assert!(ping_verdict(true, Some(50_000), Some(100), t));
    assert!(!ping_verdict(true, Some(5_000), Some(100), t));
    assert!(!ping_verdict(false, None, Some(100), t));
    assert!(!ping_verdict(true, Some(5), None, t));
    assert_eq!(threshold_micros(u64::MAX), u64::MAX);
}

#[test]
fn test_dualstack_returns_nodata_when_the_other_family_is_faster() {
    let aaaa = Query::query(name("dualstack.example."), RecordType::AAAA);
    let ipv6 = DnsResponse::from_rdata(aaaa.clone(), RData::AAAA([0x20, 0x01, 0x0d, 0xb8, 0, 0, 0, 0, 0, 0, 0, 0, 0, 0, 0, 6]))
        .with_probe_result(ProbeResult::Measured(1_000_000));
    let faster = probe_verdict(ProbeResult::Measured(1_000_000), ProbeResult::Measured(1_000), threshold_micros(10)).unwrap();
    let response = settle(ipv6, faster, false, RecordType::AAAA, aaaa.clone(), 600);
    assert_eq!(response.response_code(), ResponseCode::NoError);
    assert!(response.message().answers.is_empty());
    assert_eq!(response.message().authorities[0].record_type(), RecordType::SOA);
    assert_eq!(response.message().authorities[0].ttl, 600);
    let direct = nodata_response(aaaa.clone(), 30);
    assert_eq!(direct.message().authorities.len(), 1);
    let kept = DnsResponse::from_rdata(aaaa.clone(), RData::AAAA([0; 16]));
    let kept = settle(kept, false, false, RecordType::AAAA, aaaa, 600);
    assert_eq!(kept.message().answers.len(), 1);
}
