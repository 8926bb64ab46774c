use smartdns::client_rule::{Client, ClientRule};
use smartdns::config::ConfigForIP;
use smartdns::net::IpAddress;

fn assert_default_options(rule: &ClientRule) {
    let o = &rule.options;
    assert!(o.group.is_none() && o.rule_group.is_none() && !o.is_background);
    assert!(o.no_cache.is_none() && o.no_speed_check.is_none() && o.no_serve_expired.is_none());
    assert!(o.no_dualstack_selection.is_none() && o.no_rule_nameserver.is_none() && o.no_rule_ipset.is_none());
    assert!(o.ipset.is_none() && o.nftset.is_none());
}

#[test]
fn test_parse() {
    let (_, rule) = ClientRule::parse(
        "01:23:45:67:89:ab -group kids -no-cache -no-speed-check -no-serve-expired -nftset #4:inet#fw4#kids",
    )
    .unwrap();
    assert_eq!(rule.group, "kids");
    assert!(rule.options.no_cache());
    assert!(rule.options.no_speed_check());
    assert!(rule.options.no_serve_expired());
    assert!(matches!(&rule.options.nftset.unwrap()[0], ConfigForIP::V4(set) if set.name == "kids"));

    let (rest, rule) = ClientRule::parse("01:23:45:67:89:ab -group a").unwrap();
    assert_eq!(rest, "");
    assert_eq!(rule.group, "a");
    assert!(matches!(&rule.client, Client::MacAddr(m) if m == "01:23:45:67:89:ab"));
    assert_default_options(&rule);

    let (rest, rule) = ClientRule::parse("192.168.0.0/16 --group a").unwrap();
    assert_eq!(rest, "");
    assert_eq!(rule.group, "a");
    assert!(matches!(&rule.client, Client::IpAddr(n) if n.addr == IpAddress::V4([192, 168, 0, 0]) && n.prefix_len == 16));
    assert_default_options(&rule);

    let (rest, rule) = ClientRule::parse("192.168.100.0/24").unwrap();
    assert_eq!(rest, "");
    assert_eq!(rule.group, "");
    assert!(matches!(&rule.client, Client::IpAddr(n) if n.addr == IpAddress::V4([192, 168, 100, 0]) && n.prefix_len == 24));
    assert_default_options(&rule);
}

#[test]
fn client_rule_errors_and_rest() {
    assert!(ClientRule::parse("not-a-client -group a").is_err());
    assert!(ClientRule::parse(" 192.168.0.0/16").is_err());
    assert!(ClientRule::parse("192.168.0.0/16 -nftset bad").is_err());
    let (rest, rule) = ClientRule::parse("AA:BB:CC:DD:EE:FF -g kids stray").unwrap();
    assert_eq!(rest, " stray");
    assert_eq!(rule.group, "kids");
    assert!(matches!(&rule.client, Client::MacAddr(m) if m == "aa:bb:cc:dd:ee:ff"));
    let (_, rule) = ClientRule::parse("10.0.0.0/8 -ipset #4:route4,#6:- -no-rule-ipset").unwrap();
    let sets = rule.options.ipset.as_ref().unwrap();
    assert!(matches!(&sets[0], ConfigForIP::V4(s) if s.0 == "route4"));
    assert!(matches!(&sets[1], ConfigForIP::NoneV6));
    assert!(rule.options.no_rule_ipset());
}
