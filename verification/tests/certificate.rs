use smartdns::certificate::{
    certificate_names, certificate_plan, validity_days, CertificateError, CertificateGeneration,
};
use smartdns::message::Name;
use smartdns::net::IpAddress;

#[test]
fn generation_follows_the_mode_and_configured_paths() {
    let auto = certificate_plan(None, None, None, None, None, CertificateGeneration::Auto, "/etc/smartdns");
    assert!(auto.generate);
    assert_eq!(auto.certificate, "/etc/smartdns/smartdns-cert.pem");
    assert_eq!(auto.key, "/etc/smartdns/smartdns-key.pem");
    assert_eq!(auto.root_key, "/etc/smartdns/smartdns-root-key.pem");

    let own = certificate_plan(Some("/srv/cert.pem"), None, Some("/g/cert.pem"), None, None,
        CertificateGeneration::Auto, "/etc/smartdns/");
    assert!(!own.generate);
    assert_eq!(own.certificate, "/srv/cert.pem");
    assert_eq!(own.key, "/etc/smartdns/smartdns-key.pem");

    let global_key = certificate_plan(None, None, None, Some("/g/key.pem"), Some("/r.pem"),
        CertificateGeneration::Auto, "");
    assert!(!global_key.generate);
    assert_eq!(global_key.certificate, "smartdns-cert.pem");
    assert_eq!(global_key.key, "/g/key.pem");
    assert_eq!(global_key.root_key, "/r.pem");

    let yes = certificate_plan(Some("/srv/cert.pem"), Some("/srv/key.pem"), None, None, None,
        CertificateGeneration::Yes, "/etc/smartdns");
    assert!(yes.generate);
    let no = certificate_plan(None, None, None, None, None, CertificateGeneration::No, "/etc/smartdns");
    assert!(!no.generate);
}

#[test]
fn validity_defaults_to_390_days_and_stops_at_9999() {
    assert_eq!(validity_days(None), Ok(390));
    assert_eq!(validity_days(Some(0)), Ok(390));
    assert_eq!(validity_days(Some(30)), Ok(30));
    assert_eq!(validity_days(Some(9999)), Ok(9999));
    assert_eq!(validity_days(Some(10000)), Err(CertificateError::ValidityTooLong));
}

#[test]
fn names_cover_loopback_server_configured_and_listener_addresses() {
    let server = Name::from_ascii("resolver.example.").unwrap();
    let san = vec![
        "resolver.example".to_string(),
        "192.0.2.53".to_string(),
        "DNS:a.example".to_string(),
        "IP:2001:db8::53".to_string(),
    ];
    let binds = vec![
        IpAddress::V4([192, 0, 2, 53]),
        IpAddress::V4([0, 0, 0, 0]),
        IpAddress::V6([0; 16]),
    ];
    let local = vec![IpAddress::V4([10, 0, 0, 1])];
    let names: Vec<String> = certificate_names(&server, &san, &binds, &local)
        .into_iter()
        .map(|n| String::from_utf8(n).unwrap())
        .collect();
    assert_eq!(
        names,
        vec!["10.0.0.1", "127.0.0.1", "192.0.2.53", "2001:db8::53", "::1", "a.example", "localhost", "resolver.example"]
    );
}
