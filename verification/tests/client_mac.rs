use smartdns::client_mac::parse_neighbor;
use smartdns::ip_text::parse_ip;

#[test]
fn neighbor_lookup_matches_the_whole_address() {
    let text = "fe80::10 dev br-lan lladdr aa:bb:cc:dd:ee:ff REACHABLE\nfe80::1%4 aa-bb-cc-dd-ee-01 Stale";
    assert_eq!(
        parse_neighbor(text, &parse_ip("fe80::1").unwrap()).as_deref(),
        Some("aa:bb:cc:dd:ee:01")
    );
    assert_eq!(
        parse_neighbor(text, &parse_ip("fe80::10").unwrap()).as_deref(),
        Some("aa:bb:cc:dd:ee:ff")
    );
    assert_eq!(parse_neighbor(text, &parse_ip("fe80::2").unwrap()), None);
}

#[test]
fn neighbor_lines_without_a_mac_are_skipped() {
    let text = "192.0.2.7 dev eth0 FAILED\n192.0.2.7 dev eth0 lladdr 02:00:00:00:00:07 STALE";
    assert_eq!(
        parse_neighbor(text, &parse_ip("192.0.2.7").unwrap()).as_deref(),
        Some("02:00:00:00:00:07")
    );
    assert_eq!(parse_neighbor("", &parse_ip("192.0.2.7").unwrap()), None);
}
