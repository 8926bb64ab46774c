use smartdns::message::{Name, Query, RData, RecordType};
use smartdns::odhcpd::{lease_answer, line_pairs_of, lines_of, trim_ws, words, LeaseRecords};
use smartdns::net::IpAddress;

fn name(text: &str) -> Name {
    Name::from_ascii(text).unwrap()
}

fn fd00(last: u8) -> [u8; 16] {
    [0xfd, 0, 0, 0, 0, 0, 0, 0, 0, 0, 0, 0, 0, 0, 0, last]
}

fn ptr_data(host: &str) -> RData {
    let mut wire = Vec::new();
    for label in host.trim_end_matches('.').split('.') {
        wire.push(label.len() as u8);
        wire.extend_from_slice(label.as_bytes());
    }
    wire.push(0);
    RData::Other(12, wire)
}

#[test]
fn parses_native_odhcpd_and_hosts_records() {
    let records = LeaseRecords::parse(
        "# br-lan 00030001aabbccddeeff 1234 laptop -1 8 128 fd00::8/128\nfd00::9 laptop\n192.168.1.9 printer\n# br-lan ignored 1 * 0 0 128 fd00::10/128",
        Some(&name("lan")),
    );
    assert_eq!(
        records.lookup(&name("laptop.lan."), RecordType::AAAA),
        vec![RData::AAAA(fd00(8)), RData::AAAA(fd00(9))]
    );
    // The reverse name of fd00::8 gives the full host name.
    let reverse8 = format!("8.{}d.f.ip6.arpa.", "0.".repeat(29));
    assert_eq!(records.lookup(&name(&reverse8), RecordType::PTR), vec![ptr_data("laptop.lan.")]);
    let reverse10 = format!("0.1.{}d.f.ip6.arpa.", "0.".repeat(28));
    assert_eq!(records.lookup(&name(&reverse10), RecordType::PTR), vec![]);
    assert_eq!(records.lookup(&name("printer."), RecordType::A), vec![RData::A([192, 168, 1, 9])]);
}

#[test]
fn lookups_follow_the_family_and_ignore_case() {
    let records = LeaseRecords::parse("192.0.2.7 Host alias # note\r\n2001:db8::7 host\n", None);
    assert_eq!(records.lookup(&name("HOST"), RecordType::A), vec![RData::A([192, 0, 2, 7])]);
    assert_eq!(records.lookup(&name("alias"), RecordType::A), vec![RData::A([192, 0, 2, 7])]);
    assert_eq!(records.lookup(&name("note"), RecordType::A), vec![]);
    assert_eq!(records.lookup(&name("host"), RecordType::TXT), vec![]);
    assert_eq!(records.lookup(&name("7.2.0.192.in-addr.arpa"), RecordType::PTR), vec![ptr_data("Host")]);
    let answer = lease_answer(&records, &Query::query(name("host"), RecordType::AAAA), 600).unwrap();
    assert_eq!(answer.records().len(), 1);
    assert_eq!(answer.records()[0].ttl, 600);
    assert_eq!(answer.records()[0].data, RData::AAAA([0x20, 1, 0x0d, 0xb8, 0, 0, 0, 0, 0, 0, 0, 0, 0, 0, 0, 7]));
    assert!(lease_answer(&records, &Query::query(name("other"), RecordType::A), 600).is_none());
}

#[test]
fn lines_trim_and_words() {
    assert_eq!(lines_of("a\r\nb\n\nc"), vec!["a", "b", "", "c"]);
    assert_eq!(lines_of("x\n"), vec!["x"]);
    assert!(lines_of("").is_empty());
    assert_eq!(trim_ws(" \t hi there \u{a0}"), "hi there");
    assert_eq!(words("  a  bb\tc "), vec!["a", "bb", "c"]);
    assert_eq!(line_pairs_of("#comment").len(), 0);
    let pairs = line_pairs_of("# br-lan id 1 pc 0 0 64 192.0.2.5/24 junk");
    assert_eq!(pairs, vec![("pc".to_string(), IpAddress::V4([192, 0, 2, 5]))]);
}
