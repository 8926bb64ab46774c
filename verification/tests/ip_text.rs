use smartdns::ip_text::{ipv4_of, ipv6_of, parse_ip};
use smartdns::net::IpAddress;

fn v6(groups: [u16; 8]) -> Option<IpAddress> {
    let mut a = [0u8; 16];
    for (i, g) in groups.iter().enumerate() {
        a[2 * i] = (g >> 8) as u8;
        a[2 * i + 1] = (g & 0xff) as u8;
    }
    Some(IpAddress::V6(a))
}

#[test]
fn dotted_addresses() {
    assert_eq!(parse_ip("192.0.2.1"), Some(IpAddress::V4([192, 0, 2, 1])));
    assert_eq!(parse_ip("0.0.0.0"), Some(IpAddress::V4([0, 0, 0, 0])));
    assert_eq!(parse_ip("255.255.255.255"), Some(IpAddress::V4([255, 255, 255, 255])));
    for bad in ["256.0.0.1", "01.2.3.4", "1.2.3", "1.2.3.4.5", "1..2.3", "1.2.3.4 ", "", "-", "*"] {
        assert_eq!(parse_ip(bad), None, "{bad}");
    }
}

#[test]
fn group_addresses() {
    assert_eq!(parse_ip("::"), v6([0; 8]));
    assert_eq!(parse_ip("::1"), v6([0, 0, 0, 0, 0, 0, 0, 1]));
    assert_eq!(parse_ip("1::"), v6([1, 0, 0, 0, 0, 0, 0, 0]));
    assert_eq!(parse_ip("2001:db8::6"), v6([0x2001, 0xdb8, 0, 0, 0, 0, 0, 6]));
    assert_eq!(parse_ip("2001:DB8:0:0:0:0:0:6"), v6([0x2001, 0xdb8, 0, 0, 0, 0, 0, 6]));
    assert_eq!(parse_ip("1:2:3:4:5:6:7:8"), v6([1, 2, 3, 4, 5, 6, 7, 8]));
    assert_eq!(parse_ip("1:2:3:4:5:6:7::"), v6([1, 2, 3, 4, 5, 6, 7, 0]));
    assert_eq!(parse_ip("::0:0:0:0:0:0:7"), v6([0, 0, 0, 0, 0, 0, 0, 7]));
    assert_eq!(parse_ip("abcd::ABCD"), v6([0xabcd, 0, 0, 0, 0, 0, 0, 0xabcd]));
    assert_eq!(parse_ip("::ffff:192.0.2.1"), v6([0, 0, 0, 0, 0, 0xffff, 0xc000, 0x0201]));
    assert_eq!(parse_ip("1:2:3:4:5:6:1.2.3.4"), v6([1, 2, 3, 4, 5, 6, 0x0102, 0x0304]));
    for bad in [
        "1:2:3:4:5:6:7:8:9", "1:2:3:4:5:6:7:8::", ":::", "1:::2", ":1::", "1::2::3", "12345::", "g::", "::1.2.3",
        "::01.2.3.4", "fd00::8/128", "1:2:3:4:5:6:7:1.2.3.4", "::0:0:0:0:0:0:0:0", "1.2.3.4:5::",
    ] {
        assert_eq!(parse_ip(bad), None, "{bad}");
    }
}

#[test]
fn parts_of_addresses() {
    assert_eq!(ipv4_of("192.168.1.9"), Some([192, 168, 1, 9]));
    assert_eq!(ipv4_of("192.168.1.09"), None);
    assert_eq!(ipv6_of("fd00::9"), Some([0xfd, 0, 0, 0, 0, 0, 0, 0, 0, 0, 0, 0, 0, 0, 0, 9]));
    assert_eq!(ipv6_of("192.168.1.9"), None);
}
