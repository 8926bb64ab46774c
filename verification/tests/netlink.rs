use smartdns::net::IpAddress;
use smartdns::netlink::{attribute, elements, ipset_request, set_flags};
use smartdns::octets::{native_byte_order, ByteOrder};

fn u32_bytes(order: ByteOrder, x: u32) -> [u8; 4] {
    match order {
        ByteOrder::Little => x.to_le_bytes(),
        ByteOrder::Big => x.to_be_bytes(),
    }
}

#[test]
fn test_interval_end_and_timeout_encoding() {
    let order = native_byte_order();
    let bytes = elements(order, IpAddress::V4([192, 0, 2, 255]), 4 | 16, 90).unwrap();
    assert!(bytes.windows(4).any(|value| value == [192, 0, 2, 255]));
    assert!(bytes.windows(4).any(|value| value == [192, 0, 3, 0]));
    assert!(bytes.windows(8).any(|value| value == 90000u64.to_be_bytes()));
    let ordinary = elements(order, IpAddress::V4([192, 0, 2, 255]), 0, 90).unwrap();
    assert!(!ordinary.windows(8).any(|value| value == 90000u64.to_be_bytes()));
    assert!(!ordinary.windows(4).any(|value| value == [192, 0, 3, 0]));
    let mut reply = vec![1, 0, 0, 0];
    reply.extend(attribute(order, 3, &20u32.to_be_bytes()));
    assert_eq!(set_flags(order, &reply).unwrap(), 20);
    assert!(set_flags(order, &[0, 0, 0, 0]).is_err());
}

#[test]
fn test_ipset_wire_address_and_timeout() {
    let order = native_byte_order();
    let packet = ipset_request(order, "route4", IpAddress::V4([192, 0, 2, 4]), 90).unwrap();
    assert_eq!(packet[16], 2);
    assert!(packet.windows(4).any(|v| v == [192, 0, 2, 4]));
    assert_eq!(&packet[packet.len() - 4..], &90u32.to_be_bytes());
    assert_eq!(&packet[..4], &u32_bytes(order, packet.len() as u32));
    let ip6 = [0x20, 0x01, 0x0d, 0xb8, 0, 0, 0, 0, 0, 0, 0, 0, 0, 0, 0, 6];
    let packet = ipset_request(order, "route6", IpAddress::V6(ip6), 0).unwrap();
    assert_eq!(packet[16], 10);
    assert_eq!(&packet[packet.len() - 16..], &ip6);
}
