use smartdns::net::{IpAddress, SocketAddress};
use smartdns::tcp_syn::{checksum, reply_tcp, tcp_packet};

fn v4(a: [u8; 4], port: u16) -> SocketAddress {
    SocketAddress { ip: IpAddress::V4(a), port }
}

fn v6(last: u8, port: u16) -> SocketAddress {
    let mut a = [0u8; 16];
    a[0] = 0x20;
    a[1] = 0x01;
    a[2] = 0x0d;
    a[3] = 0xb8;
    a[15] = last;
    SocketAddress { ip: IpAddress::V6(a), port }
}

#[test]
fn test_syn_and_reply_matching() {
    let source = v4([192, 0, 2, 1], 12345);
    let dest = v4([192, 0, 2, 2], 443);
    let syn = tcp_packet(source, dest, 5, 0, 2);
    assert_eq!(syn[13], 2);
    let mut pseudo = vec![192, 0, 2, 1, 192, 0, 2, 2, 0, 6, 0, 20];
    pseudo.extend(syn);
    assert_eq!(checksum(&pseudo), 0);
    let mut ip_header = vec![0; 20];
    ip_header[0] = 0x45;
    ip_header[9] = 6;
    ip_header.extend(tcp_packet(dest, source, 100, 6, 0x12));
    assert_eq!(reply_tcp(&ip_header, true, 12345, 443, 5), Some((true, 100)));
    assert_eq!(reply_tcp(&ip_header, true, 12345, 443, 6), None);
    let source = v6(1, 12345);
    let dest = v6(2, 443);
    let reply = tcp_packet(dest, source, 100, 6, 0x12);
    assert_eq!(reply_tcp(&reply, false, 12345, 443, 5), Some((true, 100)));
    let reset = tcp_packet(dest, source, 0, 6, 0x14);
    assert_eq!(reply_tcp(&reset, false, 12345, 443, 5), Some((false, 0)));
}
