//! Half-open TCP probes: the SYN segment and the matching of replies.
use vstd::prelude::*;
use crate::octets::{be16, be32, from_be32, push_be16, push_be32, extend_bytes};
use crate::net::{IpAddress, SocketAddress};

verus! {

/// Sum of the 16-bit big-endian words of `b`, an odd last byte padded with zero.
pub open spec fn word_sum(b: Seq<u8>) -> nat
    decreases b.len(),
{
    if b.len() == 0 {
        0
    } else if b.len() == 1 {
        (b[0] * 256) as nat
    } else {
        (b[0] * 256 + b[1]) as nat + word_sum(b.subrange(2, b.len() as int))
    }
}

/// End-around carry: folds the bits above 16 back into the low 16 bits.
pub open spec fn fold_carries(s: nat) -> nat
    decreases s,
{
    if s < 65536 {
        s
    } else {
        fold_carries(s % 65536 + s / 65536)
    }
}

/// The Internet checksum of `b`: the ones' complement of the folded word sum.
pub open spec fn spec_checksum(b: Seq<u8>) -> u16 {
    (65535 - fold_carries(word_sum(b))) as u16
}

proof fn lemma_word_sum_bound(b: Seq<u8>)
    ensures
        word_sum(b) <= (b.len() / 2 + 1) * 65535,
    decreases b.len(),
{
    if b.len() >= 2 {
        lemma_word_sum_bound(b.subrange(2, b.len() as int));
    }
}

proof fn lemma_fold_small(s: nat)
    ensures
        fold_carries(s) < 65536,
    decreases s,
{
    if s >= 65536 {
        lemma_fold_small(s % 65536 + s / 65536);
    }
}

/// The Internet checksum (RFC 1071) of `bytes`.
pub fn checksum(bytes: &[u8]) -> (r: u16)
    requires
        bytes@.len() <= 131_070,
    ensures
        r == spec_checksum(bytes@),
{
    let mut sum: u32 = 0;
    let mut i: usize = 0;
    proof {
        lemma_word_sum_bound(bytes@);
        assert(bytes@.subrange(0, bytes@.len() as int) =~= bytes@);
    }
    while i < bytes.len()
        invariant
            i <= bytes@.len() <= 131_070,
            sum + word_sum(bytes@.subrange(i as int, bytes@.len() as int)) == word_sum(bytes@),
            word_sum(bytes@) <= (bytes@.len() / 2 + 1) * 65535,
        decreases bytes.len() - i,
    {
        let ghost rest = bytes@.subrange(i as int, bytes@.len() as int);
        if bytes.len() - i == 1 {
            proof {
                lemma_word_sum_bound(rest);
            }
            sum = sum + bytes[i] as u32 * 256;
            i = i + 1;
        } else {
            assert(rest.subrange(2, rest.len() as int) =~= bytes@.subrange(i + 2, bytes@.len() as int));
            proof {
                lemma_word_sum_bound(bytes@.subrange(i + 2, bytes@.len() as int));
            }
            sum = sum + bytes[i] as u32 * 256 + bytes[i + 1] as u32;
            i = i + 2;
        }
    }
    assert(bytes@.subrange(i as int, bytes@.len() as int) =~= Seq::<u8>::empty());
    while sum >= 65536
        invariant
            fold_carries(sum as nat) == fold_carries(word_sum(bytes@)),
        decreases sum,
    {
        sum = sum % 65536 + sum / 65536;
    }
    proof {
        lemma_fold_small(word_sum(bytes@));
    }
    (65535 - sum) as u16
}

/// The pseudo-header that the TCP checksum covers.
pub open spec fn pseudo_header(source: IpAddress, dest: IpAddress) -> Seq<u8> {
    if source is V4 {
        source.octet_seq() + dest.octet_seq() + seq![0u8, 6u8, 0u8, 20u8]
    } else {
        source.octet_seq() + dest.octet_seq() + seq![0u8, 0u8, 0u8, 20u8, 0u8, 0u8, 0u8, 6u8]
    }
}

/// A 20-byte TCP header without options and with a zero checksum.
pub open spec fn tcp_header(source: SocketAddress, dest: SocketAddress, seq: u32, ack: u32, flags: u8) -> Seq<u8> {
    be16(source.port) + be16(dest.port) + be32(seq) + be32(ack) + seq![0x50u8, flags] + be16(64240)
        + seq![0u8, 0u8, 0u8, 0u8]
}

/// The TCP header with its checksum over the pseudo-header filled in.
pub open spec fn spec_tcp_packet(source: SocketAddress, dest: SocketAddress, seq: u32, ack: u32, flags: u8) -> Seq<u8> {
    let h = tcp_header(source, dest, seq, ack, flags);
    h.subrange(0, 16) + be16(spec_checksum(pseudo_header(source.ip, dest.ip) + h)) + h.subrange(
        18,
        20,
    )
}

/// Builds a TCP segment (no options, window 64240) from `source` to `dest`.
pub fn tcp_packet(source: SocketAddress, dest: SocketAddress, seq: u32, ack: u32, flags: u8) -> (r: Vec<u8>)
    requires
        source.ip.spec_is_ipv4() == dest.ip.spec_is_ipv4(),
    ensures
        r@ == spec_tcp_packet(source, dest, seq, ack, flags),
{
    let mut tcp: Vec<u8> = Vec::new();
    push_be16(&mut tcp, source.port);
    push_be16(&mut tcp, dest.port);
    push_be32(&mut tcp, seq);
    push_be32(&mut tcp, ack);
    tcp.push(0x50);
    tcp.push(flags);
    push_be16(&mut tcp, 64240);
    tcp.push(0);
    tcp.push(0);
    tcp.push(0);
    tcp.push(0);
    assert(tcp@ =~= tcp_header(source, dest, seq, ack, flags));
    let mut pseudo = source.ip.octets();
    let d = dest.ip.octets();
    extend_bytes(&mut pseudo, d.as_slice());
    if source.ip.is_ipv4() {
        pseudo.push(0);
        pseudo.push(6);
        pseudo.push(0);
        pseudo.push(20);
    } else {
        pseudo.push(0);
        pseudo.push(0);
        pseudo.push(0);
        pseudo.push(20);
        pseudo.push(0);
        pseudo.push(0);
        pseudo.push(0);
        pseudo.push(6);
    }
    assert(pseudo@ =~= pseudo_header(source.ip, dest.ip));
    extend_bytes(&mut pseudo, tcp.as_slice());
    let cs = checksum(pseudo.as_slice());
    tcp.set(16, (cs / 256) as u8);
    tcp.set(17, (cs % 256) as u8);
    assert(tcp@ =~= spec_tcp_packet(source, dest, seq, ack, flags));
    tcp
}

/// Offset of the TCP header in a received packet: raw IPv4 sockets deliver
/// the IP header, raw IPv6 sockets start at the TCP header.
pub open spec fn tcp_offset(packet: Seq<u8>, ipv4: bool) -> Option<int> {
    if ipv4 {
        if packet.len() < 20 || packet[0] / 16 != 4 || packet[9] != 6 || (packet[0] % 16) * 4 < 20 {
            None
        } else {
            Some((packet[0] % 16) * 4)
        }
    } else {
        Some(0)
    }
}

/// The reply to a probe: `Some((true, peer_seq))` for SYN-ACK, `Some((false, 0))`
/// for RST-ACK, `None` for a packet that does not answer the probe.
pub open spec fn spec_reply_tcp(packet: Seq<u8>, ipv4: bool, local_port: u16, remote_port: u16, seq: u32) -> Option<(bool, u32)> {
    match tcp_offset(packet, ipv4) {
        None => None,
        Some(offset) => if offset > packet.len() {
            None
        } else {
            let tcp = packet.subrange(offset, packet.len() as int);
            if tcp.len() < 20 || tcp[12] / 16 < 5 || tcp.subrange(0, 2) != be16(remote_port)
                || tcp.subrange(2, 4) != be16(local_port) || tcp[13] & 0x10 == 0 || tcp.subrange(8, 12)
                != be32(if seq == u32::MAX { 0 } else { (seq + 1) as u32 }) {
                None
            } else if tcp[13] & 0x04 != 0 {
                Some((false, 0))
            } else if tcp[13] & 0x02 == 0 {
                None
            } else {
                Some((true, from_be32(tcp.subrange(4, 8)) as u32))
            }
        },
    }
}

/// Matches a received packet against the probe from `local_port` to `remote_port`.
pub fn reply_tcp(packet: &[u8], ipv4: bool, local_port: u16, remote_port: u16, seq: u32) -> (r: Option<(bool, u32)>)
    ensures
        r == spec_reply_tcp(packet@, ipv4, local_port, remote_port, seq),
{
    let offset: usize = if ipv4 {
        if packet.len() < 20 || packet[0] / 16 != 4 || packet[9] != 6 {
            return None;
        }
        let ihl = (packet[0] % 16) as usize * 4;
        if ihl < 20 {
            return None;
        }
        ihl
    } else {
        0
    };
    if offset > packet.len() {
        return None;
    }
    let ghost tcp = packet@.subrange(offset as int, packet@.len() as int);
    let n = packet.len() - offset;
    if n < 20 || packet[offset + 12] / 16 < 5 {
        return None;
    }
    let mut expected: Vec<u8> = Vec::new();
    push_be16(&mut expected, remote_port);
    push_be16(&mut expected, local_port);
    let next = seq.wrapping_add(1);
    push_be32(&mut expected, next);
    let flags = packet[offset + 13];
    let ports_match = packet[offset] == expected[0] && packet[offset + 1] == expected[1]
        && packet[offset + 2] == expected[2] && packet[offset + 3] == expected[3];
    let ack_match = packet[offset + 8] == expected[4] && packet[offset + 9] == expected[5]
        && packet[offset + 10] == expected[6] && packet[offset + 11] == expected[7];
    assert(tcp.subrange(0, 2) =~= seq![tcp[0], tcp[1]]);
    assert(tcp.subrange(2, 4) =~= seq![tcp[2], tcp[3]]);
    assert(tcp.subrange(8, 12) =~= seq![tcp[8], tcp[9], tcp[10], tcp[11]]);
    assert(next == (if seq == u32::MAX { 0 } else { (seq + 1) as u32 }));
    if !ports_match || flags & 0x10 == 0 || !ack_match {
        return None;
    }
    if flags & 0x04 != 0 {
        return Some((false, 0));
    }
    if flags & 0x02 == 0 {
        return None;
    }
    let b0 = packet[offset + 4] as u32;
    let b1 = packet[offset + 5] as u32;
    let b2 = packet[offset + 6] as u32;
    let b3 = packet[offset + 7] as u32;
    assert(tcp.subrange(4, 8) =~= seq![tcp[4], tcp[5], tcp[6], tcp[7]]);
    Some((true, ((b0 * 256 + b1) * 256 + b2) * 256 + b3))
}

} // verus!
