//! Netfilter netlink messages that add addresses to kernel sets: the
//! nftables batch protocol and the IPSet protocol.
use vstd::prelude::*;
use vstd::string::StringSliceAdditionalSpecFns;
use crate::octets::{ByteOrder, ord16, ord32, be16, be32, be64, from_ord16, from_be32, push_ord16,
    push_ord32, push_be16, push_be32, push_be64, extend_bytes, read_ord16};
use crate::net::IpAddress;
use crate::text::{str_eq, str_contains};

verus! {

/// Why a netlink exchange with the kernel could not proceed.
#[derive(Clone, Copy, Debug, PartialEq, Eq, Structural)]
pub enum NetlinkError {
    /// The nftables family name is not one of the known families.
    UnknownFamily,
    /// A table, set or IPSet name is empty, too long or holds a NUL.
    InvalidName,
    /// The reply that should describe a set is too short.
    MissingSetMetadata,
    /// The set description carries no flags attribute.
    MissingSetFlags,
    /// The interval end of the broadcast address does not exist.
    IntervalOverflow,
    /// A reply message has an impossible length.
    InvalidResponse,
    /// An acknowledgement carries no status.
    MissingStatus,
    /// The kernel answered with this (negative) status.
    Status(i32),
    /// An IPSet acknowledgement is malformed.
    InvalidAcknowledgement,
    /// The kernel sent no description of the set.
    MissingSetResponse,
}

pub open spec fn zeros(n: nat) -> Seq<u8> {
    Seq::new(n, |i: int| 0u8)
}

/// `n` rounded up to a multiple of four.
pub open spec fn align4(n: int) -> int {
    (n + 3) / 4 * 4
}

/// A netlink attribute: length, type, payload, padding to four bytes.
#[verifier::opaque]
pub open spec fn spec_attribute(order: ByteOrder, kind: u16, value: Seq<u8>) -> Seq<u8> {
    ord16(order, (4 + value.len()) as u16) + ord16(order, kind) + value + zeros(
        (align4((4 + value.len()) as int) - (4 + value.len())) as nat,
    )
}

/// Encodes one netlink attribute.
pub fn attribute(order: ByteOrder, kind: u16, value: &[u8]) -> (bytes: Vec<u8>)
    requires
        value@.len() + 8 <= usize::MAX,
    ensures
        bytes@ == spec_attribute(order, kind, value@),
        bytes@.len() == align4((4 + value@.len()) as int),
        value@.len() + 4 <= bytes@.len() <= value@.len() + 7,
{
    reveal(spec_attribute);
    let length = 4 + value.len();
    let aligned = (length + 3) / 4 * 4;
    let mut bytes: Vec<u8> = Vec::new();
    push_ord16(&mut bytes, order, length as u16);
    push_ord16(&mut bytes, order, kind);
    extend_bytes(&mut bytes, value);
    let ghost base = bytes@;
    let mut i = length;
    while i < aligned
        invariant
            length <= i <= aligned,
            bytes@ == base + zeros((i - length) as nat),
        decreases aligned - i,
    {
        bytes.push(0);
        i = i + 1;
        assert(bytes@ =~= base + zeros((i - length) as nat));
    }
    bytes
}

/// A netfilter netlink message: header, family byte, attributes.
#[verifier::opaque]
pub open spec fn spec_message(
    order: ByteOrder,
    kind: u16,
    flags: u16,
    sequence: u32,
    family: u8,
    attrs: Seq<u8>,
) -> Seq<u8> {
    ord32(order, (20 + attrs.len()) as u32) + ord16(order, kind) + ord16(order, flags) + ord32(
        order,
        sequence,
    ) + ord32(order, 0) + seq![family, 0u8, 0u8, 0u8] + attrs
}

/// Encodes a netfilter netlink message around `attrs`.
pub fn message(order: ByteOrder, kind: u16, flags: u16, sequence: u32, family: u8, attrs: &[u8]) -> (bytes: Vec<u8>)
    requires
        attrs@.len() + 20 <= u32::MAX,
    ensures
        bytes@ == spec_message(order, kind, flags, sequence, family, attrs@),
{
    reveal(spec_message);
    let mut bytes: Vec<u8> = Vec::new();
    push_ord32(&mut bytes, order, 20u32 + attrs.len() as u32);
    push_ord16(&mut bytes, order, kind);
    push_ord16(&mut bytes, order, flags);
    push_ord32(&mut bytes, order, sequence);
    push_ord32(&mut bytes, order, 0);
    bytes.push(family);
    bytes.push(0);
    bytes.push(0);
    bytes.push(0);
    extend_bytes(&mut bytes, attrs);
    assert(bytes@ =~= spec_message(order, kind, flags, sequence, family, attrs@));
    bytes
}

/// The protocol family number of an nftables family name.
pub open spec fn family_code(name: Seq<char>) -> Option<u8> {
    if name == "inet"@ {
        Some(1)
    } else if name == "ip"@ {
        Some(2)
    } else if name == "arp"@ {
        Some(3)
    } else if name == "netdev"@ {
        Some(5)
    } else if name == "bridge"@ {
        Some(7)
    } else if name == "ip6"@ {
        Some(10)
    } else if name == "decnet"@ {
        Some(12)
    } else {
        None
    }
}

/// The protocol family number of an nftables family name.
pub fn family(name: &str) -> (r: Result<u8, NetlinkError>)
    ensures
        r == (match family_code(name@) {
            Some(code) => Ok(code),
            None => Err(NetlinkError::UnknownFamily),
        }),
{
    if str_eq(name, "inet") {
        Ok(1)
    } else if str_eq(name, "ip") {
        Ok(2)
    } else if str_eq(name, "arp") {
        Ok(3)
    } else if str_eq(name, "netdev") {
        Ok(5)
    } else if str_eq(name, "bridge") {
        Ok(7)
    } else if str_eq(name, "ip6") {
        Ok(10)
    } else if str_eq(name, "decnet") {
        Ok(12)
    } else {
        Err(NetlinkError::UnknownFamily)
    }
}

/// A table or set name that the kernel accepts: non-empty, shorter than
/// 256 bytes, without NUL.
pub open spec fn valid_set_name(name: &str) -> bool {
    name@.len() != 0 && name.spec_bytes().len() < 256 && !name@.contains('\0')
}

/// The attributes naming a table and a set.
pub open spec fn spec_set_attributes(order: ByteOrder, table: &str, set: &str) -> Seq<u8> {
    spec_attribute(order, 1, table.spec_bytes().push(0u8)) + spec_attribute(
        order,
        2,
        set.spec_bytes().push(0u8),
    )
}

fn with_nul(bytes: &[u8]) -> (r: Vec<u8>)
    ensures
        r@ == bytes@.push(0u8),
{
    let mut r: Vec<u8> = Vec::new();
    extend_bytes(&mut r, bytes);
    r.push(0);
    r
}

/// Encodes the attributes naming `table` and `set`.
pub fn set_attributes(order: ByteOrder, table: &str, set: &str) -> (r: Result<Vec<u8>, NetlinkError>)
    ensures
        valid_set_name(table) && valid_set_name(set) ==> (r matches Ok(b) && b@ == spec_set_attributes(order, table, set)),
        !(valid_set_name(table) && valid_set_name(set)) ==> r == Err::<Vec<u8>, NetlinkError>(NetlinkError::InvalidName),
{
    let tb = table.as_bytes();
    let sb = set.as_bytes();
    if table.is_empty() || tb.len() >= 256 || str_contains(table, '\0') || set.is_empty()
        || sb.len() >= 256 || str_contains(set, '\0') {
        return Err(NetlinkError::InvalidName);
    }
    let t = with_nul(tb);
    let s = with_nul(sb);
    let mut attrs = attribute(order, 1, t.as_slice());
    let second = attribute(order, 2, s.as_slice());
    extend_bytes(&mut attrs, second.as_slice());
    Ok(attrs)
}

/// The flags attribute found among the attributes `attrs`, if any.
pub open spec fn scan_set_flags(order: ByteOrder, attrs: Seq<u8>) -> Option<u32>
    decreases attrs.len(),
{
    if attrs.len() < 4 {
        None
    } else {
        let length = from_ord16(order, attrs[0], attrs[1]);
        let kind = (from_ord16(order, attrs[2], attrs[3]) as u16) & 0x3fff;
        if length < 4 || length > attrs.len() {
            None
        } else if kind == 3 && length == 8 {
            Some(from_be32(attrs.subrange(4, 8)) as u32)
        } else if align4(length) >= attrs.len() {
            None
        } else {
            scan_set_flags(order, attrs.subrange(align4(length), attrs.len() as int))
        }
    }
}

/// The flags of a set, read from the kernel's description of it.
pub open spec fn spec_set_flags(order: ByteOrder, reply: Seq<u8>) -> Result<u32, NetlinkError> {
    if reply.len() < 4 {
        Err(NetlinkError::MissingSetMetadata)
    } else {
        match scan_set_flags(order, reply.subrange(4, reply.len() as int)) {
            Some(flags) => Ok(flags),
            None => Err(NetlinkError::MissingSetFlags),
        }
    }
}

fn read_be32(s: &[u8], at: usize) -> (r: u32)
    requires
        at + 4 <= s@.len(),
    ensures
        r == from_be32(s@.subrange(at as int, at + 4)),
{
    let b0 = s[at] as u32;
    let b1 = s[at + 1] as u32;
    let b2 = s[at + 2] as u32;
    let b3 = s[at + 3] as u32;
    ((b0 * 256 + b1) * 256 + b2) * 256 + b3
}

/// Reads the set flags out of the kernel's description of a set.
pub fn set_flags(order: ByteOrder, reply: &[u8]) -> (r: Result<u32, NetlinkError>)
    ensures
        r == spec_set_flags(order, reply@),
{
    if reply.len() < 4 {
        return Err(NetlinkError::MissingSetMetadata);
    }
    let ghost all = reply@.subrange(4, reply@.len() as int);
    let mut pos: usize = 4;
    while reply.len() - pos >= 4
        invariant
            4 <= pos <= reply@.len(),
            all == reply@.subrange(4, reply@.len() as int),
            scan_set_flags(order, all) == scan_set_flags(
                order,
                reply@.subrange(pos as int, reply@.len() as int),
            ),
        decreases reply@.len() - pos,
    {
        let ghost rest = reply@.subrange(pos as int, reply@.len() as int);
        let length = read_ord16(order, reply[pos], reply[pos + 1]) as usize;
        let kind = read_ord16(order, reply[pos + 2], reply[pos + 3]) & 0x3fff;
        assert(rest[0] == reply@[pos as int] && rest[1] == reply@[pos + 1]);
        assert(rest[2] == reply@[pos + 2] && rest[3] == reply@[pos + 3]);
        assert(rest.len() == reply@.len() - pos);
        if length < 4 || length > reply.len() - pos {
            assert(scan_set_flags(order, rest) is None);
            return Err(NetlinkError::MissingSetFlags);
        }
        if kind == 3 && length == 8 {
            let flags = read_be32(reply, pos + 4);
            assert(rest.subrange(4, 8) =~= reply@.subrange(pos + 4, pos + 8));
            return Ok(flags);
        }
        let aligned = (length + 3) / 4 * 4;
        if aligned >= reply.len() - pos {
            return Err(NetlinkError::MissingSetFlags);
        }
        assert(rest.subrange(aligned as int, rest.len() as int) =~= reply@.subrange(
            pos + aligned,
            reply@.len() as int,
        ));
        pos = pos + aligned;
    }
    Err(NetlinkError::MissingSetFlags)
}

/// The big-endian successor of `s`, `None` when every byte is 255.
pub open spec fn increment(s: Seq<u8>) -> Option<Seq<u8>>
    decreases s.len(),
{
    if s.len() == 0 {
        None
    } else if s.last() < 255 {
        Some(s.drop_last().push((s.last() + 1) as u8))
    } else {
        match increment(s.drop_last()) {
            Some(p) => Some(p.push(0u8)),
            None => None,
        }
    }
}

proof fn lemma_increment_ones(s: Seq<u8>, i: int)
    requires
        0 <= i <= s.len(),
        forall|j: int| i <= j < s.len() ==> s[j] == 255,
    ensures
        increment(s) == (match increment(s.take(i)) {
            Some(p) => Some(p + zeros((s.len() - i) as nat)),
            None => None::<Seq<u8>>,
        }),
    decreases s.len() - i,
{
    if i == s.len() {
        assert(s.take(i) =~= s);
        if let Some(p) = increment(s) {
            assert(p + zeros(0) =~= p);
        }
    } else {
        lemma_increment_ones(s.drop_last(), i);
        assert(s.drop_last().take(i) =~= s.take(i));
        if let Some(p) = increment(s.take(i)) {
            assert(p + zeros((s.len() - 1 - i) as nat) + seq![0u8] =~= p + zeros((s.len() - i) as nat));
        }
    }
}

proof fn lemma_increment_len(s: Seq<u8>)
    ensures
        increment(s) matches Some(e) ==> e.len() == s.len(),
    decreases s.len(),
{
    if s.len() > 0 {
        lemma_increment_len(s.drop_last());
    }
}

/// The address that follows `address`, for the end of a one-address interval.
fn interval_end(address: &Vec<u8>) -> (r: Option<Vec<u8>>)
    ensures
        r matches Some(e) ==> increment(address@) == Some(e@),
        r is None ==> increment(address@) is None,
{
    let mut end = address.clone();
    let mut i = end.len();
    while i > 0
        invariant
            i <= address@.len(),
            end@ == address@.take(i as int) + zeros((address@.len() - i) as nat),
            forall|j: int| i <= j < address@.len() ==> address@[j] == 255,
        decreases i,
    {
        i = i - 1;
        assert(end@[i as int] == address@[i as int]);
        if end[i] < 255 {
            let b = end[i] + 1;
            end.set(i, b);
            proof {
                lemma_increment_ones(address@, i + 1);
                assert(address@.take(i + 1).drop_last() =~= address@.take(i as int));
                assert(end@ =~= address@.take(i as int).push(b) + zeros(
                    (address@.len() - i - 1) as nat,
                ));
            }
            return Some(end);
        }
        end.set(i, 0);
        assert(end@ =~= address@.take(i as int) + zeros((address@.len() - i) as nat));
    }
    proof {
        lemma_increment_ones(address@, 0);
    }
    None
}

/// The element list that adds `address` to a set with the given flags:
/// a timeout when the set has timeouts (flag 16) and `timeout` is not zero,
/// and an interval end when the set holds intervals (flag 4).
pub open spec fn spec_elements(order: ByteOrder, address: Seq<u8>, flags: u32, timeout: u32) -> Result<Seq<u8>, NetlinkError> {
    let key = spec_attribute(order, 0x8001, spec_attribute(order, 1, address));
    let element = if flags & 16 != 0 && timeout > 0 {
        key + spec_attribute(order, 4, be64((timeout * 1000) as u64))
    } else {
        key
    };
    let list = spec_attribute(order, 0x8001, element);
    if flags & 4 != 0 {
        match increment(address) {
            None => Err(NetlinkError::IntervalOverflow),
            Some(end) => Ok(
                spec_attribute(
                    order,
                    0x8003,
                    list + spec_attribute(
                        order,
                        0x8001,
                        spec_attribute(order, 3, be32(1)) + spec_attribute(
                            order,
                            0x8001,
                            spec_attribute(order, 1, end),
                        ),
                    ),
                ),
            ),
        }
    } else {
        Ok(spec_attribute(order, 0x8003, list))
    }
}

/// Encodes the elements that add `ip` to an nftables set.
pub fn elements(order: ByteOrder, ip: IpAddress, flags: u32, timeout: u32) -> (r: Result<Vec<u8>, NetlinkError>)
    ensures
        r matches Ok(b) ==> spec_elements(order, ip.octet_seq(), flags, timeout) == Ok::<Seq<u8>, NetlinkError>(b@),
        r matches Err(e) ==> spec_elements(order, ip.octet_seq(), flags, timeout) == Err::<Seq<u8>, NetlinkError>(e),
{
    let address = ip.octets();
    let inner = attribute(order, 1, address.as_slice());
    let mut element = attribute(order, 0x8001, inner.as_slice());
    if flags & 16 != 0 && timeout > 0 {
        let mut millis: Vec<u8> = Vec::new();
        push_be64(&mut millis, timeout as u64 * 1000);
        let t = attribute(order, 4, millis.as_slice());
        extend_bytes(&mut element, t.as_slice());
    }
    let mut list = attribute(order, 0x8001, element.as_slice());
    if flags & 4 != 0 {
        let end = match interval_end(&address) {
            Some(end) => end,
            None => return Err(NetlinkError::IntervalOverflow),
        };
        proof {
            lemma_increment_len(address@);
        }
        let mut one: Vec<u8> = Vec::new();
        push_be32(&mut one, 1);
        let mut element2 = attribute(order, 3, one.as_slice());
        let end_inner = attribute(order, 1, end.as_slice());
        let end_key = attribute(order, 0x8001, end_inner.as_slice());
        extend_bytes(&mut element2, end_key.as_slice());
        let wrapped = attribute(order, 0x8001, element2.as_slice());
        extend_bytes(&mut list, wrapped.as_slice());
    }
    Ok(attribute(order, 0x8003, list.as_slice()))
}

/// A batch header or trailer: a message whose resource id is 10 (NFNL_SUBSYS_NFTABLES).
pub open spec fn batch_marker(order: ByteOrder, kind: u16, sequence: u32) -> Seq<u8> {
    spec_message(order, kind, 1, sequence, 0, Seq::empty()).subrange(0, 18) + be16(10)
}

/// A batch that carries one nftables command between begin and end markers.
pub open spec fn spec_batch(order: ByteOrder, command: u16, family: u8, attrs: Seq<u8>) -> Seq<u8> {
    batch_marker(order, 16, 1) + spec_message(
        order,
        (2560u16 | command) as u16,
        0x405u16,
        2,
        family,
        attrs,
    ) + batch_marker(order, 17, 3)
}

fn marker(order: ByteOrder, kind: u16, sequence: u32) -> (r: Vec<u8>)
    ensures
        r@ == batch_marker(order, kind, sequence),
{
    reveal(spec_message);
    let empty: [u8; 0] = [];
    let mut m = message(order, kind, 1, sequence, 0, &empty);
    assert(empty@ =~= Seq::<u8>::empty());
    m.truncate(18);
    push_be16(&mut m, 10);
    m
}

/// Wraps one nftables command into a batch.
pub fn batch(order: ByteOrder, command: u16, family: u8, attrs: &[u8]) -> (bytes: Vec<u8>)
    requires
        attrs@.len() + 20 <= u32::MAX,
    ensures
        bytes@ == spec_batch(order, command, family, attrs@),
{
    let mut begin = marker(order, 16, 1);
    let body = message(order, (10 << 8) | command, 0x405, 2, family, attrs);
    extend_bytes(&mut begin, body.as_slice());
    let end = marker(order, 17, 3);
    extend_bytes(&mut begin, end.as_slice());
    assert((10u16 << 8u16) == 2560u16) by (bit_vector);
    begin
}


/// Value of four bytes read in the given byte order.
pub open spec fn from_ord32(order: ByteOrder, s: Seq<u8>) -> int
    recommends
        s.len() == 4,
{
    match order {
        ByteOrder::Big => from_be32(s),
        ByteOrder::Little => from_be32(s.reverse()),
    }
}

fn read_ord32(order: ByteOrder, s: &[u8], at: usize) -> (r: u32)
    requires
        at + 4 <= s@.len(),
    ensures
        r == from_ord32(order, s@.subrange(at as int, at + 4)),
{
    match order {
        ByteOrder::Big => read_be32(s, at),
        ByteOrder::Little => {
            let n = s.len();
            assert(at + 3 < n);
            let b3 = s[at + 3] as u32;
            let b2 = s[at + 2] as u32;
            let b1 = s[at + 1] as u32;
            let b0 = s[at] as u32;
            let r = ((b3 * 256 + b2) * 256 + b1) * 256 + b0;
            assert(s@.subrange(at as int, at + 4).reverse() =~= seq![s@[at + 3], s@[at + 2], s@[at + 1], s@[at as int]]);
            r
        },
    }
}

/// The address attribute of an IPSet request.
pub open spec fn ipset_address(order: ByteOrder, ip: IpAddress) -> Seq<u8> {
    match ip {
        IpAddress::V4(a) => spec_attribute(order, 0x4001, a@),
        IpAddress::V6(a) => spec_attribute(order, 0x4002, a@),
    }
}

/// Everything after the length field of an IPSet add request: the
/// header (IPSET_CMD_ADD with REQUEST, ACK and REPLACE), the family, the
/// protocol version, the set name and the address with its timeout.
pub open spec fn ipset_body(order: ByteOrder, name: Seq<u8>, ip: IpAddress, timeout: u32) -> Seq<u8> {
    let data = spec_attribute(order, 0x8001, ipset_address(order, ip)) + if timeout > 0 {
        spec_attribute(order, 0x4006, be32(timeout))
    } else {
        Seq::empty()
    };
    ord16(order, 0x0609) + ord16(order, 0x0105) + ord32(order, 1) + zeros(4) + seq![
        if ip is V4 {
            2u8
        } else {
            10u8
        },
        0u8,
        0u8,
        6u8,
    ] + spec_attribute(order, 1, seq![6u8]) + spec_attribute(order, 2, name.push(0u8))
        + spec_attribute(order, 0x8007, data)
}

/// An IPSet name that the kernel accepts: non-empty, shorter than 32
/// bytes, without NUL.
pub open spec fn valid_ipset_name(name: &str) -> bool {
    name@.len() != 0 && name.spec_bytes().len() < 32 && !name@.contains('\0')
}

/// The full IPSet add request, its total length first.
pub open spec fn spec_ipset_request(order: ByteOrder, name: Seq<u8>, ip: IpAddress, timeout: u32) -> Seq<u8> {
    ord32(order, (4 + ipset_body(order, name, ip, timeout).len()) as u32) + ipset_body(
        order,
        name,
        ip,
        timeout,
    )
}

/// Encodes the request that adds `ip` to the IPSet `name` with a timeout
/// in seconds (zero for none).
#[verifier::rlimit(50)]
pub fn ipset_request(order: ByteOrder, name: &str, ip: IpAddress, timeout: u32) -> (r: Result<Vec<u8>, NetlinkError>)
    ensures
        valid_ipset_name(name) ==> (r matches Ok(b) && b@ == spec_ipset_request(order, name.spec_bytes(), ip, timeout)),
        !valid_ipset_name(name) ==> r == Err::<Vec<u8>, NetlinkError>(NetlinkError::InvalidName),
{
    let nb = name.as_bytes();
    if name.is_empty() || nb.len() >= 32 || str_contains(name, '\0') {
        return Err(NetlinkError::InvalidName);
    }
    let mut body: Vec<u8> = Vec::new();
    push_ord16(&mut body, order, 0x0609);
    push_ord16(&mut body, order, 0x0105);
    push_ord32(&mut body, order, 1);
    body.push(0);
    body.push(0);
    body.push(0);
    body.push(0);
    body.push(if ip.is_ipv4() { 2 } else { 10 });
    body.push(0);
    body.push(0);
    body.push(6);
    let six: [u8; 1] = [6];
    let proto = attribute(order, 1, &six);
    extend_bytes(&mut body, proto.as_slice());
    let named = with_nul(nb);
    let name_attr = attribute(order, 2, named.as_slice());
    extend_bytes(&mut body, name_attr.as_slice());
    let addr = match ip {
        IpAddress::V4(a) => attribute(order, 0x4001, &a),
        IpAddress::V6(a) => attribute(order, 0x4002, &a),
    };
    let mut data = attribute(order, 0x8001, addr.as_slice());
    if timeout > 0 {
        let mut t: Vec<u8> = Vec::new();
        push_be32(&mut t, timeout);
        let ta = attribute(order, 0x4006, t.as_slice());
        extend_bytes(&mut data, ta.as_slice());
    }
    let data_attr = attribute(order, 0x8007, data.as_slice());
    extend_bytes(&mut body, data_attr.as_slice());
    assert(six@ =~= seq![6u8]);
    assert(zeros(4) =~= seq![0u8, 0u8, 0u8, 0u8]);
    assert(body@ =~= ipset_body(order, name.spec_bytes(), ip, timeout));
    let mut packet: Vec<u8> = Vec::new();
    push_ord32(&mut packet, order, (4 + body.len()) as u32);
    extend_bytes(&mut packet, body.as_slice());
    Ok(packet)
}

/// The outcome of an IPSet acknowledgement.
pub open spec fn spec_ipset_ack(order: ByteOrder, reply: Seq<u8>) -> Result<(), NetlinkError> {
    if reply.len() < 20 || from_ord16(order, reply[4], reply[5]) != 2 {
        Err(NetlinkError::InvalidAcknowledgement)
    } else if from_ord32(order, reply.subrange(16, 20)) as i32 == 0 {
        Ok(())
    } else {
        Err(NetlinkError::Status(from_ord32(order, reply.subrange(16, 20)) as i32))
    }
}

/// Reads the kernel's acknowledgement of an IPSet request.
pub fn ipset_ack(order: ByteOrder, reply: &[u8]) -> (r: Result<(), NetlinkError>)
    ensures
        r == spec_ipset_ack(order, reply@),
{
    if reply.len() < 20 || read_ord16(order, reply[4], reply[5]) != 2 {
        return Err(NetlinkError::InvalidAcknowledgement);
    }
    let status = read_ord32(order, reply, 16) as i32;
    if status == 0 {
        Ok(())
    } else {
        Err(NetlinkError::Status(status))
    }
}

/// What one received datagram tells about an exchange: the payloads of
/// the messages that answer `sequence`, and the end of the exchange when
/// the datagram holds its acknowledgement or is malformed.
pub open spec fn scan_replies(order: ByteOrder, rem: Seq<u8>, sequence: u32) -> (Seq<Seq<u8>>, Option<Result<(), NetlinkError>>)
    decreases rem.len(),
{
    if rem.len() < 16 {
        (Seq::empty(), None)
    } else {
        let length = from_ord32(order, rem.subrange(0, 4));
        if length < 16 || length > rem.len() {
            (Seq::empty(), Some(Err(NetlinkError::InvalidResponse)))
        } else {
            let kind = from_ord16(order, rem[4], rem[5]);
            let seq = from_ord32(order, rem.subrange(8, 12));
            let payload = rem.subrange(16, length);
            if seq == sequence && kind == 2 {
                if payload.len() < 4 {
                    (Seq::empty(), Some(Err(NetlinkError::MissingStatus)))
                } else if from_ord32(order, payload.subrange(0, 4)) as i32 != 0 {
                    (
                        Seq::empty(),
                        Some(Err(NetlinkError::Status(from_ord32(order, payload.subrange(0, 4)) as i32))),
                    )
                } else {
                    (Seq::empty(), Some(Ok(())))
                }
            } else {
                let here = if seq == sequence {
                    seq![payload]
                } else {
                    Seq::empty()
                };
                if align4(length) >= rem.len() {
                    (here, None)
                } else {
                    let next = scan_replies(order, rem.subrange(align4(length), rem.len() as int), sequence);
                    (here + next.0, next.1)
                }
            }
        }
    }
}

/// The byte sequences held by a list of buffers.
pub open spec fn buffer_views(v: Seq<Vec<u8>>) -> Seq<Seq<u8>> {
    v.map_values(|x: Vec<u8>| x@)
}

proof fn lemma_align4_pad(n: int)
    requires
        n >= 0,
    ensures
        align4(n) == n + (4 - n % 4) % 4,
{
}

/// Walks the messages of one received datagram, appending the payloads
/// that answer `sequence` to `messages`; returns the end of the exchange
/// when the datagram holds its acknowledgement or is malformed.
#[verifier::rlimit(60)]
pub fn scan_datagram(order: ByteOrder, bytes: &[u8], sequence: u32, messages: &mut Vec<Vec<u8>>) -> (r: Option<Result<(), NetlinkError>>)
    ensures
        buffer_views(final(messages)@) == buffer_views(old(messages)@) + scan_replies(order, bytes@, sequence).0,
        r == scan_replies(order, bytes@, sequence).1,
{
    let mut pos: usize = 0;
    assert(bytes@.subrange(0, bytes@.len() as int) =~= bytes@);
    loop
        invariant
            pos <= bytes@.len(),
            buffer_views(old(messages)@) + scan_replies(order, bytes@, sequence).0 == buffer_views(messages@)
                + scan_replies(order, bytes@.subrange(pos as int, bytes@.len() as int), sequence).0,
            scan_replies(order, bytes@, sequence).1 == scan_replies(
                order,
                bytes@.subrange(pos as int, bytes@.len() as int),
                sequence,
            ).1,
        decreases bytes@.len() - pos,
    {
        let ghost rem = bytes@.subrange(pos as int, bytes@.len() as int);
        let ghost before = buffer_views(messages@);
        if bytes.len() - pos < 16 {
            assert(before + scan_replies(order, rem, sequence).0 =~= before);
            return None;
        }
        let length = read_ord32(order, bytes, pos) as usize;
        assert(bytes@.subrange(pos as int, pos + 4) =~= rem.subrange(0, 4));
        if length < 16 || length > bytes.len() - pos {
            assert(before + scan_replies(order, rem, sequence).0 =~= before);
            return Some(Err(NetlinkError::InvalidResponse));
        }
        let end = pos + length;
        let kind = read_ord16(order, bytes[pos + 4], bytes[pos + 5]);
        let seq = read_ord32(order, bytes, pos + 8);
        assert(bytes@.subrange(pos + 8, pos + 12) =~= rem.subrange(8, 12));
        assert(rem[4] == bytes@[pos + 4] && rem[5] == bytes@[pos + 5]);
        let ghost payload = rem.subrange(16, length as int);
        assert(payload =~= bytes@.subrange(pos + 16, end as int));
        if seq == sequence && kind == 2 {
            assert(before + scan_replies(order, rem, sequence).0 =~= before);
            if length - 16 < 4 {
                return Some(Err(NetlinkError::MissingStatus));
            }
            let status = read_ord32(order, bytes, pos + 16) as i32;
            assert(bytes@.subrange(pos + 16, pos + 20) =~= payload.subrange(0, 4));
            if status != 0 {
                return Some(Err(NetlinkError::Status(status)));
            }
            return Some(Ok(()));
        }
        let ghost here: Seq<Seq<u8>> = if seq == sequence {
            seq![payload]
        } else {
            Seq::empty()
        };
        if seq == sequence {
            let mut p: Vec<u8> = Vec::new();
            let mut k: usize = pos + 16;
            while k < end
                invariant
                    pos + 16 <= k <= end <= bytes@.len(),
                    p@ == bytes@.subrange(pos + 16, k as int),
                decreases end - k,
            {
                p.push(bytes[k]);
                k = k + 1;
                assert(p@ =~= bytes@.subrange(pos + 16, k as int));
            }
            let ghost old_list = messages@;
            messages.push(p);
            assert(buffer_views(messages@) =~= buffer_views(old_list).push(p@));
        }
        assert(buffer_views(messages@) =~= before + here);
        let pad = (4 - length % 4) % 4;
        proof {
            lemma_align4_pad(length as int);
        }
        if pad >= bytes.len() - end {
            assert(before + scan_replies(order, rem, sequence).0 =~= before + here);
            return None;
        }
        let aligned = length + pad;
        assert(rem.subrange(aligned as int, rem.len() as int) =~= bytes@.subrange(
            pos + aligned,
            bytes@.len() as int,
        ));
        let ghost next = scan_replies(order, bytes@.subrange(pos + aligned, bytes@.len() as int), sequence);
        assert(before + scan_replies(order, rem, sequence).0 =~= buffer_views(messages@) + next.0);
        pos = pos + aligned;
    }
}

/// The request that asks the kernel to describe a set, with the family number.
pub fn set_query(order: ByteOrder, family_name: &str, table: &str, set: &str) -> (r: Result<(u8, Vec<u8>), NetlinkError>)
    ensures
        family_code(family_name@) is None ==> r == Err::<(u8, Vec<u8>), NetlinkError>(NetlinkError::UnknownFamily),
        family_code(family_name@) is Some && !(valid_set_name(table) && valid_set_name(set))
            ==> r == Err::<(u8, Vec<u8>), NetlinkError>(NetlinkError::InvalidName),
        family_code(family_name@) is Some && valid_set_name(table) && valid_set_name(set)
            ==> (r matches Ok((g, b)) && g == family_code(family_name@)->0 && b@ == spec_message(
                order,
                2570,
                5,
                1,
                g,
                spec_set_attributes(order, table, set),
            )),
{
    let f = family(family_name)?;
    let attrs = set_attributes(order, table, set)?;
    proof {
        lemma_set_attributes_len(order, table, set);
    }
    // NFT_MSG_GETSET in the nftables subsystem, with REQUEST and ACK.
    Ok((f, message(order, 0x0a0a, 0x0005, 1, f, attrs.as_slice())))
}

/// The flags of the set described by the first answer of the kernel.
pub fn first_set_flags(order: ByteOrder, replies: &Vec<Vec<u8>>) -> (r: Result<u32, NetlinkError>)
    ensures
        replies@.len() == 0 ==> r == Err::<u32, NetlinkError>(NetlinkError::MissingSetResponse),
        replies@.len() > 0 ==> r == spec_set_flags(order, replies@[0]@),
{
    if replies.len() == 0 {
        return Err(NetlinkError::MissingSetResponse);
    }
    set_flags(order, replies[0].as_slice())
}

pub proof fn lemma_attribute_len(order: ByteOrder, kind: u16, value: Seq<u8>)
    ensures
        spec_attribute(order, kind, value).len() == align4((4 + value.len()) as int),
        value.len() + 4 <= spec_attribute(order, kind, value).len() <= value.len() + 7,
{
    reveal(spec_attribute);
}

pub proof fn lemma_set_attributes_len(order: ByteOrder, table: &str, set: &str)
    requires
        valid_set_name(table) && valid_set_name(set),
    ensures
        spec_set_attributes(order, table, set).len() <= 530,
{
    lemma_attribute_len(order, 1, table.spec_bytes().push(0u8));
    lemma_attribute_len(order, 2, set.spec_bytes().push(0u8));
}

proof fn lemma_elements_len(order: ByteOrder, address: Seq<u8>, flags: u32, timeout: u32)
    requires
        address.len() <= 16,
    ensures
        spec_elements(order, address, flags, timeout) matches Ok(b) ==> b.len() <= 200,
{
    lemma_increment_len(address);
    lemma_attribute_len(order, 1, address);
    lemma_attribute_len(order, 0x8001, spec_attribute(order, 1, address));
    lemma_attribute_len(order, 4, be64((timeout * 1000) as u64));
    let key = spec_attribute(order, 0x8001, spec_attribute(order, 1, address));
    let element = if flags & 16 != 0 && timeout > 0 {
        key + spec_attribute(order, 4, be64((timeout * 1000) as u64))
    } else {
        key
    };
    lemma_attribute_len(order, 0x8001, element);
    let list = spec_attribute(order, 0x8001, element);
    if flags & 4 != 0 {
        if let Some(end) = increment(address) {
            lemma_attribute_len(order, 3, be32(1));
            lemma_attribute_len(order, 1, end);
            lemma_attribute_len(order, 0x8001, spec_attribute(order, 1, end));
            let e2 = spec_attribute(order, 3, be32(1)) + spec_attribute(
                order,
                0x8001,
                spec_attribute(order, 1, end),
            );
            lemma_attribute_len(order, 0x8001, e2);
            lemma_attribute_len(order, 0x8003, list + spec_attribute(order, 0x8001, e2));
        }
    } else {
        lemma_attribute_len(order, 0x8003, list);
    }
}

/// The batches that put an address into a set: the deletion that refreshes
/// an existing element's timeout (when the set has timeouts, flag 16, and
/// `timeout` is not zero), then the addition.
pub open spec fn spec_set_updates(
    order: ByteOrder,
    family: u8,
    table: &str,
    set: &str,
    address: Seq<u8>,
    flags: u32,
    timeout: u32,
) -> Result<(Option<Seq<u8>>, Seq<u8>), NetlinkError> {
    if !(valid_set_name(table) && valid_set_name(set)) {
        Err(NetlinkError::InvalidName)
    } else {
        match spec_elements(order, address, flags, timeout) {
            Err(e) => Err(e),
            Ok(added) => {
                let addition = spec_batch(
                    order,
                    12,
                    family,
                    spec_set_attributes(order, table, set) + added,
                );
                if timeout > 0 && flags & 16 != 0 {
                    match spec_elements(order, address, flags, 0) {
                        Err(e) => Err(e),
                        Ok(removed) => Ok(
                            (
                                Some(
                                    spec_batch(
                                        order,
                                        14,
                                        family,
                                        spec_set_attributes(order, table, set) + removed,
                                    ),
                                ),
                                addition,
                            ),
                        ),
                    }
                } else {
                    Ok((None, addition))
                }
            },
        }
    }
}

pub open spec fn option_view(v: Option<Vec<u8>>) -> Option<Seq<u8>> {
    match v {
        Some(b) => Some(b@),
        None => None,
    }
}

/// The batches that put `ip` into a set with the given flags.
pub fn set_updates(
    order: ByteOrder,
    family: u8,
    table: &str,
    set: &str,
    ip: IpAddress,
    flags: u32,
    timeout: u32,
) -> (r: Result<(Option<Vec<u8>>, Vec<u8>), NetlinkError>)
    ensures
        match r {
            Ok((deletion, addition)) => spec_set_updates(order, family, table, set, ip.octet_seq(), flags, timeout)
                == Ok::<(Option<Seq<u8>>, Seq<u8>), NetlinkError>((option_view(deletion), addition@)),
            Err(e) => spec_set_updates(order, family, table, set, ip.octet_seq(), flags, timeout)
                == Err::<(Option<Seq<u8>>, Seq<u8>), NetlinkError>(e),
        },
{
    let mut attrs = set_attributes(order, table, set)?;
    proof {
        lemma_set_attributes_len(order, table, set);
        lemma_elements_len(order, ip.octet_seq(), flags, timeout);
        lemma_elements_len(order, ip.octet_seq(), flags, 0);
    }
    let added = elements(order, ip, flags, timeout)?;
    extend_bytes(&mut attrs, added.as_slice());
    let deletion = if timeout > 0 && flags & 16 != 0 {
        let mut del = set_attributes(order, table, set)?;
        let removed = elements(order, ip, flags, 0)?;
        extend_bytes(&mut del, removed.as_slice());
        Some(batch(order, 14, family, del.as_slice()))
    } else {
        None
    };
    Ok((deletion, batch(order, 12, family, attrs.as_slice())))
}

} // verus!
