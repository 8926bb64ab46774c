//! Byte-sequence helpers shared by the wire encoders.
use vstd::prelude::*;

verus! {

/// Big-endian encoding of a 16-bit value.
pub open spec fn be16(x: u16) -> Seq<u8> {
    seq![(x / 256) as u8, (x % 256) as u8]
}

/// Big-endian encoding of a 32-bit value.
pub open spec fn be32(x: u32) -> Seq<u8> {
    seq![
        (x / 0x100_0000) as u8,
        ((x / 0x1_0000) % 256) as u8,
        ((x / 256) % 256) as u8,
        (x % 256) as u8,
    ]
}

/// Big-endian encoding of a 64-bit value.
pub open spec fn be64(x: u64) -> Seq<u8> {
    be32((x / 0x1_0000_0000) as u32) + be32((x % 0x1_0000_0000) as u32)
}

/// Value of two bytes read in big-endian order.
pub open spec fn from_be16(hi: u8, lo: u8) -> int {
    hi * 256 + lo
}

/// Value of four bytes read in big-endian order.
pub open spec fn from_be32(s: Seq<u8>) -> int
    recommends
        s.len() == 4,
{
    ((s[0] * 256 + s[1]) * 256 + s[2]) * 256 + s[3]
}

/// Appends every byte of `s` to `v`.
pub fn extend_bytes(v: &mut Vec<u8>, s: &[u8])
    ensures
        final(v)@ == old(v)@ + s@,
{
    let mut i: usize = 0;
    while i < s.len()
        invariant
            i <= s.len(),
            v@ == old(v)@ + s@.subrange(0, i as int),
        decreases s.len() - i,
    {
        v.push(s[i]);
        i = i + 1;
        assert(s@.subrange(0, i as int) == s@.subrange(0, i - 1) + seq![s@[i - 1]]);
    }
    assert(s@.subrange(0, s@.len() as int) == s@);
}

/// Appends the big-endian encoding of `x`.
pub fn push_be16(v: &mut Vec<u8>, x: u16)
    ensures
        final(v)@ == old(v)@ + be16(x),
{
    v.push((x / 256) as u8);
    v.push((x % 256) as u8);
}

/// Appends the big-endian encoding of `x`.
pub fn push_be32(v: &mut Vec<u8>, x: u32)
    ensures
        final(v)@ == old(v)@ + be32(x),
{
    v.push((x / 0x100_0000) as u8);
    v.push(((x / 0x1_0000) % 256) as u8);
    v.push(((x / 256) % 256) as u8);
    v.push((x % 256) as u8);
}

/// Appends the big-endian encoding of `x`.
pub fn push_be64(v: &mut Vec<u8>, x: u64)
    ensures
        final(v)@ == old(v)@ + be64(x),
{
    push_be32(v, (x / 0x1_0000_0000) as u32);
    push_be32(v, (x % 0x1_0000_0000) as u32);
}

/// The first `n` bytes of `s`, copied.
pub fn copy_prefix(s: &[u8], n: usize) -> (r: Vec<u8>)
    requires
        n <= s@.len(),
    ensures
        r@ == s@.subrange(0, n as int),
{
    let mut r: Vec<u8> = Vec::new();
    let mut i: usize = 0;
    while i < n
        invariant
            i <= n,
            n <= s@.len(),
            r@ == s@.subrange(0, i as int),
        decreases n - i,
    {
        r.push(s[i]);
        i = i + 1;
    }
    r
}

/// Whether `a[start..start + b.len()]` equals `b`.
pub fn bytes_equal_at(a: &[u8], start: usize, b: &[u8]) -> (r: bool)
    requires
        start + b@.len() <= a@.len(),
    ensures
        r == (a@.subrange(start as int, start + b@.len()) == b@),
{
    let mut i: usize = 0;
    while i < b.len()
        invariant
            i <= b@.len(),
            start + b@.len() <= a@.len(),
            forall|j: int| 0 <= j < i ==> a@[start + j] == b@[j],
        decreases b.len() - i,
    {
        let alen = a.len();
        assert(start + i < alen);
        if a[start + i] != b[i] {
            assert(a@.subrange(start as int, start + b@.len())[i as int] != b@[i as int]);
            return false;
        }
        i = i + 1;
    }
    assert(a@.subrange(start as int, start + b@.len()) =~= b@);
    true
}

} // verus!

verus! {

/// The order in which the host lays out multi-byte integers.
#[derive(Clone, Copy, Debug, PartialEq, Eq, Structural)]
pub enum ByteOrder {
    Little,
    Big,
}

/// Encoding of a 16-bit value in the given byte order.
pub open spec fn ord16(order: ByteOrder, x: u16) -> Seq<u8> {
    match order {
        ByteOrder::Big => be16(x),
        ByteOrder::Little => seq![(x % 256) as u8, (x / 256) as u8],
    }
}

/// Encoding of a 32-bit value in the given byte order.
pub open spec fn ord32(order: ByteOrder, x: u32) -> Seq<u8> {
    match order {
        ByteOrder::Big => be32(x),
        ByteOrder::Little => be32(x).reverse(),
    }
}

/// Value of two bytes read in the given byte order.
pub open spec fn from_ord16(order: ByteOrder, b0: u8, b1: u8) -> int {
    match order {
        ByteOrder::Big => from_be16(b0, b1),
        ByteOrder::Little => from_be16(b1, b0),
    }
}

/// Appends `x` in the given byte order.
pub fn push_ord16(v: &mut Vec<u8>, order: ByteOrder, x: u16)
    ensures
        final(v)@ == old(v)@ + ord16(order, x),
{
    match order {
        ByteOrder::Big => push_be16(v, x),
        ByteOrder::Little => {
            v.push((x % 256) as u8);
            v.push((x / 256) as u8);
        },
    }
}

/// Appends `x` in the given byte order.
pub fn push_ord32(v: &mut Vec<u8>, order: ByteOrder, x: u32)
    ensures
        final(v)@ == old(v)@ + ord32(order, x),
{
    match order {
        ByteOrder::Big => push_be32(v, x),
        ByteOrder::Little => {
            v.push((x % 256) as u8);
            v.push(((x / 256) % 256) as u8);
            v.push(((x / 0x1_0000) % 256) as u8);
            v.push((x / 0x100_0000) as u8);
            assert(v@ =~= old(v)@ + be32(x).reverse());
        },
    }
}

/// Reads two bytes in the given byte order.
pub fn read_ord16(order: ByteOrder, b0: u8, b1: u8) -> (r: u16)
    ensures
        r == from_ord16(order, b0, b1),
{
    match order {
        ByteOrder::Big => b0 as u16 * 256 + b1 as u16,
        ByteOrder::Little => b1 as u16 * 256 + b0 as u16,
    }
}

/// `u16::from_ne_bytes([1, 0])`: the bytes 1, 0 read in the host's order,
/// which is 1 on a little-endian host and 256 on a big-endian one.
#[verifier::external_body]
fn native_probe() -> (r: u16)
    ensures
        r == 1 || r == 256,
{
    u16::from_ne_bytes([1, 0])
}

/// The byte order of the host.
pub fn native_byte_order() -> ByteOrder {
    if native_probe() == 1 {
        ByteOrder::Little
    } else {
        ByteOrder::Big
    }
}

} // verus!
