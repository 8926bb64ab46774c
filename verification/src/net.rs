//! Addresses as plain octets.
use vstd::prelude::*;

verus! {

/// An IPv4 or IPv6 address.
#[derive(Clone, Copy, Debug, PartialEq, Eq)]
pub enum IpAddress {
    V4([u8; 4]),
    V6([u8; 16]),
}

impl IpAddress {
    /// The address bytes in network order.
    pub open spec fn octet_seq(self) -> Seq<u8> {
        match self {
            IpAddress::V4(a) => a@,
            IpAddress::V6(a) => a@,
        }
    }

    pub open spec fn spec_is_ipv4(&self) -> bool {
        self is V4
    }

    /// The address bytes in network order.
    pub fn octets(&self) -> (r: Vec<u8>)
        ensures
            r@ == self.octet_seq(),
    {
        let mut r: Vec<u8> = Vec::new();
        match self {
            IpAddress::V4(a) => crate::octets::extend_bytes(&mut r, a),
            IpAddress::V6(a) => crate::octets::extend_bytes(&mut r, a),
        }
        r
    }

    #[verifier::when_used_as_spec(spec_is_ipv4)]
    pub fn is_ipv4(&self) -> (r: bool)
        ensures
            r == self.spec_is_ipv4(),
    {
        match self {
            IpAddress::V4(_) => true,
            IpAddress::V6(_) => false,
        }
    }
}

/// An address with a port.
#[derive(Clone, Copy, Debug, PartialEq, Eq)]
pub struct SocketAddress {
    pub ip: IpAddress,
    pub port: u16,
}

/// Whether two byte arrays of the same length agree.
fn bytes_agree(a: &[u8], b: &[u8]) -> (r: bool)
    requires
        a@.len() == b@.len(),
    ensures
        r == (a@ == b@),
{
    let mut i: usize = 0;
    while i < a.len()
        invariant
            i <= a@.len(),
            a@.len() == b@.len(),
            forall|k: int| 0 <= k < i ==> a@[k] == b@[k],
        decreases a.len() - i,
    {
        if a[i] != b[i] {
            assert(a@[i as int] != b@[i as int]);
            return false;
        }
        i = i + 1;
    }
    assert(a@ =~= b@);
    true
}

impl IpAddress {
    /// Whether two addresses are the same.
    pub fn same(&self, other: &IpAddress) -> (r: bool)
        ensures
            r == (*self == *other),
    {
        match (self, other) {
            (IpAddress::V4(a), IpAddress::V4(b)) => {
                let r = bytes_agree(a, b);
                proof {
                    if r {
                        assert(*a =~= *b);
                    }
                }
                r
            },
            (IpAddress::V6(a), IpAddress::V6(b)) => {
                let r = bytes_agree(a, b);
                proof {
                    if r {
                        assert(*a =~= *b);
                    }
                }
                r
            },
            _ => false,
        }
    }
}

} // verus!
