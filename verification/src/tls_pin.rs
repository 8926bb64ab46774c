//! Certificate pinning of upstream servers: the SPKI pin of the
//! configuration, and the check of a server key's digest against it.
use vstd::prelude::*;
use base64::Engine as _;

verus! {

/// Why a pin is refused.
#[derive(Clone, Copy, Debug, PartialEq, Eq, Structural)]
pub enum PinError {
    /// The pin is not standard base64.
    BadBase64,
    /// The pin does not encode a 32-byte SHA-256 digest.
    WrongLength,
}

/// What `base64`'s standard engine (with padding) decodes `s` to (`None`
/// when `s` is not such text).
pub uninterp spec fn base64_std_decoded(s: Seq<char>) -> Option<Seq<u8>>;

/// `STANDARD.decode` of the `base64` crate: the bytes that `s` encodes, or
/// `None` on a decode error. Nothing more is claimed of the decoding than
/// that it is a function of `s`.
#[verifier::external_body]
fn decode_base64_std(s: &str) -> (r: Option<Vec<u8>>)
    ensures
        match r {
            Some(b) => base64_std_decoded(s@) == Some(b@),
            None => base64_std_decoded(s@) is None,
        },
{
    base64::engine::general_purpose::STANDARD.decode(s).ok()
}

/// The digest a pin stands for: the 32 bytes its base64 text encodes.
pub open spec fn spec_pin(s: Seq<char>) -> Result<Seq<u8>, PinError> {
    match base64_std_decoded(s) {
        None => Err(PinError::BadBase64),
        Some(b) => if b.len() == 32 {
            Ok(b)
        } else {
            Err(PinError::WrongLength)
        },
    }
}

/// Reads an SPKI pin: base64 of the SHA-256 digest of a server's public key.
pub fn parse_spki_pin(pin: &str) -> (r: Result<[u8; 32], PinError>)
    ensures
        match spec_pin(pin@) {
            Ok(b) => r matches Ok(a) && a@ == b,
            Err(e) => r == Err::<[u8; 32], PinError>(e),
        },
{
    let bytes = match decode_base64_std(pin) {
        Some(b) => b,
        None => {
            return Err(PinError::BadBase64);
        },
    };
    if bytes.len() != 32 {
        return Err(PinError::WrongLength);
    }
    let mut digest = [0u8; 32];
    let mut i: usize = 0;
    while i < 32
        invariant
            i <= 32,
            bytes@.len() == 32,
            digest@.len() == 32,
            forall|j: int| 0 <= j < i ==> digest@[j] == bytes@[j],
        decreases 32 - i,
    {
        digest[i] = bytes[i];
        i = i + 1;
    }
    assert(digest@ =~= bytes@);
    Ok(digest)
}

/// Whether a server key's digest is the pinned one.
pub fn pin_matches(digest: &[u8; 32], pin: &[u8; 32]) -> (r: bool)
    ensures
        r == (digest@ == pin@),
{
    let mut i: usize = 0;
    while i < 32
        invariant
            i <= 32,
            digest@.len() == 32 && pin@.len() == 32,
            forall|j: int| 0 <= j < i ==> digest@[j] == pin@[j],
        decreases 32 - i,
    {
        if digest[i] != pin[i] {
            assert(digest@[i as int] != pin@[i as int]);
            return false;
        }
        i = i + 1;
    }
    assert(digest@ =~= pin@);
    true
}

} // verus!
