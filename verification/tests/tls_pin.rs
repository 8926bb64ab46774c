use smartdns::tls_pin::{parse_spki_pin, pin_matches, PinError};

#[test]
fn pins_are_base64_of_a_sha256_digest() {
    // 32 bytes 0..31, standard base64 with padding.
    let pin = "AAECAwQFBgcICQoLDA0ODxAREhMUFRYXGBkaGxwdHh8=";
    let digest = parse_spki_pin(pin).unwrap();
    let expected: Vec<u8> = (0u8..32).collect();
    assert_eq!(digest.to_vec(), expected);
    assert!(pin_matches(&digest, &digest));
    let mut other = digest;
    other[31] ^= 1;
    assert!(!pin_matches(&other, &digest));
}

#[test]
fn pins_of_other_lengths_or_text_are_refused() {
    assert_eq!(parse_spki_pin("AAEC"), Err(PinError::WrongLength));
    assert_eq!(parse_spki_pin("not base64!"), Err(PinError::BadBase64));
    assert_eq!(parse_spki_pin("AAECAwQFBgcICQoLDA0ODxAREhMUFRYXGBkaGxwdHh8"), Err(PinError::BadBase64));
}
