use smartdns::txt::{ErrorKind, TXT};

#[test]
fn parses_txt_chunks_and_comments() {
    let (rest, value) = TXT::parse("\"hello world\" \"next\\\"chunk\" # comment").unwrap();
    assert!(rest.is_empty());
    assert_eq!(
        value.txt_data().iter().map(|s| s.as_slice()).collect::<Vec<_>>(),
        vec![b"hello world".as_slice(), b"next\"chunk".as_slice()]
    );
    assert!(TXT::parse("\"unclosed").is_err());
    assert!(TXT::parse(&"x".repeat(256)).is_err());
}

#[test]
fn txt_errors_name_their_kind() {
    assert!(matches!(TXT::parse("\"unclosed"), Err(ErrorKind::Tag) | Err(ErrorKind::Verify)));
    assert!(matches!(TXT::parse(&"x".repeat(256)), Err(ErrorKind::TooLarge)));
    let (_, v) = TXT::parse("plain").unwrap();
    assert_eq!(v.txt_data()[0], b"plain".to_vec());
}
