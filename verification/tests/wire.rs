use smartdns::codec::to_vec;
use smartdns::decode::{decode_message, decode_name};
use smartdns::message::{Edns, Message, Name, Query, RData, Record, RecordType, ResponseCode, Soa};

fn name(text: &str) -> Name {
    Name::from_ascii(text).unwrap()
}

fn sample() -> Message {
    let mut m = Message::query(0x4242);
    m.header.is_response = true;
    m.header.recursion_desired = true;
    m.header.recursion_available = true;
    m.header.authentic_data = true;
    m.header.response_code = ResponseCode::NXDomain;
    m.queries.push(Query::query(name("www.example.com."), RecordType::A));
    m.answers.push(Record::from_rdata(name("www.example.com."), 60, RData::A([192, 0, 2, 1])));
    m.answers.push(Record::from_rdata(name("www.example.com."), 60, RData::AAAA([0x20, 0x01, 0x0d, 0xb8, 0, 0, 0, 0, 0, 0, 0, 0, 0, 0, 0, 1])));
    m.answers.push(Record::from_rdata(name("alias.example.com."), 30, RData::CNAME(name("www.example.com."))));
    m.answers.push(Record::from_rdata(name("example.com."), 30, RData::TXT(vec![b"v=spf1".to_vec(), b"".to_vec()])));
    m.authorities.push(Record::from_rdata(
        name("example.com."),
        300,
        RData::SOA(Soa {
            mname: name("ns.example.com."),
            rname: name("hostmaster.example.com."),
            serial: 2024010101,
            refresh: -5,
            retry: 900,
            expire: 604800,
            minimum: 86400,
        }),
    ));
    m.additionals.push(Record::from_rdata(name("example.com."), 30, RData::Other(99, vec![1, 2, 3])));
    m.edns = Some(Edns { max_payload: 1232, dnssec_ok: true });
    m
}

#[test]
fn written_messages_read_back() {
    let m = sample();
    let bytes = to_vec(&m).unwrap();
    let (back, end) = decode_message(&bytes).unwrap();
    assert_eq!(end, bytes.len());
    assert_eq!(back, m);
    let mut extended = sample();
    extended.header.response_code = ResponseCode::Other(1234);
    let bytes = to_vec(&extended).unwrap();
    assert_eq!(decode_message(&bytes).unwrap().0, extended);
}

#[test]
fn compressed_names_are_followed_backwards_only() {
    // "a." at offset 0, then "b" + pointer to 0 at offset 3.
    let bytes = [1u8, b'a', 0, 1, b'b', 0xc0, 0];
    let (n, end) = decode_name(&bytes, 3).unwrap();
    assert_eq!(n, name("b.a."));
    assert_eq!(end, 7);
    // A pointer to itself is refused.
    let looping = [0xc0u8, 0];
    assert!(decode_name(&looping, 0).is_none());
    // Labels of 64 to 191 bytes are refused.
    assert!(decode_name(&[64u8, 0], 0).is_none());
}

#[test]
fn malformed_messages_are_refused() {
    let bytes = to_vec(&sample()).unwrap();
    assert!(decode_message(&bytes[..11]).is_none());
    assert!(decode_message(&bytes[..bytes.len() - 1]).is_none());
    let mut two_opts = Message::query(1);
    two_opts.edns = Some(Edns { max_payload: 512, dnssec_ok: false });
    let mut bytes = to_vec(&two_opts).unwrap();
    let opt = bytes[12..].to_vec();
    bytes.extend(opt);
    bytes[11] = 2;
    assert!(decode_message(&bytes).is_none());
}

#[test]
fn small_edns_payloads_read_as_512() {
    let mut m = Message::query(7);
    m.edns = Some(Edns { max_payload: 100, dnssec_ok: false });
    let bytes = to_vec(&m).unwrap();
    assert_eq!(decode_message(&bytes).unwrap().0.edns, Some(Edns { max_payload: 512, dnssec_ok: false }));
}
