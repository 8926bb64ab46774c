use smartdns::codec::to_vec;
use smartdns::message::{Message, Name, Query, RData, Record, RecordType};
use smartdns::net::{IpAddress, SocketAddress};
use smartdns::udp::{accepts_reply, decode_reply, query_message, randomize_case, receive_size, ReplyError};
use smartdns::message::Edns;

fn request(text: &str) -> Query {
    Query::query(Name::from_ascii(text).unwrap(), RecordType::A)
}

fn response(query: &Query, suffix: u8) -> Vec<u8> {
    let mut m = Message::query(1);
    m.header.is_response = true;
    m.queries.push(query.clone());
    m.answers.push(Record::from_rdata(query.name.clone(), 30, RData::A([192, 0, 2, suffix])));
    to_vec(&m).unwrap()
}

#[test]
fn randomized_queries_require_the_echoed_case() {
    let original = request("mixed.example.");
    let randomized = request("MiXeD.ExAmPlE.");
    let bytes = response(&original, 1);
    let error = decode_reply(&bytes, &randomized, Some(&original)).unwrap_err();
    assert_eq!(error, ReplyError::QueryCaseMismatch);
}

#[test]
fn replies_echoing_the_sent_case_get_the_original_case_back() {
    let original = request("mixed.example.");
    let randomized = request("MiXeD.ExAmPlE.");
    let bytes = response(&randomized, 2);
    let reply = decode_reply(&bytes, &randomized, Some(&original)).unwrap().unwrap();
    assert_eq!(reply.queries[0], original);
    let other = response(&request("other.example."), 3);
    assert!(decode_reply(&other, &original, None).unwrap().is_none());
    assert!(decode_reply(&[1, 2, 3], &original, None).unwrap().is_none());
}

#[test]
fn reply_datagrams_must_come_from_the_server_with_the_id() {
    let server = SocketAddress { ip: IpAddress::V4([127, 0, 0, 1]), port: 53 };
    let other = SocketAddress { ip: IpAddress::V4([127, 0, 0, 1]), port: 54 };
    assert!(accepts_reply(&server, &server, &[0x12, 0x34, 0], 0x1234));
    assert!(!accepts_reply(&other, &server, &[0x12, 0x34, 0], 0x1234));
    assert!(!accepts_reply(&server, &server, &[0x12], 0x1234));
    assert!(!accepts_reply(&server, &server, &[0x12, 0x35], 0x1234));
}

#[test]
fn query_datagram_and_receive_size() {
    let m = query_message(request("a.example."), 77, true, None);
    let bytes = to_vec(&m).unwrap();
    assert_eq!(&bytes[..4], &[0, 77, 1, 0]);
    assert_eq!(receive_size(None), 512);
    assert_eq!(receive_size(Some(Edns { max_payload: 1232, dnssec_ok: false })), 1232);
    assert_eq!(receive_size(Some(Edns { max_payload: 65000, dnssec_ok: false })), 4096);
    let n = Name::from_ascii("MixedCase.example.").unwrap();
    let r = randomize_case(&n);
    assert_eq!(r.labels.len(), n.labels.len());
    for (a, b) in r.labels.iter().zip(n.labels.iter()) {
        assert_eq!(a.to_ascii_lowercase(), b.to_ascii_lowercase());
    }
}

#[test]
fn check_edns_refuses_replies_without_edns() {
    let q = request("edns.example.");
    let plain = response(&q, 4);
    let err = smartdns::udp::decode_checked_reply(&plain, &q, None, true).unwrap_err();
    assert_eq!(err, ReplyError::MissingEdns);
    assert!(smartdns::udp::decode_checked_reply(&plain, &q, None, false).unwrap().is_some());
    let mut m = Message::query(1);
    m.header.is_response = true;
    m.queries.push(q.clone());
    m.edns = Some(Edns { max_payload: 1232, dnssec_ok: false });
    let with_edns = to_vec(&m).unwrap();
    let reply = smartdns::udp::decode_checked_reply(&with_edns, &q, None, true).unwrap().unwrap();
    assert!(reply.edns.is_some());
}
