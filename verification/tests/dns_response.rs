use smartdns::clock::now_millis;
use smartdns::decode::decode_message;
use smartdns::message::{Edns, Header, Message, Name, Query, RData, Record, RecordType, ResponseCode, Soa};
use smartdns::net::{IpAddress, SocketAddress};
use smartdns::request::{Protocol, SerialMessage};
use smartdns::response::DnsResponse;

fn name(text: &str) -> Name {
    Name::from_ascii(text).unwrap()
}

fn with_answer_data(response: &mut DnsResponse, data: RData, edns: Option<Edns>) {
    let mut message = response.message().clone();
    message.answers[0].data = data;
    if edns.is_some() {
        message.edns = edns;
    }
    response.set_message(message);
}

#[test]
fn prepared_encoding_is_invalidated_by_ttl_records_and_edns_changes() {
    let mut original = DnsResponse::from_rdata(
        Query::query(name("prepared.example."), RecordType::A),
        RData::A([192, 0, 2, 1]),
    );
    original.set_new_ttl(30);
    original.prepare_wire();
    let wire = original.to_vec().unwrap();
    assert!(original.prepared_wire_memory() > wire.len());
    for operation in 0..3 {
        let mut changed = original.clone();
        match operation {
            0 => changed.set_new_ttl(10),
            1 => changed.set_max_ttl(10),
            _ => changed.set_min_ttl(40),
        }
        assert_eq!(changed.prepared_wire_memory(), 0);
        let decoded = decode_message(&changed.to_vec().unwrap()).unwrap().0;
        assert_eq!(decoded.answers[0].ttl, if operation == 2 { 40 } else { 10 });
    }
    let mut changed = original.clone();
    with_answer_data(&mut changed, RData::A([192, 0, 2, 2]), Some(Edns { max_payload: 1232, dnssec_ok: true }));
    let decoded = decode_message(&changed.to_vec().unwrap()).unwrap().0;
    assert_eq!(decoded.answers, changed.message().answers);
    assert_eq!(decoded.edns, changed.message().edns);
    assert_eq!(original.to_vec().unwrap(), wire);
}

#[test]
fn received_payload_size_survives_ttl_changes_and_invalidates_on_record_changes() {
    let n = name("wire-size.example.");
    let response = DnsResponse::from_rdata(Query::query(n.clone(), RecordType::A), RData::A([192, 0, 2, 1]));
    let wire = response.to_vec().unwrap();
    let (received, _) = decode_message(&wire).unwrap();
    let mut response =
        DnsResponse::from_received(received, wire.len(), now_millis()).with_name_server_group("default".to_string());
    assert_eq!(response.wire_len(), Some(wire.len()));
    response.set_new_ttl(30);
    response.set_max_ttl(20);
    response.set_min_ttl(25);
    assert_eq!(response.records()[0].ttl, 25);
    assert_eq!(response.wire_len(), Some(response.to_vec().unwrap().len()));
    response.add_answer(Record::from_rdata(n, 25, RData::A([192, 0, 2, 2])));
    assert_eq!(response.wire_len(), None);
    assert!(response.to_vec().unwrap().len() > wire.len());
}

#[test]
fn shared_responses_keep_independent_record_and_ttl_changes() {
    let original = DnsResponse::from_rdata(
        Query::query(name("shared.example."), RecordType::A),
        RData::A([192, 0, 2, 1]),
    );
    let original_ttl = original.records()[0].ttl;
    let mut modified = original.clone();
    modified.set_max_ttl(5);
    with_answer_data(&mut modified, RData::A([192, 0, 2, 2]), None);
    assert_eq!(original.records()[0].ttl, original_ttl);
    assert_eq!(original.ip_addrs(), vec![IpAddress::V4([192, 0, 2, 1])]);
    assert_eq!(modified.records()[0].ttl, 5);
    assert_eq!(modified.ip_addrs(), vec![IpAddress::V4([192, 0, 2, 2])]);
}

#[test]
fn shared_reply_encoding_preserves_counts_flags_and_extended_response_codes() {
    let mut message = Message::query(7);
    message.header.is_response = true;
    message.queries.push(Query::query(name("MiXeD.example."), RecordType::A));
    message.answers.push(Record::from_rdata(name("MiXeD.example."), 30, RData::A([192, 0, 2, 1])));
    message.authorities.push(Record::from_rdata(
        name("example."),
        60,
        RData::SOA(Soa {
            mname: name("ns.example."),
            rname: name("hostmaster.example."),
            serial: 1,
            refresh: 60,
            retry: 60,
            expire: 3600,
            minimum: 30,
        }),
    ));
    message.additionals.push(Record::from_rdata(
        name("additional.example."),
        90,
        RData::TXT(vec![b"payload".to_vec()]),
    ));
    message.edns = Some(Edns { max_payload: 1232, dnssec_ok: true });
    let mut shared = DnsResponse::from_message(message, now_millis());
    shared.prepare_wire();
    // The last code is an extended one: 7 in the header, 1 in the OPT record.
    for code in [ResponseCode::NoError, ResponseCode::ServFail, ResponseCode::Other((1 << 4) | 7)] {
        let header = Header {
            id: 4321,
            is_response: true,
            op_code: 0,
            authoritative: false,
            truncated: false,
            recursion_desired: false,
            recursion_available: true,
            authentic_data: true,
            checking_disabled: true,
            response_code: code,
        };
        let packet = SerialMessage::reply(
            shared.clone(),
            header,
            SocketAddress { ip: IpAddress::V4([127, 0, 0, 1]), port: 5300 },
            Protocol::Udp,
        );
        let bytes = packet.into_bytes().unwrap();
        let decoded = decode_message(&bytes).unwrap().0;
        assert_eq!(decoded.header.id, 4321);
        assert_eq!(decoded.header.response_code, code);
        assert!(decoded.header.recursion_available && decoded.header.authentic_data && decoded.header.checking_disabled);
        assert_eq!(decoded.queries, shared.message().queries);
        assert_eq!(decoded.answers, shared.message().answers);
        assert_eq!(decoded.authorities, shared.message().authorities);
        assert_eq!(decoded.additionals, shared.message().additionals);
        assert_eq!(decoded.edns.unwrap().max_payload, 1232);
        assert!(decoded.edns.unwrap().dnssec_ok);
        assert_eq!(shared.message().header.id, 7);
        assert_eq!(shared.response_code(), ResponseCode::NoError);
    }
}

#[test]
fn replies_keep_the_encoding_counts_and_take_the_request_flags() {
    let query = Query::query(name("flags.example."), RecordType::AAAA);
    let mut response = DnsResponse::from_rdata(query, RData::AAAA([0x20, 1, 0x0d, 0xb8, 0, 0, 0, 0, 0, 0, 0, 0, 0, 0, 0, 6]));
    response.prepare_wire();
    let prepared = response.to_vec().unwrap();
    let header = Header {
        id: 0xbeef,
        is_response: true,
        op_code: 0,
        authoritative: false,
        truncated: true,
        recursion_desired: true,
        recursion_available: true,
        authentic_data: false,
        checking_disabled: false,
        response_code: ResponseCode::NoError,
    };
    let bytes = SerialMessage::reply(response, header, SocketAddress { ip: IpAddress::V4([127, 0, 0, 1]), port: 53 }, Protocol::Udp)
        .into_bytes()
        .unwrap();
    assert_eq!(&bytes[..4], &[0xbe, 0xef, 0x83, 0x80]);
    assert_eq!(&bytes[4..], &prepared[4..]);
    let message = SerialMessage::from_query(Query::query(name("flags.example."), RecordType::A))
        .into_message()
        .unwrap();
    assert_eq!(message.header.id, 0);
    assert_eq!(message.queries.len(), 1);
}
