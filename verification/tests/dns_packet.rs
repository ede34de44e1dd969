use dns_camo::dns_packet::{DnsName, DnsParseError, Packet, Question, Record, RecordClass, RecordType};

fn one_question_packet() -> Packet {
    let mut p = Packet::new(false);
    p.questions.push(Question {
        qname: DnsName::from_str("abc.xyz.com").unwrap(),
        qtype: RecordType::A,
        qclass: RecordClass::IN,
    });
    p
}

#[test]
fn check_request() {
    let mut p = one_question_packet();
    let binding = p.serialize(1).unwrap();
    assert_eq!(binding.len(), 232);
    let buf = binding.to_bytes();
    assert_eq!(
        &buf[12..25],
        [
            0b11, 0b1100001, 0b1100010, 0b1100011, 0b11, 0b1111000, 0b1111001, 0b1111010, 0b11,
            0b1100011, 0b1101111, 0b1101101, 0b0
        ]
    );
    let mut p_check = Packet::new(false);
    p_check.deserialize(&buf).unwrap();
    assert_eq!(p_check, p);
}

#[test]
fn check_response() {}

#[test]
fn known_vector_header() {
    let mut p = Packet::new(false);
    let buf = p.serialize(1).unwrap().to_bytes();
    assert_eq!(buf, vec![0x00, 0x01, 0x00, 0x00, 0x00, 0x00, 0x00, 0x00, 0x00, 0x00, 0x00, 0x00]);
    let mut q = Packet::new(false);
    assert_eq!(q.serialize_bytes(1).unwrap(), buf);
}

#[test]
fn single_question_wire_image() {
    let mut p = one_question_packet();
    let buf = p.serialize(1).unwrap().to_bytes();
    assert_eq!(buf.len(), 29);
    assert_eq!(
        &buf[12..25],
        [0x03, 0x61, 0x62, 0x63, 0x03, 0x78, 0x79, 0x7a, 0x03, 0x63, 0x6f, 0x6d, 0x00]
    );
}

#[test]
fn embed_extract_request() {
    let mut p = Packet::new(false);
    p.embed_data(b"ABCDEFGHIJ", None).unwrap();
    assert_eq!(p.questions.len(), 2);
    match &p.questions[0].qname {
        DnsName::Str(labels) => {
            assert_eq!(labels.len(), 3);
            assert_eq!(labels[0], b"85146h25".to_vec());
            assert_eq!(labels[1], b"baidu".to_vec());
            assert_eq!(labels[2], b"com".to_vec());
        }
        DnsName::Offset(_) => panic!("carrier name must be labels"),
    }
    let extracted = p.extract_data().unwrap();
    assert_eq!(extracted, b"ABCDEFGHIJ".to_vec());
}

#[test]
fn embed_extract_response() {
    let mut req = Packet::new(false);
    req.embed_data(b"0123456789", None).unwrap();
    assert_eq!(req.questions.len(), 2);

    let blob: Vec<u8> = (1..=20).collect();
    let mut resp = Packet::new(true);
    resp.embed_data(&blob, Some(&req)).unwrap();
    assert_eq!(resp.questions.len(), 2);
    assert_eq!(resp.answers.len(), 2);
    assert_eq!(resp.answers[0].rtype, RecordType::A);
    assert_eq!(resp.answers[0].data.len(), 4);
    assert_eq!(resp.answers[1].data.len(), 4);
    assert_eq!(resp.additional.len(), 1);
    assert_eq!(resp.additional[0].rtype, RecordType::AAAA);
    assert_eq!(resp.additional[0].data_length, 16);

    // Over the wire, short RDATA comes back zero-padded to its declared
    // length; trimming the trailing zeros recovers the blob.
    let buf = resp.serialize(1).unwrap().to_bytes();
    let mut parsed = Packet::new(true);
    parsed.deserialize(&buf).unwrap();
    assert_eq!(parsed.answers.len(), 2);
    assert_eq!(parsed.additional.len(), 1);
    assert_eq!(parsed.additional[0].data.len(), 16);
    let mut extracted = parsed.extract_data().unwrap();
    assert_eq!(extracted.len(), 24);
    while extracted.last() == Some(&0) {
        extracted.pop();
    }
    assert_eq!(extracted, blob);
}

#[test]
fn truncated_stream_is_format_error() {
    let mut p = Packet::new(false);
    let buf = [0u8; 10];
    assert_eq!(p.deserialize(&buf), Err(DnsParseError::StreamFormatError));
}

#[test]
fn unknown_type_value() {
    // Header advertising one question, then a name and a type value of 7.
    let mut buf = vec![0x00, 0x01, 0x00, 0x00, 0x00, 0x01, 0x00, 0x00, 0x00, 0x00, 0x00, 0x00];
    buf.extend_from_slice(&[0x01, b'a', 0x00]);
    buf.extend_from_slice(&[0x00, 0x07]);
    buf.extend_from_slice(&[0x00, 0x01]);
    let mut p = Packet::new(false);
    assert_eq!(p.deserialize(&buf), Err(DnsParseError::UndefinedRecordType(7)));
}

#[test]
fn pointer_label_rejected_on_parse() {
    // A label-length octet with its top two bits set is a compression
    // pointer and is rejected.
    let mut buf = vec![0x00, 0x01, 0x00, 0x00, 0x00, 0x01, 0x00, 0x00, 0x00, 0x00, 0x00, 0x00];
    buf.extend_from_slice(&[0xC0, 0x04]);
    buf.extend_from_slice(&[0x00, 0x01, 0x00, 0x01]);
    let mut p = Packet::new(false);
    assert_eq!(p.deserialize(&buf), Err(DnsParseError::StreamFormatError));
}

#[test]
fn oversized_label_rejected_on_serialize() {
    let mut p = Packet::new(false);
    p.questions.push(Question {
        qname: DnsName::Str(vec![vec![b'x'; 300]]),
        qtype: RecordType::A,
        qclass: RecordClass::IN,
    });
    assert_eq!(p.serialize(1).err().unwrap(), DnsParseError::DataExceedMaxLen(255, 300));
}

#[test]
fn rdata_overflow_rejected_on_serialize() {
    let mut p = Packet::new(true);
    p.answers.push(Record {
        rname: DnsName::from_str("a.b").unwrap(),
        rtype: RecordType::A,
        rclass: RecordClass::IN,
        ttl: 1,
        data_length: 4,
        data: vec![1, 2, 3, 4, 5],
    });
    assert_eq!(p.serialize(1).err().unwrap(), DnsParseError::RdataOverflow);
}

#[test]
fn pointer_in_carrier_on_extract() {
    let mut p = Packet::new(false);
    p.questions.push(Question {
        qname: DnsName::Offset(12),
        qtype: RecordType::A,
        qclass: RecordClass::IN,
    });
    assert_eq!(p.extract_data(), Err(DnsParseError::PointerInCarrier));
}

#[test]
fn response_round_trip_with_records() {
    let mut p = Packet::new(true);
    p.questions.push(Question {
        qname: DnsName::from_str("q.example").unwrap(),
        qtype: RecordType::AAAA,
        qclass: RecordClass::ALL,
    });
    p.answers.push(Record {
        rname: DnsName::from_str("q.example").unwrap(),
        rtype: RecordType::AAAA,
        rclass: RecordClass::IN,
        ttl: 256,
        data_length: 16,
        data: vec![9; 16],
    });
    let buf = p.serialize(77).unwrap().to_bytes();
    let mut parsed = Packet::new(false);
    parsed.deserialize(&buf).unwrap();
    assert!(parsed.is_response);
    assert_eq!(parsed.header.id, 77);
    assert_eq!(parsed.header.flags, 0x8000);
    assert_eq!(parsed, p);
}

#[test]
fn header_counts_match_sections() {
    let mut req = Packet::new(false);
    req.embed_data(b"count me in", None).unwrap();
    let mut resp = Packet::new(true);
    resp.embed_data(&[5u8; 30], Some(&req)).unwrap();
    let buf = resp.serialize(2).unwrap().to_bytes();
    let mut parsed = Packet::new(false);
    parsed.deserialize(&buf).unwrap();
    assert_eq!(parsed.header.questions_count as usize, parsed.questions.len());
    assert_eq!(parsed.header.answers_count as usize, parsed.answers.len());
    assert_eq!(parsed.header.authorities_count as usize, parsed.authorities.len());
    assert_eq!(parsed.header.additional_count as usize, parsed.additional.len());
}

#[test]
fn serialize_is_deterministic() {
    let mut a = Packet::new(false);
    a.embed_data(b"same bytes in", None).unwrap();
    let mut b = Packet::new(false);
    b.embed_data(b"same bytes in", None).unwrap();
    assert_eq!(a.serialize(9).unwrap().to_bytes(), b.serialize(9).unwrap().to_bytes());
}

#[test]
fn trailing_bytes_ignored_on_parse() {
    let mut p = one_question_packet();
    let mut buf = p.serialize(1).unwrap().to_bytes();
    buf.extend_from_slice(&[0xAB, 0xCD, 0xEF]);
    let mut parsed = Packet::new(false);
    parsed.deserialize(&buf).unwrap();
    assert_eq!(parsed, p);
}

#[test]
fn empty_payload_embeds_to_empty_sections() {
    let mut p = Packet::new(false);
    p.embed_data(&[], None).unwrap();
    assert_eq!(p.questions.len(), 0);
    assert_eq!(p.extract_data().unwrap(), Vec::<u8>::new());
}
