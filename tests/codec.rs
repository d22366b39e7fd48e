use dns_codec::{Bincode, Class, DecodeError, Header, Name, Packet, Question, RData, Resource, Side, Type};

fn name_of(labels: &[&str]) -> Name {
    Name::new(labels.iter().map(|l| l.as_bytes().to_vec()).collect())
}

fn question(labels: &[&str], ty: Type) -> Question {
    Question { name: name_of(labels), ty, class: Class::In }
}

#[test]
fn test_op() {
    let mut header = Header::default();
    header.set_opcode(3);

    assert_eq!(header.opcode(), 3);
}

#[test]
fn opcode_is_masked_to_four_bits() {
    let mut header = Header::default();
    header.set_opcode(0x13);
    assert_eq!(header.opcode(), 3);
    assert_eq!(header.side(), Side::Query);
    assert_eq!(header.rcode(), 0);
}

#[test]
fn setters_leave_other_fields_alone() {
    let mut header = Header::default();
    header.id = 0xBEEF;
    header.qd_count = 7;
    header.set_side(Side::Response);
    header.set_opcode(9);
    header.set_recursion_desired(true);
    header.set_rcode(5);
    assert_eq!(header.side(), Side::Response);
    assert_eq!(header.opcode(), 9);
    assert!(header.recursion_desired());
    assert_eq!(header.rcode(), 5);
    assert!(!header.authoritative());
    assert!(!header.truncated());
    assert!(!header.recursion_available());

    header.set_opcode(2);
    assert_eq!(header.side(), Side::Response);
    assert!(header.recursion_desired());
    assert_eq!(header.rcode(), 5);

    header.set_recursion_desired(false);
    assert!(!header.recursion_desired());
    assert_eq!(header.opcode(), 2);
    assert_eq!(header.rcode(), 5);

    header.set_rcode(0x1F);
    assert_eq!(header.rcode(), 0xF);
    assert_eq!(header.opcode(), 2);
    assert_eq!(header.side(), Side::Response);

    header.set_side(Side::Query);
    assert_eq!(header.side(), Side::Query);
    assert_eq!(header.opcode(), 2);
    assert_eq!(header.rcode(), 0xF);
    assert_eq!(header.id, 0xBEEF);
    assert_eq!(header.qd_count, 7);
}

#[test]
fn header_bytes_are_big_endian() {
    let mut header = Header::default();
    header.id = 0x1234;
    header.set_side(Side::Response);
    header.set_opcode(1);
    header.set_recursion_desired(true);
    header.set_rcode(4);
    header.qd_count = 1;
    header.an_count = 2;
    header.ns_count = 3;
    header.ar_count = 0x0405;
    let mut buf = Vec::new();
    header.encode(&mut buf);
    assert_eq!(buf, vec![0x12, 0x34, 0x89, 0x04, 0, 1, 0, 2, 0, 3, 4, 5]);

    let mut fixed = [0xAAu8; 14];
    assert_eq!(header.write_to(&mut fixed), 12);
    assert_eq!(&fixed[..12], &buf[..]);
    assert_eq!(&fixed[12..], &[0xAA, 0xAA]);

    buf.push(0x77);
    let (rest, back) = Header::decode(&buf).unwrap();
    assert_eq!(back, header);
    assert_eq!(rest, &[0x77]);
    let (_, parsed) = Header::parse(&buf).unwrap();
    assert_eq!(parsed, header);
}

#[test]
fn header_decode_needs_twelve_bytes() {
    assert_eq!(Header::decode(&[0u8; 11]).unwrap_err(), DecodeError::InsufficientData);
    assert!(Header::decode(&[0u8; 12]).is_ok());
}

#[test]
fn name_round_trip_zero_one_and_many_labels() {
    for count in [0usize, 1, 255] {
        let labels: Vec<Vec<u8>> = (0..count).map(|i| vec![b'a' + (i % 26) as u8; 1 + i % 3]).collect();
        let name = Name::new(labels.clone());
        let mut buf = Vec::new();
        name.encode(&mut buf);
        buf.extend([9, 9]);
        let (rest, back) = Name::decode(&buf).unwrap();
        assert_eq!(back.labels(), &labels);
        assert_eq!(rest, &[9, 9]);
    }
}

#[test]
fn name_with_longest_label() {
    let label = vec![b'x'; 255];
    let name = Name::new(vec![label.clone()]);
    let mut buf = Vec::new();
    name.encode(&mut buf);
    assert_eq!(buf.len(), 257);
    assert_eq!(buf[0], 255);
    assert_eq!(buf[256], 0);
    let (rest, back) = Name::decode(&buf).unwrap();
    assert_eq!(back.labels(), &vec![label]);
    assert!(rest.is_empty());
}

#[test]
fn name_encoding_is_length_prefixed() {
    let mut buf = Vec::new();
    name_of(&["codecrafters", "io"]).encode(&mut buf);
    let mut expected = vec![12];
    expected.extend(b"codecrafters");
    expected.push(2);
    expected.extend(b"io");
    expected.push(0);
    assert_eq!(buf, expected);
}

#[test]
fn name_decode_truncated() {
    assert_eq!(Name::decode(&[3, b'a', b'b']).unwrap_err(), DecodeError::InsufficientData);
    assert_eq!(Name::decode(&[1, b'a', 1, b'b']).unwrap_err(), DecodeError::InsufficientData);
    assert_eq!(Name::decode(&[]).unwrap_err(), DecodeError::InsufficientData);
}

#[test]
fn pointer_resolves_against_whole_message() {
    let packet = [0xFF, 0xFF, 3, b'f', b'o', b'o', 2, b'i', b'o', 0, 0xEE];
    let mut name = Name::pointer(2);
    assert_eq!(name.offset(), Some(2));
    name.abs(&packet);
    assert_eq!(name.offset(), None);
    assert_eq!(name.labels(), &vec![b"foo".to_vec(), b"io".to_vec()]);

    let mut plain = name_of(&["x"]);
    plain.abs(&packet);
    assert_eq!(plain.labels(), &vec![b"x".to_vec()]);

    let mut cut = Name::pointer(6);
    cut.abs(&packet[..8]);
    assert_eq!(cut.labels().len(), 0);
    assert_eq!(cut.offset(), None);
}

#[test]
fn record_type_tags() {
    let all = [
        Type::A, Type::NS, Type::MD, Type::MF, Type::CNAME, Type::SOA, Type::MB, Type::MG,
        Type::MR, Type::NULL, Type::WKS, Type::PTR, Type::HINFO, Type::MINFO, Type::MX, Type::TXT,
    ];
    for (i, ty) in all.iter().enumerate() {
        let tag = (i + 1) as u16;
        assert_eq!(ty.tag(), tag);
        let mut buf = Vec::new();
        ty.encode(&mut buf);
        assert_eq!(buf, tag.to_be_bytes().to_vec());
        let (rest, back) = Type::decode(&buf).unwrap();
        assert_eq!(back, *ty);
        assert!(rest.is_empty());
    }
    assert_eq!(Type::decode(&[0, 0]).unwrap_err(), DecodeError::InvalidTag);
    assert_eq!(Type::decode(&[0, 17]).unwrap_err(), DecodeError::InvalidTag);
    assert_eq!(Type::decode(&[0]).unwrap_err(), DecodeError::InsufficientData);
}

#[test]
fn record_class_tags() {
    let mut buf = Vec::new();
    Class::In.encode(&mut buf);
    assert_eq!(buf, vec![0, 1]);
    assert_eq!(Class::decode(&[0, 1]).unwrap().1, Class::In);
    assert_eq!(Class::decode(&[0, 0]).unwrap_err(), DecodeError::InvalidTag);
    assert_eq!(Class::decode(&[0, 2]).unwrap_err(), DecodeError::InvalidTag);
}

#[test]
fn question_and_resource_round_trip() {
    let q = question(&["example", "com"], Type::MX);
    let mut buf = Vec::new();
    q.encode(&mut buf);
    let (rest, back) = Question::decode(&buf).unwrap();
    assert_eq!(back, q);
    assert!(rest.is_empty());

    let a = Resource {
        name: name_of(&["example", "com"]),
        ty: Type::A,
        class: Class::In,
        ttl: 0x01020304,
        data: RData::from_ipv4([10, 0, 0, 1]),
    };
    let mut buf = Vec::new();
    a.encode(&mut buf);
    let tail = &buf[buf.len() - 14..];
    assert_eq!(tail, &[0, 1, 0, 1, 1, 2, 3, 4, 0, 4, 10, 0, 0, 1]);
    buf.push(0x55);
    let (rest, back) = Resource::decode(&buf).unwrap();
    assert_eq!(back, a);
    assert_eq!(rest, &[0x55]);
}

#[test]
fn resource_data_longer_than_buffer() {
    let mut buf = Vec::new();
    RData::new(vec![1, 2, 3]).encode(&mut buf);
    assert_eq!(buf, vec![0, 3, 1, 2, 3]);
    assert_eq!(RData::decode(&buf[..4]).unwrap_err(), DecodeError::InsufficientData);
    assert_eq!(RData::decode(&buf).unwrap().1.bytes(), &vec![1, 2, 3]);
}

#[test]
fn packet_round_trip() {
    let mut header = Header::default();
    header.id = 77;
    header.set_recursion_desired(true);
    header.qd_count = 2;
    header.an_count = 1;
    let packet = Packet {
        header,
        questions: vec![question(&["a", "b"], Type::A), question(&["c"], Type::TXT)],
        answers: vec![Resource {
            name: name_of(&["a", "b"]),
            ty: Type::A,
            class: Class::In,
            ttl: 5,
            data: RData::new(vec![]),
        }],
    };
    let mut buf = Vec::new();
    packet.encode(&mut buf);
    let (rest, back) = Packet::decode(&buf).unwrap();
    assert_eq!(back, packet);
    assert!(rest.is_empty());
}

#[test]
fn packet_decode_honors_question_count() {
    let mut header = Header::default();
    header.qd_count = 2;
    let mut buf = Vec::new();
    header.encode(&mut buf);
    question(&["only"], Type::A).encode(&mut buf);
    assert_eq!(Packet::decode(&buf).unwrap_err(), DecodeError::InsufficientData);
}

#[test]
fn packet_decode_stops_at_bad_tag() {
    let mut header = Header::default();
    header.qd_count = 1;
    let mut buf = Vec::new();
    header.encode(&mut buf);
    buf.extend([1, b'a', 0, 0, 99, 0, 1]);
    assert_eq!(Packet::decode(&buf).unwrap_err(), DecodeError::InvalidTag);
}
