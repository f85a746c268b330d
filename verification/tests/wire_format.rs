use r_dns::dns::{
    BytePacketReader, DNSDecodable, DNSEncodable, DNSHeader, DNSPacket, DNSQuestion, DNSRecord,
    Data, DnsName, RecordClass, RecordType, RECURSION_DESIRED,
};
use r_dns::query::{build_query, build_query_with_id};

fn reader_with(bytes: &[u8], position: usize) -> BytePacketReader {
    let mut buffer = [0u8; 512];
    buffer[..bytes.len()].copy_from_slice(bytes);
    BytePacketReader { buffer, position }
}

fn reader_at(bytes: &[u8], start: usize) -> BytePacketReader {
    let mut buffer = [0u8; 512];
    buffer[start..start + bytes.len()].copy_from_slice(bytes);
    BytePacketReader { buffer, position: start }
}

fn name(s: &str) -> DnsName {
    DnsName(s.to_string())
}

fn encode<T: DNSEncodable>(value: &T) -> Vec<u8> {
    let mut out = Vec::new();
    value.write_bytes(&mut out).unwrap();
    out
}

#[test]
fn read_moves_forward() {
    let mut reader = reader_with(&[7, 8], 0);
    assert_eq!(reader.read(), Ok(7));
    assert_eq!(reader.position, 1);
    assert_eq!(reader.read(), Ok(8));
    assert_eq!(reader.position, 2);
}

#[test]
fn read_at_end_fails_and_stays() {
    let mut reader = reader_with(&[], 511);
    assert_eq!(reader.read(), Ok(0));
    assert_eq!(reader.position, 512);
    assert_eq!(reader.read(), Err("End of buffer reached.".to_string()));
    assert_eq!(reader.position, 512);
    let mut far = reader_with(&[], 600);
    assert_eq!(far.read(), Err("End of buffer reached.".to_string()));
    assert_eq!(far.position, 600);
}

#[test]
fn get_does_not_move() {
    let reader = reader_with(&[1, 2, 3], 0);
    assert_eq!(reader.get(2), Ok(3));
    assert_eq!(reader.get(511), Ok(0));
    assert_eq!(reader.position, 0);
}

#[test]
fn get_past_end_names_the_position() {
    let reader = reader_with(&[], 0);
    assert_eq!(reader.get(512), Err("End of buffer at position 512".to_string()));
    assert_eq!(reader.get(16383), Err("End of buffer at position 16383".to_string()));
}

#[test]
fn new_query_header() {
    let h = DNSHeader::new_query(0xABCD);
    assert_eq!(h.id, 0xABCD);
    assert_eq!(h.flags, RECURSION_DESIRED);
    assert_eq!(h.flags, 256);
    assert_eq!(h.num_questions, 1);
    assert_eq!(h.num_answers, 0);
    assert_eq!(h.num_authorities, 0);
    assert_eq!(h.num_additionals, 0);
}

#[test]
fn header_bytes_are_big_endian() {
    let h = DNSHeader::new_query(0xABCD);
    assert_eq!(encode(&h), vec![0xAB, 0xCD, 0x01, 0x00, 0, 1, 0, 0, 0, 0, 0, 0]);
}

#[test]
fn header_roundtrip() {
    let h = DNSHeader {
        id: 0x1234,
        flags: 0x8180,
        num_questions: 1,
        num_answers: 2,
        num_authorities: 3,
        num_additionals: 0xFFFF,
    };
    let bytes = encode(&h);
    let mut reader = reader_at(&bytes, 100);
    let back = DNSHeader::from_bytes(&mut reader).unwrap();
    assert_eq!(back, h);
    assert_eq!(reader.position, 112);
}

#[test]
fn header_cut_short() {
    let mut reader = reader_with(&[], 505);
    let r = DNSHeader::from_bytes(&mut reader);
    assert_eq!(r, Err("End of buffer reached.".to_string()));
    assert_eq!(reader.position, 512);
}

#[test]
fn name_encoding() {
    assert_eq!(
        encode(&name("www.google.com")),
        b"\x03www\x06google\x03com\x00".to_vec()
    );
    assert_eq!(encode(&name("example.com")), b"\x07example\x03com\x00".to_vec());
}

#[test]
fn name_encoding_of_empty_labels() {
    // `split(".")` gives empty pieces, each written as a zero length byte.
    assert_eq!(encode(&name("")), vec![0, 0]);
    assert_eq!(encode(&name("a.")), vec![1, b'a', 0, 0]);
    assert_eq!(encode(&name("a..b")), vec![1, b'a', 0, 1, b'b', 0]);
}

#[test]
fn name_encoding_cuts_long_lengths() {
    let label = "x".repeat(300);
    let bytes = encode(&name(&label));
    assert_eq!(bytes[0], 44);
    assert_eq!(bytes.len(), 302);
    assert_eq!(bytes[301], 0);
}

#[test]
fn name_encoding_uses_utf8_bytes() {
    assert_eq!(encode(&name("é")), vec![2, 0xC3, 0xA9, 0]);
}

#[test]
fn name_roundtrip() {
    let bytes = encode(&name("mail.example.org"));
    let mut reader = reader_at(&bytes, 40);
    let back = DnsName::from_bytes(&mut reader).unwrap();
    assert_eq!(back.0, "mail.example.org");
    assert_eq!(reader.position, 40 + bytes.len());
}

#[test]
fn name_with_compression_pointer() {
    let mut bytes = b"\x07example\x03com\x00".to_vec();
    bytes.resize(20, 0);
    bytes.extend_from_slice(&[3, b'w', b'w', b'w', 0xC0, 0x00]);
    let mut reader = reader_with(&bytes, 20);
    let back = DnsName::from_bytes(&mut reader).unwrap();
    assert_eq!(back.0, "www.example.com");
    // The reader goes on after the pointer, not after the name it points to.
    assert_eq!(reader.position, 26);
}

#[test]
fn name_that_is_only_a_pointer() {
    let mut bytes = b"\x03com\x00".to_vec();
    bytes.extend_from_slice(&[0xC0, 0x00]);
    let mut reader = reader_with(&bytes, 5);
    let back = DnsName::from_bytes(&mut reader).unwrap();
    assert_eq!(back.0, "com");
    assert_eq!(reader.position, 7);
}

#[test]
fn name_label_past_the_end() {
    let mut reader = reader_with(&[], 510);
    reader.buffer[510] = 5;
    let r = DnsName::from_bytes(&mut reader);
    assert_eq!(r.unwrap_err(), "End of buffer at position 512");
    assert_eq!(reader.position, 510);
}

#[test]
fn name_pointer_past_the_end() {
    let mut reader = reader_with(&[0xFF, 0xFF], 0);
    let r = DnsName::from_bytes(&mut reader);
    assert_eq!(r.unwrap_err(), "End of buffer at position 16383");
    assert_eq!(reader.position, 0);
    let mut cut = reader_with(&[], 511);
    cut.buffer[511] = 0xC0;
    assert_eq!(DnsName::from_bytes(&mut cut).unwrap_err(), "End of buffer at position 512");
}

#[test]
fn name_bytes_read_as_latin1() {
    // Each byte becomes the character with that code, so UTF-8 does not come back as it was.
    let mut reader = reader_with(&[2, 0xC3, 0xA9, 0], 0);
    let back = DnsName::from_bytes(&mut reader).unwrap();
    assert_eq!(back.0, "\u{C3}\u{A9}");
}

#[test]
fn question_roundtrip() {
    let q = DNSQuestion { name: name("example.com"), type_: RecordType::MX, class: RecordClass::CH };
    let bytes = encode(&q);
    assert_eq!(bytes, b"\x07example\x03com\x00\x00\x0f\x00\x03".to_vec());
    let mut reader = reader_with(&bytes, 0);
    let back = DNSQuestion::from_bytes(&mut reader).unwrap();
    assert_eq!(back.name.0, "example.com");
    assert_eq!(back.type_, RecordType::MX);
    assert_eq!(back.class, RecordClass::CH);
    assert_eq!(reader.position, bytes.len());
}

#[test]
fn question_cut_short() {
    let bytes = b"\x01a\x00\x00";
    let mut reader = reader_at(bytes, 508);
    let r = DNSQuestion::from_bytes(&mut reader);
    assert_eq!(r.unwrap_err(), "End of buffer reached.");
    assert_eq!(reader.position, 512);
}

#[test]
fn record_a_roundtrip() {
    let r = DNSRecord {
        name: name("www.google.com"),
        type_: RecordType::A,
        class: RecordClass::IN,
        ttl: 0x0102_0304,
        data: Data::IPv4([142, 250, 74, 100]),
    };
    let bytes = encode(&r);
    let mut expected = b"\x03www\x06google\x03com\x00".to_vec();
    expected.extend_from_slice(&[0, 1, 0, 1, 1, 2, 3, 4, 0, 4, 142, 250, 74, 100]);
    assert_eq!(bytes, expected);
    let mut reader = reader_with(&bytes, 0);
    let back = DNSRecord::from_bytes(&mut reader).unwrap();
    assert_eq!(back.name.0, "www.google.com");
    assert_eq!(back.type_, RecordType::A);
    assert_eq!(back.class, RecordClass::IN);
    assert_eq!(back.ttl, 0x0102_0304);
    assert!(matches!(back.data, Data::IPv4([142, 250, 74, 100])));
    assert_eq!(reader.position, bytes.len());
}

#[test]
fn record_other_type_keeps_raw_data() {
    let r = DNSRecord {
        name: name("x"),
        type_: RecordType::TXT,
        class: RecordClass::IN,
        ttl: 60,
        data: Data::Unknown(vec![3, b'a', b'b', b'c']),
    };
    let bytes = encode(&r);
    let mut reader = reader_with(&bytes, 0);
    let back = DNSRecord::from_bytes(&mut reader).unwrap();
    assert_eq!(back.type_, RecordType::TXT);
    match back.data {
        Data::Unknown(v) => assert_eq!(v, vec![3, b'a', b'b', b'c']),
        Data::IPv4(_) => panic!("expected raw data"),
    }
}

#[test]
fn record_a_with_wrong_length() {
    let mut bytes = vec![0u8];
    bytes.extend_from_slice(&[0, 1, 0, 1, 0, 0, 0, 10, 0, 5, 1, 2, 3, 4, 5]);
    let mut reader = reader_with(&bytes, 0);
    let r = DNSRecord::from_bytes(&mut reader);
    assert_eq!(r.unwrap_err(), "Ipv4 address must be exactly 4 bytes");
    assert_eq!(reader.position, bytes.len());
}

#[test]
fn record_data_past_the_end() {
    let mut bytes = vec![0u8];
    bytes.extend_from_slice(&[0, 16, 0, 1, 0, 0, 0, 10, 0, 200]);
    let mut reader = reader_at(&bytes, 400);
    let r = DNSRecord::from_bytes(&mut reader);
    assert_eq!(r.unwrap_err(), "End of buffer reached.");
    assert_eq!(reader.position, 512);
}

#[test]
fn record_with_empty_data() {
    let r = DNSRecord {
        name: name("z"),
        type_: RecordType::NS,
        class: RecordClass::HS,
        ttl: 0,
        data: Data::Unknown(vec![]),
    };
    let bytes = encode(&r);
    let mut reader = reader_with(&bytes, 0);
    let back = DNSRecord::from_bytes(&mut reader).unwrap();
    assert_eq!(back.class, RecordClass::HS);
    assert!(matches!(back.data, Data::Unknown(ref v) if v.is_empty()));
    assert_eq!(reader.position, bytes.len());
}

#[test]
fn data_lengths() {
    assert_eq!(Data::IPv4([1, 2, 3, 4]).len(), 4);
    assert_eq!(Data::Unknown(vec![0; 10]).len(), 10);
    assert_eq!(Data::Unknown(vec![0; 70000]).len(), 4464);
}

#[test]
fn data_bytes_written_as_they_are() {
    assert_eq!(encode(&Data::IPv4([10, 0, 0, 1])), vec![10, 0, 0, 1]);
    assert_eq!(encode(&Data::Unknown(vec![9, 8, 7])), vec![9, 8, 7]);
}

#[test]
fn record_type_codes() {
    assert_eq!(RecordType::from(1), RecordType::A);
    assert_eq!(RecordType::from(28), RecordType::AAAA);
    assert_eq!(RecordType::from(33), RecordType::SRV);
    assert_eq!(RecordType::from(99), RecordType::UNKNOWN(99));
    assert_eq!(u16::from(RecordType::CNAME), 5);
    assert_eq!(u16::from(RecordType::UNKNOWN(4242)), 4242);
    for code in 0..=u16::MAX {
        assert_eq!(u16::from(RecordType::from(code)), code);
    }
}

#[test]
fn record_class_codes() {
    assert_eq!(RecordClass::from(1), RecordClass::IN);
    assert_eq!(RecordClass::from(4), RecordClass::HS);
    assert_eq!(RecordClass::from(5), RecordClass::UNKNOWN(5));
    assert_eq!(u16::from(RecordClass::CS), 2);
    for code in 0..=u16::MAX {
        assert_eq!(u16::from(RecordClass::from(code)), code);
    }
}

#[test]
fn unknown_of_a_known_code_is_not_kept() {
    // `UNKNOWN(1)` is written as code 1, which reads back as `A`.
    assert_eq!(RecordType::from(u16::from(RecordType::UNKNOWN(1))), RecordType::A);
    assert_eq!(RecordClass::from(u16::from(RecordClass::UNKNOWN(3))), RecordClass::CH);
}

fn sample_packet() -> DNSPacket {
    let mut header = DNSHeader::new_query(7);
    header.flags = 0x8180;
    header.num_answers = 1;
    header.num_additionals = 1;
    let mut packet = DNSPacket::new(header);
    packet.questions.push(DNSQuestion {
        name: name("example.com"),
        type_: RecordType::A,
        class: RecordClass::IN,
    });
    packet.answers.push(DNSRecord {
        name: name("example.com"),
        type_: RecordType::A,
        class: RecordClass::IN,
        ttl: 300,
        data: Data::IPv4([93, 184, 216, 34]),
    });
    packet.additionals.push(DNSRecord {
        name: name("ns.example.com"),
        type_: RecordType::UNKNOWN(41),
        class: RecordClass::UNKNOWN(1232),
        ttl: 0,
        data: Data::Unknown(vec![1, 2]),
    });
    packet
}

#[test]
fn packet_new_is_empty() {
    let p = DNSPacket::new(DNSHeader::new_query(3));
    assert_eq!(p.header, DNSHeader::new_query(3));
    assert!(p.questions.is_empty());
    assert!(p.answers.is_empty());
    assert!(p.authorities.is_empty());
    assert!(p.additionals.is_empty());
}

#[test]
fn packet_roundtrip() {
    let packet = sample_packet();
    let bytes = encode(&packet);
    let mut reader = reader_with(&bytes, 0);
    let back = DNSPacket::from_bytes(&mut reader).unwrap();
    assert_eq!(back.header, packet.header);
    assert_eq!(back.questions.len(), 1);
    assert_eq!(back.questions[0].name.0, "example.com");
    assert_eq!(back.answers.len(), 1);
    assert_eq!(back.answers[0].ttl, 300);
    assert!(matches!(back.answers[0].data, Data::IPv4([93, 184, 216, 34])));
    assert_eq!(back.authorities.len(), 0);
    assert_eq!(back.additionals.len(), 1);
    assert_eq!(back.additionals[0].name.0, "ns.example.com");
    assert_eq!(back.additionals[0].type_, RecordType::UNKNOWN(41));
    assert_eq!(back.additionals[0].class, RecordClass::UNKNOWN(1232));
    assert!(matches!(back.additionals[0].data, Data::Unknown(ref v) if *v == vec![1, 2]));
    assert_eq!(reader.position, bytes.len());
    assert_eq!(encode(&back), bytes);
}

#[test]
fn packet_with_more_entries_counted_than_present() {
    let mut packet = sample_packet();
    packet.header.num_answers = 60;
    let bytes = encode(&packet);
    let mut reader = reader_with(&bytes, 0);
    // The missing answers are read from the zero bytes after the packet, and run off the end.
    let r = DNSPacket::from_bytes(&mut reader);
    assert!(r.is_err());
}

#[test]
fn packet_with_compressed_answer() {
    let mut bytes = vec![0x12, 0x34, 0x81, 0x80, 0, 1, 0, 1, 0, 0, 0, 0];
    bytes.extend_from_slice(b"\x07example\x03com\x00\x00\x01\x00\x01");
    // The answer's name points back to the question's name at offset 12.
    bytes.extend_from_slice(&[0xC0, 12, 0, 1, 0, 1, 0, 0, 0, 60, 0, 4, 1, 2, 3, 4]);
    let mut reader = reader_with(&bytes, 0);
    let back = DNSPacket::from_bytes(&mut reader).unwrap();
    assert_eq!(back.header.id, 0x1234);
    assert_eq!(back.answers[0].name.0, "example.com");
    assert!(matches!(back.answers[0].data, Data::IPv4([1, 2, 3, 4])));
    assert_eq!(reader.position, bytes.len());
}

#[test]
fn try_from_bytes_finds_pointer_loops() {
    let mut bytes = vec![0, 1, 0, 0, 0, 1, 0, 0, 0, 0, 0, 0];
    // The question's name is a pointer to itself.
    bytes.extend_from_slice(&[0xC0, 12]);
    let mut reader = reader_with(&bytes, 0);
    assert!(DNSPacket::try_from_bytes(&mut reader).is_none());
    assert_eq!(reader.position, 0);
}

#[test]
fn try_from_bytes_decodes_like_from_bytes() {
    let bytes = encode(&sample_packet());
    let mut reader = reader_with(&bytes, 0);
    let back = DNSPacket::try_from_bytes(&mut reader).unwrap().unwrap();
    assert_eq!(back.answers.len(), 1);
    assert_eq!(reader.position, bytes.len());
    let mut short = reader_with(&[], 506);
    assert_eq!(
        DNSPacket::try_from_bytes(&mut short).unwrap().unwrap_err(),
        "End of buffer reached."
    );
    assert_eq!(short.position, 512);
}

#[test]
fn query_bytes() {
    let bytes = build_query_with_id(0x1234, name("www.google.com"), RecordType::A);
    let mut expected = vec![0x12, 0x34, 0x01, 0x00, 0, 1, 0, 0, 0, 0, 0, 0];
    expected.extend_from_slice(b"\x03www\x06google\x03com\x00\x00\x01\x00\x01");
    assert_eq!(bytes, expected);
}

#[test]
fn query_with_random_id() {
    let bytes = build_query(name("example.com"), RecordType::AAAA);
    let fixed = build_query_with_id(0, name("example.com"), RecordType::AAAA);
    assert_eq!(bytes.len(), fixed.len());
    assert_eq!(bytes[2..], fixed[2..]);
}

#[test]
fn query_reads_back() {
    let bytes = build_query_with_id(0xBEEF, name("docs.rs"), RecordType::TXT);
    let mut reader = reader_with(&bytes, 0);
    let back = DNSPacket::from_bytes(&mut reader).unwrap();
    assert_eq!(back.header, DNSHeader::new_query(0xBEEF));
    assert_eq!(back.questions.len(), 1);
    assert_eq!(back.questions[0].name.0, "docs.rs");
    assert_eq!(back.questions[0].type_, RecordType::TXT);
    assert_eq!(back.questions[0].class, RecordClass::IN);
    assert!(back.answers.is_empty());
    assert_eq!(reader.position, bytes.len());
}
