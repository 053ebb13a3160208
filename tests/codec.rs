use dns_codec::byte_packet_buffer::BytePacketBuffer;
use dns_codec::dns_header::DnsHeader;
use dns_codec::dns_packet::DnsPacket;
use dns_codec::dns_question::DnsQuestion;
use dns_codec::dns_record::DnsRecord;
use dns_codec::error::DnsError;
use dns_codec::query_type::QueryType;

fn buffer_with(bytes: &[u8]) -> BytePacketBuffer {
    let mut b = BytePacketBuffer::new();
    b.buf[..bytes.len()].copy_from_slice(bytes);
    b
}

fn read_name(b: &mut BytePacketBuffer) -> Result<String, DnsError> {
    let mut s = String::new();
    b.read_qname(&mut s)?;
    Ok(s)
}

#[test]
fn new_buffer_is_zeroed() {
    let b = BytePacketBuffer::new();
    assert_eq!(b.pos(), 0);
    assert!(b.buf.iter().all(|x| *x == 0));
}

#[test]
fn step_and_seek() {
    let mut b = BytePacketBuffer::new();
    assert_eq!(b.step(10), Ok(()));
    assert_eq!(b.pos(), 10);
    b.seek(600);
    assert_eq!(b.pos(), 600);
    assert_eq!(b.read(), Err(DnsError::EndOfBuffer));
    b.seek(usize::MAX - 1);
    assert_eq!(b.step(2), Err(DnsError::OutOfBounds));
    assert_eq!(b.pos(), usize::MAX - 1);
}

#[test]
fn big_endian_reads() {
    let mut b = buffer_with(&[0x12, 0x34, 0xDE, 0xAD, 0xBE, 0xEF]);
    assert_eq!(b.read_u16(), Ok(0x1234));
    assert_eq!(b.read_u32(), Ok(0xDEADBEEF));
    assert_eq!(b.pos(), 6);
    assert_eq!(b.get(1), Ok(0x34));
    assert_eq!(b.get(512), Err(DnsError::EndOfBuffer));
    b.seek(511);
    assert_eq!(b.read_u16(), Err(DnsError::EndOfBuffer));
    b.seek(509);
    assert_eq!(b.read_u32(), Err(DnsError::EndOfBuffer));
}

#[test]
fn big_endian_writes() {
    let mut b = BytePacketBuffer::new();
    assert_eq!(b.write_u8(7), Ok(()));
    assert_eq!(b.write_u16(0xABCD), Ok(()));
    assert_eq!(b.write_u32(0x01020304), Ok(()));
    assert_eq!(&b.buf[..7], &[7, 0xAB, 0xCD, 1, 2, 3, 4]);
    assert_eq!(b.pos(), 7);
    b.seek(511);
    assert_eq!(b.write_u16(1), Err(DnsError::EndOfBuffer));
    assert_eq!(b.pos(), 511);
    assert_eq!(b.write(9), Ok(()));
    assert_eq!(b.write(9), Err(DnsError::EndOfBuffer));
}

#[test]
fn set_patches_without_moving() {
    let mut b = BytePacketBuffer::new();
    b.seek(20);
    assert_eq!(b.set(3, 0x55), Ok(()));
    assert_eq!(b.set_u16(6, 0x0102), Ok(()));
    assert_eq!(b.pos(), 20);
    assert_eq!(b.buf[3], 0x55);
    assert_eq!(&b.buf[6..8], &[1, 2]);
    assert_eq!(b.set(512, 1), Err(DnsError::EndOfBuffer));
    assert_eq!(b.set_u16(511, 1), Err(DnsError::EndOfBuffer));
    assert_eq!(b.set_u16(510, 0xFFEE), Ok(()));
    assert_eq!(&b.buf[510..512], &[0xFF, 0xEE]);
}

#[test]
fn range_boundary() {
    let mut b = BytePacketBuffer::new();
    assert_eq!(b.get_range(500, 12).map(|r| r.len()), Ok(12));
    assert_eq!(b.get_range(500, 13), Err(DnsError::EndOfBuffer));
    assert_eq!(b.get_range(0, 512).map(|r| r.len()), Ok(512));
    assert_eq!(b.get_range(0, 513), Err(DnsError::EndOfBuffer));
    assert_eq!(b.get_range(512, 0).map(|r| r.len()), Ok(0));
}

#[test]
fn qname_is_case_folded() {
    let mut b = BytePacketBuffer::new();
    assert_eq!(b.write_qname("WWW.Example.COM"), Ok(()));
    assert_eq!(b.pos(), 17);
    b.seek(0);
    assert_eq!(read_name(&mut b), Ok("www.example.com".to_string()));
    assert_eq!(b.pos(), 17);
}

#[test]
fn qname_appends_to_output() {
    let mut b = buffer_with(&[3, b'c', b'o', b'm', 0]);
    let mut s = String::from("x:");
    assert_eq!(b.read_qname(&mut s), Ok(()));
    assert_eq!(s, "x:com");
}

#[test]
fn qname_follows_pointer() {
    let mut bytes = vec![3, b'w', b'w', b'w', 6];
    bytes.extend_from_slice(b"google");
    bytes.push(3);
    bytes.extend_from_slice(b"com");
    bytes.push(0);
    // offset 16: "www" then a pointer to "google.com" at offset 4
    bytes.extend_from_slice(&[3, b'w', b'w', b'w', 0xC0, 0x04]);
    let mut b = buffer_with(&bytes);
    assert_eq!(read_name(&mut b), Ok("www.google.com".to_string()));
    assert_eq!(b.pos(), 16);
    assert_eq!(read_name(&mut b), Ok("www.google.com".to_string()));
    assert_eq!(b.pos(), 22);
}

#[test]
fn qname_pointer_chain_resumes_after_first_pointer() {
    // offset 0: "com"; offset 5: pointer to 0; offset 7: pointer to 5
    let mut b = buffer_with(&[3, b'c', b'o', b'm', 0, 0xC0, 0x00, 0xC0, 0x05]);
    b.seek(7);
    assert_eq!(read_name(&mut b), Ok("com".to_string()));
    assert_eq!(b.pos(), 9);
}

#[test]
fn qname_cycles_are_refused() {
    let mut b = buffer_with(&[0xC0, 0x02, 0xC0, 0x00]);
    let mut s = String::new();
    assert_eq!(b.read_qname(&mut s), Err(DnsError::CompressionLoop));
    assert_eq!(s, "");
    assert_eq!(b.pos(), 0);
    let mut b = buffer_with(&[0xC0, 0x00]);
    assert_eq!(read_name(&mut b), Err(DnsError::CompressionLoop));
}

#[test]
fn qname_five_pointers_are_allowed_six_are_not() {
    // offsets 0..10: pointers each to the next; offset 10: "a"
    let mut bytes = vec![];
    for k in 0..5u8 {
        bytes.extend_from_slice(&[0xC0, 2 * k + 2]);
    }
    bytes.extend_from_slice(&[1, b'a', 0]);
    let mut b = buffer_with(&bytes);
    assert_eq!(read_name(&mut b), Ok("a".to_string()));
    assert_eq!(b.pos(), 2);
    let mut bytes = vec![];
    for k in 0..6u8 {
        bytes.extend_from_slice(&[0xC0, 2 * k + 2]);
    }
    bytes.extend_from_slice(&[1, b'a', 0]);
    let mut b = buffer_with(&bytes);
    assert_eq!(read_name(&mut b), Err(DnsError::CompressionLoop));
}

#[test]
fn qname_truncated_is_end_of_buffer() {
    let mut b = BytePacketBuffer::new();
    b.buf[510] = 5;
    b.seek(510);
    assert_eq!(read_name(&mut b), Err(DnsError::EndOfBuffer));
    b.buf[511] = 0xC0;
    b.seek(511);
    assert_eq!(read_name(&mut b), Err(DnsError::EndOfBuffer));
    let mut b = buffer_with(&[0xFF, 0xFF]);
    assert_eq!(read_name(&mut b), Err(DnsError::EndOfBuffer));
}

#[test]
fn label_length_limit() {
    let ok = "a".repeat(63);
    let mut b = BytePacketBuffer::new();
    assert_eq!(b.write_qname(&ok), Ok(()));
    assert_eq!(b.pos(), 65);
    assert_eq!(b.buf[0], 63);
    let long = format!("x.{}", "a".repeat(64));
    let mut b = BytePacketBuffer::new();
    assert_eq!(b.write_qname(&long), Err(DnsError::LabelTooLong));
    assert_eq!(b.pos(), 0);
}

#[test]
fn qname_that_does_not_fit() {
    let mut b = BytePacketBuffer::new();
    b.seek(500);
    assert_eq!(b.write_qname("example.com"), Err(DnsError::EndOfBuffer));
    assert_eq!(b.pos(), 500);
    b.seek(499);
    assert_eq!(b.write_qname("example.com"), Ok(()));
    assert_eq!(b.pos(), 512);
}

#[test]
fn query_type_codes() {
    assert_eq!(QueryType::from_num(1), QueryType::A);
    assert_eq!(QueryType::from_num(28), QueryType::AAAA);
    assert_eq!(QueryType::from_num(99), QueryType::Unknown(99));
    assert_eq!(QueryType::Unknown(99).to_num(), 99);
    assert_eq!(QueryType::MX.to_num(), 15);
    for n in [0u16, 1, 2, 5, 15, 28, 255, 65535] {
        assert_eq!(QueryType::from_num(n).to_num(), n);
    }
}

#[test]
fn header_round_trip() {
    let mut h = DnsHeader::new();
    h.id = 0xBEEF;
    h.response = true;
    h.opcode = 5;
    h.truncated_message = true;
    h.recursion_available = true;
    h.authed_data = true;
    h.rescode = 3;
    h.questions = 1;
    h.resource_entries = 9;
    let mut b = BytePacketBuffer::new();
    assert_eq!(h.write(&mut b), Ok(()));
    assert_eq!(&b.buf[..4], &[0xBE, 0xEF, 0x80 | (5 << 3) | 2, 0x80 | 0x20 | 3]);
    b.seek(0);
    let mut back = DnsHeader::new();
    assert_eq!(back.read(&mut b), Ok(()));
    assert_eq!(back, h);
    assert_eq!(b.pos(), 12);
}

#[test]
fn question_round_trip() {
    let q = DnsQuestion::new("google.com".to_string(), QueryType::A);
    let mut b = BytePacketBuffer::new();
    assert_eq!(q.write(&mut b), Ok(()));
    assert_eq!(b.pos(), 16);
    assert_eq!(&b.buf[12..16], &[0, 1, 0, 1]);
    b.seek(0);
    let mut back = DnsQuestion::new(String::new(), QueryType::Unknown(0));
    assert_eq!(back.read(&mut b), Ok(()));
    assert_eq!(back, q);
}

#[test]
fn a_record_with_wrong_length_is_malformed() {
    let mut bytes = vec![0u8, 0, 1, 0, 1, 0, 0, 1, 0x2C, 0, 5];
    bytes.extend_from_slice(&[1, 2, 3, 4, 5]);
    let mut b = buffer_with(&bytes);
    assert_eq!(DnsRecord::read(&mut b), Err(DnsError::MalformedRecord));
}

#[test]
fn unknown_record_keeps_its_bytes() {
    let mut bytes = vec![1u8, b'x', 0, 0, 99, 0, 1, 0, 0, 0, 7, 0, 3, 9, 8, 7, 0xAA];
    bytes.push(0);
    let mut b = buffer_with(&bytes);
    let r = DnsRecord::read(&mut b).unwrap();
    assert_eq!(
        r,
        DnsRecord::Unknown { domain: "x".to_string(), qtype: 99, data: vec![9, 8, 7], ttl: 7 }
    );
    assert_eq!(b.pos(), 16);
    let mut out = BytePacketBuffer::new();
    assert_eq!(r.write(&mut out), Ok(()));
    assert_eq!(&out.buf[..16], &bytes[..16]);
}

#[test]
fn record_data_past_end() {
    let mut b = BytePacketBuffer::new();
    b.seek(498);
    // root name, type 99, class, ttl, length 4 with only 3 bytes left
    let tail = [0u8, 0, 99, 0, 1, 0, 0, 0, 1, 0, 4];
    b.buf[498..509].copy_from_slice(&tail);
    assert_eq!(DnsRecord::read(&mut b), Err(DnsError::EndOfBuffer));
}

fn example_response() -> Vec<u8> {
    let mut bytes = vec![0x12, 0x34, 0x81, 0x80, 0, 1, 0, 1, 0, 0, 0, 0];
    bytes.extend_from_slice(&[7]);
    bytes.extend_from_slice(b"example");
    bytes.extend_from_slice(&[3]);
    bytes.extend_from_slice(b"com");
    bytes.extend_from_slice(&[0, 0, 1, 0, 1]);
    bytes.extend_from_slice(&[0xC0, 12, 0, 1, 0, 1, 0, 0, 1, 0x2C, 0, 4, 93, 184, 216, 34]);
    bytes
}

#[test]
fn decode_example_response() {
    let mut b = buffer_with(&example_response());
    let p = DnsPacket::from_buffer(&mut b).unwrap();
    assert_eq!(p.header.id, 0x1234);
    assert!(p.header.response);
    assert!(p.header.recursion_desired);
    assert!(p.header.recursion_available);
    assert_eq!(p.questions.len(), 1);
    assert_eq!(p.questions[0].name, "example.com");
    assert_eq!(p.questions[0].qtype, QueryType::A);
    assert_eq!(p.answers.len(), 1);
    assert_eq!(
        p.answers[0],
        DnsRecord::A { domain: "example.com".to_string(), addr: [93, 184, 216, 34], ttl: 300 }
    );
    assert!(p.authorities.is_empty());
    assert!(p.resources.is_empty());
    assert_eq!(b.pos(), example_response().len());
}

#[test]
fn decode_fails_on_bad_record() {
    let mut bytes = example_response();
    let n = bytes.len();
    bytes[n - 5] = 5;
    let mut b = buffer_with(&bytes);
    assert_eq!(DnsPacket::from_buffer(&mut b), Err(DnsError::MalformedRecord));
}

#[test]
fn packet_round_trip() {
    let mut p = DnsPacket::new();
    p.header.id = 6666;
    p.header.recursion_desired = true;
    p.header.questions = 40;
    p.questions.push(DnsQuestion::new("google.com".to_string(), QueryType::A));
    p.answers.push(DnsRecord::A { domain: "google.com".to_string(), addr: [1, 2, 3, 4], ttl: 60 });
    p.resources.push(DnsRecord::Unknown {
        domain: "ns.google.com".to_string(),
        qtype: 16,
        data: vec![3, b'a', b'b', b'c'],
        ttl: 5,
    });
    let mut b = BytePacketBuffer::new();
    assert_eq!(p.write(&mut b), Ok(()));
    let end = b.pos();
    b.seek(0);
    let back = DnsPacket::from_buffer(&mut b).unwrap();
    assert_eq!(b.pos(), end);
    p.header.questions = 1;
    p.header.answers = 1;
    p.header.resource_entries = 1;
    assert_eq!(back, p);
}

#[test]
fn packet_too_large() {
    let mut p = DnsPacket::new();
    for _ in 0..40 {
        p.questions.push(DnsQuestion::new("a-rather-long-name.example.com".to_string(), QueryType::A));
    }
    let mut b = BytePacketBuffer::new();
    assert_eq!(p.write(&mut b), Err(DnsError::EndOfBuffer));
    let mut p = DnsPacket::new();
    p.questions.push(DnsQuestion::new("a".repeat(70), QueryType::A));
    let mut b = BytePacketBuffer::new();
    assert_eq!(p.write(&mut b), Err(DnsError::LabelTooLong));
}

#[test]
fn aaaa_record_round_trip() {
    let addr = [0x20, 0x01, 0x0d, 0xb8, 0, 0, 0, 0, 0, 0, 0, 0, 0, 0, 0, 1];
    let r = DnsRecord::AAAA { domain: "v6.example".to_string(), addr, ttl: 3600 };
    let mut b = BytePacketBuffer::new();
    assert_eq!(r.write(&mut b), Ok(()));
    // name (12) + fixed fields (10) + address (16)
    assert_eq!(b.pos(), 38);
    assert_eq!(&b.buf[12..22], &[0, 28, 0, 1, 0, 0, 0x0E, 0x10, 0, 16]);
    b.seek(0);
    assert_eq!(DnsRecord::read(&mut b), Ok(r));
    assert_eq!(b.pos(), 38);
}

#[test]
fn aaaa_record_with_wrong_length_is_malformed() {
    let bytes = [0u8, 0, 28, 0, 1, 0, 0, 0, 1, 0, 4, 1, 2, 3, 4];
    let mut b = buffer_with(&bytes);
    assert_eq!(DnsRecord::read(&mut b), Err(DnsError::MalformedRecord));
}

#[test]
fn other_known_types_are_kept_raw() {
    // an MX record: preference 10, exchange "m"
    let bytes = [0u8, 0, 15, 0, 1, 0, 0, 0, 9, 0, 5, 0, 10, 1, b'm', 0];
    let mut b = buffer_with(&bytes);
    assert_eq!(
        DnsRecord::read(&mut b),
        Ok(DnsRecord::Unknown { domain: String::new(), qtype: 15, data: vec![0, 10, 1, b'm', 0], ttl: 9 })
    );
    assert_eq!(b.pos(), 16);
}

#[test]
fn root_name_decodes_empty() {
    let mut b = BytePacketBuffer::new();
    assert_eq!(read_name(&mut b), Ok(String::new()));
    assert_eq!(b.pos(), 1);
}

#[test]
fn invalid_utf8_label_is_replaced() {
    let mut b = buffer_with(&[2, 0xFF, b'A', 0]);
    assert_eq!(read_name(&mut b), Ok("\u{FFFD}a".to_string()));
}
