use dnsrelay::error::DnsError;
use dnsrelay::protocol::bytepacket::{BytePacketReader, BytePacketWriter};
use dnsrelay::protocol::header::DnsHeader;
use dnsrelay::protocol::packet::DnsPacket;
use dnsrelay::protocol::question::DnsQuestion;
use dnsrelay::protocol::record::DnsRecord;

fn sample_header() -> DnsHeader {
    DnsHeader {
        id: 0x1234,
        qr: true,
        opcode: 2,
        aa: true,
        tc: false,
        rd: true,
        ra: true,
        rcode: 3,
        qdcount: 1,
        ancount: 2,
        nscount: 3,
        arcount: 4,
    }
}

#[test]
fn header_packs_flags_in_order() {
    let mut w = BytePacketWriter::new(vec![0u8; 12]);
    sample_header().write(&mut w).unwrap();
    assert_eq!(w.pos(), 12);
    let bytes = w.into_bytes();
    assert_eq!(bytes, vec![0x12, 0x34, 0x95, 0x83, 0, 1, 0, 2, 0, 3, 0, 4]);
}

#[test]
fn header_round_trip() {
    let mut w = BytePacketWriter::new(vec![0u8; 12]);
    let h = sample_header();
    h.write(&mut w).unwrap();
    let bytes = w.into_bytes();
    let mut r = BytePacketReader::new(&bytes);
    let back = DnsHeader::from_byte_packet(&mut r).unwrap();
    assert_eq!(back, h);
    assert_eq!(r.remaining(), 0);
}

#[test]
fn header_round_trip_all_clear() {
    let h = DnsHeader::new();
    let mut w = BytePacketWriter::new(vec![0u8; 12]);
    h.write(&mut w).unwrap();
    let bytes = w.into_bytes();
    assert_eq!(bytes, vec![0u8; 12]);
    let mut r = BytePacketReader::new(&bytes);
    assert_eq!(DnsHeader::from_byte_packet(&mut r).unwrap(), h);
}

#[test]
fn header_reserved_bits_ignored_on_read() {
    let bytes = [0u8, 7, 0x00, 0x70, 0, 0, 0, 0, 0, 0, 0, 0];
    let mut r = BytePacketReader::new(&bytes);
    let h = DnsHeader::from_byte_packet(&mut r).unwrap();
    assert_eq!(h.id, 7);
    assert!(!h.ra);
    assert_eq!(h.rcode, 0);
}

#[test]
fn header_short_buffer_fails() {
    let bytes = [0u8; 11];
    let mut r = BytePacketReader::new(&bytes);
    assert_eq!(DnsHeader::from_byte_packet(&mut r), Err(DnsError::EndOfBuffer));
    assert_eq!(r.remaining(), 11);
    let mut w = BytePacketWriter::new(vec![9u8; 11]);
    assert_eq!(sample_header().write(&mut w), Err(DnsError::EndOfBuffer));
    assert_eq!(w.pos(), 0);
    assert_eq!(w.into_bytes(), vec![9u8; 11]);
}

#[test]
fn name_wire_form() {
    let mut w = BytePacketWriter::new(vec![0u8; 8]);
    w.write_name("ab.c").unwrap();
    assert_eq!(w.pos(), 6);
    assert_eq!(w.into_bytes(), vec![2, b'a', b'b', 1, b'c', 0, 0, 0]);
}

#[test]
fn name_round_trip() {
    let name = "www.example.com";
    let mut w = BytePacketWriter::new(vec![0u8; 64]);
    w.write_name(name).unwrap();
    assert_eq!(w.pos(), name.len() + 2);
    let bytes = w.into_bytes();
    let mut r = BytePacketReader::new(&bytes);
    assert_eq!(r.read_name().unwrap(), name);
    assert_eq!(r.remaining(), 64 - name.len() - 2);
}

#[test]
fn name_round_trip_non_ascii() {
    let name = "b\u{fc}cher.example";
    let mut w = BytePacketWriter::new(vec![0u8; 64]);
    w.write_name(name).unwrap();
    let bytes = w.into_bytes();
    assert_eq!(bytes[0], 7);
    let mut r = BytePacketReader::new(&bytes);
    assert_eq!(r.read_name().unwrap(), name);
}

#[test]
fn label_of_255_bytes_is_written() {
    let label = "a".repeat(255);
    let mut w = BytePacketWriter::new(vec![0u8; 512]);
    assert_eq!(w.write_name(&label), Ok(()));
    assert_eq!(w.pos(), 257);
    let bytes = w.into_bytes();
    assert_eq!(bytes[0], 255);
    let mut r = BytePacketReader::new(&bytes);
    assert_eq!(r.read_name().unwrap(), label);
}

#[test]
fn label_of_256_bytes_is_refused() {
    let name = format!("ok.{}", "a".repeat(256));
    let mut w = BytePacketWriter::new(vec![0u8; 512]);
    assert_eq!(w.write_name(&name), Err(DnsError::LabelTooLong));
    assert_eq!(w.pos(), 0);
    assert_eq!(w.into_bytes(), vec![0u8; 512]);
}

#[test]
fn name_that_does_not_fit_writes_nothing() {
    let mut w = BytePacketWriter::new(vec![0u8; 5]);
    assert_eq!(w.write_name("abcd"), Err(DnsError::EndOfBuffer));
    assert_eq!(w.pos(), 0);
    let mut w = BytePacketWriter::new(vec![0u8; 6]);
    assert_eq!(w.write_name("abcd"), Ok(()));
    assert_eq!(w.pos(), 6);
}

#[test]
fn read_at_end_fails_and_keeps_cursor() {
    let bytes = [0xABu8];
    let mut r = BytePacketReader::new(&bytes);
    assert_eq!(r.read_u16(), Err(DnsError::EndOfBuffer));
    assert_eq!(r.remaining(), 1);
    assert_eq!(r.read_u8(), Ok(0xAB));
    assert_eq!(r.read_u8(), Err(DnsError::EndOfBuffer));
    assert_eq!(r.remaining(), 0);
}

#[test]
fn read_u16_is_big_endian() {
    let bytes = [0x01u8, 0x02];
    let mut r = BytePacketReader::new(&bytes);
    assert_eq!(r.read_u16(), Ok(0x0102));
}

#[test]
fn write_at_end_fails_and_keeps_cursor() {
    let mut w = BytePacketWriter::new(vec![0u8; 3]);
    assert_eq!(w.write_u32(1), Err(DnsError::EndOfBuffer));
    assert_eq!(w.pos(), 0);
    assert_eq!(w.write_u16(0xBEEF), Ok(()));
    assert_eq!(w.write_u16(1), Err(DnsError::EndOfBuffer));
    assert_eq!(w.pos(), 2);
    assert_eq!(w.write_u8(7), Ok(()));
    assert_eq!(w.write_u8(8), Err(DnsError::EndOfBuffer));
    assert_eq!(w.into_bytes(), vec![0xBE, 0xEF, 7]);
}

#[test]
fn write_u32_is_big_endian() {
    let mut w = BytePacketWriter::new(vec![0u8; 4]);
    w.write_u32(0x0A0B0C0D).unwrap();
    assert_eq!(w.into_bytes(), vec![0x0A, 0x0B, 0x0C, 0x0D]);
}

#[test]
fn read_name_rejects_invalid_text() {
    let bytes = [2u8, 0xFF, 0xFE, 0];
    let mut r = BytePacketReader::new(&bytes);
    assert_eq!(r.read_name(), Err(DnsError::Encoding));
    assert_eq!(r.remaining(), 4);
}

#[test]
fn read_name_truncated() {
    let bytes = [3u8, b'a', b'b'];
    let mut r = BytePacketReader::new(&bytes);
    assert_eq!(r.read_name(), Err(DnsError::EndOfBuffer));
    assert_eq!(r.remaining(), 3);
    let bytes = [1u8, b'a'];
    let mut r = BytePacketReader::new(&bytes);
    assert_eq!(r.read_name(), Err(DnsError::EndOfBuffer));
}

#[test]
fn read_empty_name() {
    let bytes = [0u8, 9];
    let mut r = BytePacketReader::new(&bytes);
    assert_eq!(r.read_name().unwrap(), "");
    assert_eq!(r.remaining(), 1);
}

fn query_bytes(id: u16, name: &str, qtype: u16) -> Vec<u8> {
    let mut p = DnsPacket::new();
    p.header.id = id;
    p.header.rd = true;
    p.header.qdcount = 1;
    p.questions.push(DnsQuestion { qname: name.to_string(), qtype });
    let mut buf = [0u8; 512];
    let n = p.write(&mut buf).unwrap();
    buf[..n].to_vec()
}

#[test]
fn question_wire_form() {
    let q = DnsQuestion { qname: "a.b".to_string(), qtype: 28 };
    let mut w = BytePacketWriter::new(vec![0u8; 16]);
    q.write(&mut w).unwrap();
    assert_eq!(w.pos(), 9);
    let bytes = w.into_bytes();
    assert_eq!(&bytes[..9], &[1, b'a', 1, b'b', 0, 0, 28, 0, 1]);
    let mut r = BytePacketReader::new(&bytes);
    let back = DnsQuestion::from_byte_packet(&mut r).unwrap();
    assert_eq!(back.qname, "a.b");
    assert_eq!(back.qtype, 28);
}

#[test]
fn question_read_into_keeps_value_on_failure() {
    let bytes = [1u8, b'x', 0, 0];
    let mut r = BytePacketReader::new(&bytes);
    let mut q = DnsQuestion::new();
    q.qtype = 5;
    assert_eq!(q.read(&mut r), Err(DnsError::EndOfBuffer));
    assert_eq!(q.qtype, 5);
    assert_eq!(q.qname, "");
}

#[test]
fn record_wire_form() {
    let rec = DnsRecord::A { name: "x".to_string(), addr: [10, 0, 0, 5], ttl: 100 };
    let mut w = BytePacketWriter::new(vec![0u8; 32]);
    rec.write(&mut w).unwrap();
    assert_eq!(w.pos(), 17);
    let bytes = w.into_bytes();
    assert_eq!(
        &bytes[..17],
        &[1, b'x', 0, 0, 1, 0, 1, 0, 0, 0, 100, 0, 4, 10, 0, 0, 5]
    );
}

#[test]
fn record_that_does_not_fit_writes_nothing() {
    let rec = DnsRecord::A { name: "x".to_string(), addr: [1, 2, 3, 4], ttl: 1 };
    let mut w = BytePacketWriter::new(vec![0u8; 16]);
    assert_eq!(rec.write(&mut w), Err(DnsError::EndOfBuffer));
    assert_eq!(w.pos(), 0);
}

#[test]
fn packet_decodes_header_and_questions() {
    let bytes = query_bytes(0xCAFE, "local.test", 1);
    let p = DnsPacket::from(&bytes).unwrap();
    assert_eq!(p.header.id, 0xCAFE);
    assert!(p.header.rd);
    assert_eq!(p.questions.len(), 1);
    assert_eq!(p.questions[0].qname, "local.test");
    assert_eq!(p.questions[0].qtype, 1);
    assert!(p.answers.is_empty());
}

#[test]
fn packet_without_question_is_refused() {
    let bytes = [0u8; 12];
    assert_eq!(DnsPacket::from(&bytes).unwrap_err(), DnsError::NoQuestion);
}

#[test]
fn packet_with_missing_question_is_refused() {
    let mut bytes = query_bytes(1, "a.b", 1);
    bytes[5] = 2;
    assert_eq!(DnsPacket::from(&bytes).unwrap_err(), DnsError::EndOfBuffer);
    assert_eq!(DnsPacket::from(&bytes[..5]).unwrap_err(), DnsError::EndOfBuffer);
}

#[test]
fn packet_encode_round_trip() {
    let bytes = query_bytes(42, "example.org", 1);
    assert_eq!(bytes.len(), 12 + 13 + 4);
    let p = DnsPacket::from(&bytes).unwrap();
    let mut out = [0u8; 512];
    let n = p.write(&mut out).unwrap();
    assert_eq!(&out[..n], &bytes[..]);
}

#[test]
fn packet_too_large_leaves_buffer() {
    let bytes = query_bytes(42, "example.org", 1);
    let p = DnsPacket::from(&bytes).unwrap();
    let mut out = [7u8; 20];
    assert_eq!(p.write(&mut out), Err(DnsError::EndOfBuffer));
    assert_eq!(out, [7u8; 20]);
}

#[test]
fn packet_with_long_label_is_refused() {
    let mut p = DnsPacket::new();
    p.header.qdcount = 1;
    p.questions.push(DnsQuestion { qname: "b".repeat(300), qtype: 1 });
    let mut out = [7u8; 512];
    assert_eq!(p.write(&mut out), Err(DnsError::LabelTooLong));
    assert_eq!(out, [7u8; 512]);
}
