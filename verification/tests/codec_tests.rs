//! Byte-level codec behaviour: buffer bounds, name compression,
//! pointer-cycle defence, and exact wire bytes.

use dns_server::byte_packet_buffer::BytePacketBuffer;
use dns_server::dns_error::DnsError;

#[test]
fn read_past_end_is_buffer_bounds() {
    let mut b = BytePacketBuffer::new();
    b.seek(512).unwrap();
    assert_eq!(b.read(), Err(DnsError::BufferBounds));
    b.seek(511).unwrap();
    assert_eq!(b.read_u16(), Err(DnsError::BufferBounds));
    b.seek(510).unwrap();
    assert_eq!(b.read_u32(), Err(DnsError::BufferBounds));
}

#[test]
fn write_past_end_is_buffer_bounds() {
    let mut b = BytePacketBuffer::new();
    b.seek(512).unwrap();
    assert_eq!(b.write_u8(1), Err(DnsError::BufferBounds));
    b.seek(511).unwrap();
    assert_eq!(b.write_u16(0xABCD), Err(DnsError::BufferBounds));
    b.seek(509).unwrap();
    assert_eq!(b.write_u32(1), Err(DnsError::BufferBounds));
    assert_eq!(b.set_u16(511, 7), Err(DnsError::BufferBounds));
}

#[test]
fn get_range_checks_bounds() {
    let b = BytePacketBuffer::new();
    assert!(b.get_range(500, 12).is_ok());
    assert_eq!(b.get_range(501, 12), Err(DnsError::BufferBounds));
    assert_eq!(b.get(512), Err(DnsError::BufferBounds));
    assert_eq!(b.get(511), Ok(0));
}

#[test]
fn u16_u32_round_trip_exact_bytes() {
    let mut b = BytePacketBuffer::new();
    b.write_u16(0x1234).unwrap();
    b.write_u32(0xDEADBEEF).unwrap();
    assert_eq!(&b.buf[0..6], &[0x12, 0x34, 0xDE, 0xAD, 0xBE, 0xEF]);
    b.seek(0).unwrap();
    assert_eq!(b.read_u16().unwrap(), 0x1234);
    assert_eq!(b.read_u32().unwrap(), 0xDEADBEEF);
}

#[test]
fn set_u16_patches_in_place() {
    let mut b = BytePacketBuffer::new();
    b.write_u32(0).unwrap();
    b.set_u16(1, 0x0708).unwrap();
    assert_eq!(&b.buf[0..4], &[0, 0x07, 0x08, 0]);
    assert_eq!(b.pos, 4);
}

#[test]
fn write_qname_exact_bytes() {
    let mut b = BytePacketBuffer::new();
    b.write_qname("example.com").unwrap();
    let mut expected: Vec<u8> = vec![7];
    expected.extend_from_slice(b"example");
    expected.push(3);
    expected.extend_from_slice(b"com");
    expected.push(0);
    assert_eq!(&b.buf[0..13], expected.as_slice());
    assert_eq!(b.pos, 13);
}

#[test]
fn write_qname_root_is_single_zero() {
    let mut b = BytePacketBuffer::new();
    b.write_qname("").unwrap();
    assert_eq!(b.buf[0], 0);
    assert_eq!(b.pos, 1);
}

#[test]
fn write_qname_rejects_long_label() {
    let mut b = BytePacketBuffer::new();
    let long = "a".repeat(64);
    assert_eq!(b.write_qname(&long), Err(DnsError::LabelTooLong));
    // a failed encode leaves the buffer untouched
    assert_eq!(b.pos, 0);
    assert!(b.buf.iter().all(|&x| x == 0));
    let ok = "a".repeat(63);
    assert!(b.write_qname(&ok).is_ok());
}

#[test]
fn read_qname_lowercases_labels() {
    let mut b = BytePacketBuffer::new();
    b.write_qname("EXAMPLE.CoM").unwrap();
    b.seek(0).unwrap();
    let mut out = String::new();
    b.read_qname(&mut out).unwrap();
    assert_eq!(out, "example.com");
}

#[test]
fn read_qname_follows_compression_pointer() {
    let mut b = BytePacketBuffer::new();
    b.write_qname("example.com").unwrap();
    // second name: label "mail" then a pointer back to offset 0
    b.write_u8(4).unwrap();
    for &x in b"mail" {
        b.write_u8(x).unwrap();
    }
    b.write_u8(0xC0).unwrap();
    b.write_u8(0x00).unwrap();
    b.seek(0).unwrap();
    let mut first = String::new();
    b.read_qname(&mut first).unwrap();
    assert_eq!(first, "example.com");
    assert_eq!(b.pos, 13);
    let mut second = String::new();
    b.read_qname(&mut second).unwrap();
    assert_eq!(second, "mail.example.com");
    // the cursor sits right after the 2-byte pointer
    assert_eq!(b.pos, 13 + 5 + 2);
}

#[test]
fn read_qname_rejects_pointer_to_itself() {
    let mut b = BytePacketBuffer::new();
    b.write_u8(0xC0).unwrap();
    b.write_u8(0x00).unwrap();
    b.seek(0).unwrap();
    let mut out = String::new();
    assert_eq!(b.read_qname(&mut out), Err(DnsError::MalformedMessage));
}

#[test]
fn read_qname_rejects_pointer_cycle() {
    let mut b = BytePacketBuffer::new();
    // two pointers referring to each other
    b.write_u8(0xC0).unwrap();
    b.write_u8(0x02).unwrap();
    b.write_u8(0xC0).unwrap();
    b.write_u8(0x00).unwrap();
    b.seek(0).unwrap();
    let mut out = String::new();
    assert_eq!(b.read_qname(&mut out), Err(DnsError::MalformedMessage));
}

#[test]
fn read_qname_out_of_bounds_label() {
    let mut b = BytePacketBuffer::new();
    b.seek(508).unwrap();
    b.write_u8(63).unwrap();
    b.seek(508).unwrap();
    let mut out = String::new();
    assert_eq!(b.read_qname(&mut out), Err(DnsError::BufferBounds));
}
