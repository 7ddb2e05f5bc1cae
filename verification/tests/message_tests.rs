//! Whole-message behaviour: header fields, every record variant, and
//! the encode-then-decode round trip.

use dns_server::byte_packet_buffer::BytePacketBuffer;
use dns_server::dns_header::DnsHeader;
use dns_server::dns_packet::DnsPacket;
use dns_server::dns_question::DnsQuestion;
use dns_server::dns_record::DnsRecord;
use dns_server::query_type::QueryType;
use dns_server::result_code::ResultCode;

fn round_trip(mut packet: DnsPacket) -> DnsPacket {
    let mut buffer = BytePacketBuffer::new();
    packet.write(&mut buffer).unwrap();
    buffer.seek(0).unwrap();
    DnsPacket::from_buffer(&mut buffer).unwrap()
}

#[test]
fn query_type_codes() {
    assert_eq!(QueryType::A.to_num(), 1);
    assert_eq!(QueryType::NS.to_num(), 2);
    assert_eq!(QueryType::CNAME.to_num(), 5);
    assert_eq!(QueryType::SOA.to_num(), 6);
    assert_eq!(QueryType::MX.to_num(), 15);
    assert_eq!(QueryType::TXT.to_num(), 16);
    assert_eq!(QueryType::AAAA.to_num(), 28);
    assert_eq!(QueryType::from_num(28), QueryType::AAAA);
    assert_eq!(QueryType::from_num(99), QueryType::UNKNOWN(99));
}

#[test]
fn result_code_round_trip() {
    for n in 0u8..6 {
        assert_eq!(ResultCode::from_num(n).to_num(), n);
    }
    assert_eq!(ResultCode::from_num(200), ResultCode::NOERROR);
}

#[test]
fn header_wire_is_twelve_bytes() {
    let mut h = DnsHeader::new();
    h.id = 0x1234;
    h.recursion_desired = true;
    h.response = true;
    h.opcode = 2;
    h.rescode = ResultCode::NXDOMAIN;
    h.questions = 1;
    let mut b = BytePacketBuffer::new();
    h.write(&mut b).unwrap();
    assert_eq!(b.pos, 12);
    // id, then flags: qr=1 opcode=2 rd=1 -> 0x91; rcode=3 -> 0x03
    assert_eq!(&b.buf[0..4], &[0x12, 0x34, 0x91, 0x03]);
    assert_eq!(&b.buf[4..6], &[0x00, 0x01]);
    let mut h2 = DnsHeader::new();
    b.seek(0).unwrap();
    h2.read(&mut b).unwrap();
    assert_eq!(h2, h);
}

#[test]
fn message_round_trip_all_variants() {
    let mut packet = DnsPacket::new();
    packet.header.id = 4660;
    packet.header.recursion_desired = true;
    packet.questions.push(DnsQuestion::new(String::from("example.com"), QueryType::A));
    packet.answers.push(DnsRecord::A { domain: String::from("example.com"), addr: 0x01020304, ttl: 300 });
    packet.answers.push(DnsRecord::AAAA {
        domain: String::from("example.com"),
        addr: 0x20010DB8000000000000000000000001,
        ttl: 300,
    });
    packet.answers.push(DnsRecord::CNAME {
        domain: String::from("www.example.com"),
        host: String::from("example.com"),
        ttl: 60,
    });
    packet.answers.push(DnsRecord::MX {
        domain: String::from("example.com"),
        priority: 10,
        host: String::from("mail.example.com"),
        ttl: 60,
    });
    packet.answers.push(DnsRecord::TXT {
        domain: String::from("example.com"),
        data: vec![104, 105],
        ttl: 60,
    });
    packet.answers.push(DnsRecord::UNKNOWN {
        domain: String::from("example.com"),
        qtype: 99,
        data: vec![1, 2, 3],
        ttl: 60,
    });
    packet.authorities.push(DnsRecord::NS {
        domain: String::from("example.com"),
        host: String::from("ns1.example.com"),
        ttl: 600,
    });
    packet.authorities.push(DnsRecord::SOA {
        domain: String::from("example.com"),
        m_name: String::from("ns1.example.com"),
        r_name: String::from("admin.example.com"),
        serial: 7,
        refresh: 1200,
        retry: 180,
        expire: 1209600,
        minimum: 60,
        ttl: 600,
    });
    packet.resources.push(DnsRecord::A {
        domain: String::from("ns1.example.com"),
        addr: 0x7F000001,
        ttl: 600,
    });

    let decoded = round_trip(packet.clone());
    assert_eq!(decoded.questions, packet.questions);
    assert_eq!(decoded.answers, packet.answers);
    assert_eq!(decoded.authorities, packet.authorities);
    assert_eq!(decoded.resources, packet.resources);
    assert_eq!(decoded.header.id, packet.header.id);
    assert_eq!(decoded.header.recursion_desired, true);
    assert_eq!(decoded.header.rescode, ResultCode::NOERROR);
    assert_eq!(decoded.header.questions, 1);
    assert_eq!(decoded.header.answers, 6);
    assert_eq!(decoded.header.authoritative_entries, 2);
    assert_eq!(decoded.header.resource_entries, 1);
}

#[test]
fn message_too_large_is_rejected() {
    let mut packet = DnsPacket::new();
    packet.questions.push(DnsQuestion::new(String::from("example.com"), QueryType::A));
    for _ in 0..40 {
        packet.answers.push(DnsRecord::TXT {
            domain: String::from("a-rather-long-owner-name.example.com"),
            data: vec![7; 30],
            ttl: 1,
        });
    }
    let mut buffer = BytePacketBuffer::new();
    assert_eq!(
        packet.write(&mut buffer),
        Err(dns_server::dns_error::DnsError::BufferBounds)
    );
}

#[test]
fn referral_queries() {
    let mut resp = DnsPacket::new();
    resp.authorities.push(DnsRecord::NS {
        domain: String::from("example.com"),
        host: String::from("ns1.example.com"),
        ttl: 600,
    });
    resp.authorities.push(DnsRecord::NS {
        domain: String::from("example.com"),
        host: String::from("ns2.example.com"),
        ttl: 600,
    });
    resp.resources.push(DnsRecord::A {
        domain: String::from("ns2.example.com"),
        addr: 0x05060708,
        ttl: 600,
    });
    // ns1 has no glue, ns2 does: the glued one wins
    assert_eq!(resp.get_resolved_ns("www.example.com"), Some(0x05060708));
    // the first matching NS, glued or not, is the unresolved candidate
    assert_eq!(resp.get_unresolved_ns("www.example.com"), Some(String::from("ns1.example.com")));
    // a name outside the zone matches nothing
    assert_eq!(resp.get_resolved_ns("other.org"), None);
    assert_eq!(resp.get_unresolved_ns("other.org"), None);
    assert_eq!(resp.get_random_a(), None);
    let mut with_answer = DnsPacket::new();
    with_answer.answers.push(DnsRecord::A { domain: String::from("x"), addr: 9, ttl: 1 });
    assert_eq!(with_answer.get_random_a(), Some(9));
}
