//! Delegation-walk scenarios with a mocked transport: the test plays
//! the upstream, feeding responses hop by hop, and counts the queries
//! the walk asks for.

use dns_server::dns_packet::DnsPacket;
use dns_server::dns_record::DnsRecord;
use dns_server::query_type::QueryType;
use dns_server::resolver::Resolver;
use dns_server::result_code::ResultCode;
use dns_server::server::{build_response, query_of};
use dns_server::dns_question::DnsQuestion;

const ROOT: u32 = 0xC629_0004;

fn answer_packet(domain: &str, addr: u32) -> DnsPacket {
    let mut p = DnsPacket::new();
    p.header.rescode = ResultCode::NOERROR;
    p.answers.push(DnsRecord::A { domain: String::from(domain), addr, ttl: 60 });
    p
}

#[test]
fn walk_stops_on_first_hop_answer() {
    let mut resolver = Resolver::new(String::from("example.com"), QueryType::A, ROOT);
    let (server, qname, qtype) = resolver.current();
    assert_eq!(server, ROOT);
    assert_eq!(qname, "example.com");
    assert_eq!(qtype, QueryType::A);
    let reply = answer_packet("example.com", 0x01020304);
    let out = resolver.on_response(reply.clone());
    // one query, and the first-hop response comes back unchanged
    assert_eq!(out, Some(reply));
}

#[test]
fn walk_stops_on_nxdomain() {
    let mut resolver = Resolver::new(String::from("nosuch.example"), QueryType::A, ROOT);
    let mut reply = DnsPacket::new();
    reply.header.rescode = ResultCode::NXDOMAIN;
    let out = resolver.on_response(reply.clone());
    assert_eq!(out, Some(reply));
}

#[test]
fn walk_chases_glued_referral_in_two_queries() {
    let mut resolver = Resolver::new(String::from("www.example.com"), QueryType::A, ROOT);
    let mut queries = 0;

    // hop 1: a referral to ns1.example.com with a glue address
    let (server, _, _) = resolver.current();
    assert_eq!(server, ROOT);
    queries += 1;
    let mut referral = DnsPacket::new();
    referral.authorities.push(DnsRecord::NS {
        domain: String::from("example.com"),
        host: String::from("ns1.example.com"),
        ttl: 600,
    });
    referral.resources.push(DnsRecord::A {
        domain: String::from("ns1.example.com"),
        addr: 0x0A000001,
        ttl: 600,
    });
    assert_eq!(resolver.on_response(referral), None);

    // hop 2: the glue address is asked next and answers
    let (server, qname, qtype) = resolver.current();
    assert_eq!(server, 0x0A000001);
    assert_eq!(qname, "www.example.com");
    assert_eq!(qtype, QueryType::A);
    queries += 1;
    let reply = answer_packet("www.example.com", 0x01020304);
    let out = resolver.on_response(reply.clone());
    assert_eq!(out, Some(reply));
    assert_eq!(queries, 2);
}

#[test]
fn walk_resolves_unglued_nameserver_via_nested_lookup() {
    let mut resolver = Resolver::new(String::from("www.example.com"), QueryType::A, ROOT);

    // hop 1: a referral without glue starts a nested walk at the root
    let mut referral = DnsPacket::new();
    referral.authorities.push(DnsRecord::NS {
        domain: String::from("example.com"),
        host: String::from("ns1.example.com"),
        ttl: 600,
    });
    assert_eq!(resolver.on_response(referral), None);
    let (server, qname, qtype) = resolver.current();
    assert_eq!(server, ROOT);
    assert_eq!(qname, "ns1.example.com");
    assert_eq!(qtype, QueryType::A);

    // the nested walk answers with the nameserver's address
    assert_eq!(resolver.on_response(answer_packet("ns1.example.com", 0x0A000002)), None);
    let (server, qname, _) = resolver.current();
    assert_eq!(server, 0x0A000002);
    assert_eq!(qname, "www.example.com");

    // and the outer walk finishes there
    let reply = answer_packet("www.example.com", 0x01020304);
    assert_eq!(resolver.on_response(reply.clone()), Some(reply));
}

#[test]
fn walk_gives_up_without_referral_information() {
    let mut resolver = Resolver::new(String::from("example.com"), QueryType::A, ROOT);
    let empty = DnsPacket::new();
    // NOERROR but no answers and no referral: best-effort terminal
    assert_eq!(resolver.on_response(empty.clone()), Some(empty));
}

#[test]
fn server_formerr_on_empty_question_section() {
    let mut request = DnsPacket::new();
    request.header.id = 777;
    assert_eq!(query_of(&request), None);
    let response = build_response(&request, None);
    assert_eq!(response.header.id, 777);
    assert!(response.header.response);
    assert_eq!(response.header.rescode, ResultCode::FORMERR);
    assert!(response.questions.is_empty());
    assert!(response.answers.is_empty());
    assert!(response.authorities.is_empty());
    assert!(response.resources.is_empty());
}

#[test]
fn server_servfail_on_failed_resolution() {
    let mut request = DnsPacket::new();
    request.header.id = 778;
    request.questions.push(DnsQuestion::new(String::from("example.com"), QueryType::A));
    assert!(query_of(&request).is_some());
    // the mocked transport failed: no outcome to propagate
    let response = build_response(&request, None);
    assert_eq!(response.header.id, 778);
    assert_eq!(response.header.rescode, ResultCode::SERVFAIL);
    assert!(response.questions.is_empty());
    assert!(response.answers.is_empty());

    // the loop survives and serves the next datagram normally
    let mut next = DnsPacket::new();
    next.header.id = 779;
    next.questions.push(DnsQuestion::new(String::from("example.com"), QueryType::A));
    let outcome = answer_packet("example.com", 0x01020304);
    let ok = build_response(&next, Some(&outcome));
    assert_eq!(ok.header.id, 779);
    assert_eq!(ok.header.rescode, ResultCode::NOERROR);
    assert_eq!(ok.questions, next.questions);
    assert_eq!(ok.answers, outcome.answers);
}

#[test]
fn server_success_copies_sections_and_rescode() {
    let mut request = DnsPacket::new();
    request.header.id = 900;
    request.questions.push(DnsQuestion::new(String::from("example.com"), QueryType::MX));
    let mut outcome = DnsPacket::new();
    outcome.header.rescode = ResultCode::NXDOMAIN;
    outcome.authorities.push(DnsRecord::SOA {
        domain: String::from("example.com"),
        m_name: String::from("ns1.example.com"),
        r_name: String::from("admin.example.com"),
        serial: 1,
        refresh: 2,
        retry: 3,
        expire: 4,
        minimum: 5,
        ttl: 6,
    });
    let response = build_response(&request, Some(&outcome));
    assert_eq!(response.header.rescode, ResultCode::NXDOMAIN);
    assert_eq!(response.questions, request.questions);
    assert_eq!(response.authorities, outcome.authorities);
    assert!(response.answers.is_empty());
}
