use recursor::dns::{DnsHeader, DnsPacket, DnsQuestion, DnsRecord, QueryType, ResultCode};
use recursor::error::DnsError;
use recursor::packetbuff::PacketBuffer;
use recursor::resolve::{
    build_failure, build_query, build_reply, first_question, judge, reply_to, Action, Lookup,
    Resolver, Verdict, DNS_PORT,
};

const ROOT: [u8; 4] = [198, 41, 0, 4];

fn a_record(domain: &str, addr: [u8; 4]) -> DnsRecord {
    DnsRecord::A { domain: domain.to_string(), addr, ttl: 60 }
}

fn ns_record(domain: &str, ns: &str) -> DnsRecord {
    DnsRecord::NS { domain: domain.to_string(), ns: ns.to_string(), ttl: 60 }
}

fn answer(domain: &str, addr: [u8; 4]) -> DnsPacket {
    let mut p = DnsPacket::new();
    p.header.qr = true;
    p.add_question(DnsQuestion::new(domain.to_string(), QueryType::A));
    p.add_answer(a_record(domain, addr));
    p
}

fn referral(zone: &str, host: &str, glue: Option<[u8; 4]>) -> DnsPacket {
    let mut p = DnsPacket::new();
    p.header.qr = true;
    p.add_authority(ns_record(zone, host));
    if let Some(addr) = glue {
        p.add_additional(a_record(host, addr));
    }
    p
}

fn query(qname: &str, qtype: QueryType, server: [u8; 4]) -> Action {
    Action::Query { qname: qname.to_string(), qtype, server }
}

#[test]
fn a_resolution_begins_with_a_query_to_the_given_server() {
    let (r, action) = Resolver::start("example.com".to_string(), QueryType::A, ROOT);
    assert_eq!(action, query("example.com", QueryType::A, ROOT));
    assert!(r.is_active());
    assert_eq!(r.server, ROOT);
    assert_eq!(
        r.pending,
        vec![Lookup { qname: "example.com".to_string(), qtype: QueryType::A }]
    );
}

#[test]
fn an_answer_from_the_root_is_the_result() {
    let (mut r, _) = Resolver::start("example.com".to_string(), QueryType::A, ROOT);
    let response = answer("example.com", [93, 184, 216, 34]);
    let action = r.on_response(response.clone());
    assert_eq!(action, Action::Done(response));
    if let Action::Done(result) = action {
        assert_eq!(result.header.rcode, ResultCode::NOERROR);
    }
    assert!(!r.is_active());
}

#[test]
fn a_referral_with_glue_is_followed_to_the_glued_address() {
    let (mut r, _) = Resolver::start("example.com".to_string(), QueryType::A, ROOT);
    let action = r.on_response(referral("com", "a.gtld-servers.net", Some([192, 5, 6, 30])));
    assert_eq!(action, query("example.com", QueryType::A, [192, 5, 6, 30]));
    assert_eq!(r.server, [192, 5, 6, 30]);
    assert_eq!(r.pending.len(), 1);
    let response = answer("example.com", [93, 184, 216, 34]);
    assert_eq!(r.on_response(response.clone()), Action::Done(response));
}

#[test]
fn a_referral_without_glue_is_resolved_from_the_current_server() {
    let (mut r, _) = Resolver::start("example.com".to_string(), QueryType::MX, ROOT);
    let tld = [192, 5, 6, 30];
    assert_eq!(
        r.on_response(referral("com", "a.gtld-servers.net", Some(tld))),
        query("example.com", QueryType::MX, tld)
    );
    let action = r.on_response(referral("example.com", "ns1.example.net", None));
    assert_eq!(action, query("ns1.example.net", QueryType::A, tld));
    assert_eq!(r.pending.len(), 2);
    assert_eq!(r.server, tld);
    let action = r.on_response(referral("net", "b.gtld-servers.net", Some([192, 33, 14, 30])));
    assert_eq!(action, query("ns1.example.net", QueryType::A, [192, 33, 14, 30]));
    assert_eq!(r.pending.len(), 2);
    let action = r.on_response(answer("ns1.example.net", [203, 0, 113, 5]));
    assert_eq!(action, query("example.com", QueryType::MX, [203, 0, 113, 5]));
    assert_eq!(r.pending.len(), 1);
    assert_eq!(r.server, [203, 0, 113, 5]);
    let mut last = DnsPacket::new();
    last.add_answer(DnsRecord::MX {
        domain: "example.com".to_string(),
        preference: 10,
        exchange: "mail.example.com".to_string(),
        ttl: 60,
    });
    assert_eq!(r.on_response(last.clone()), Action::Done(last));
    assert!(!r.is_active());
}

#[test]
fn an_inner_lookup_without_an_address_ends_the_resolution() {
    let (mut r, _) = Resolver::start("example.com".to_string(), QueryType::A, ROOT);
    assert_eq!(
        r.on_response(referral("com", "ns.nowhere.net", None)),
        query("ns.nowhere.net", QueryType::A, ROOT)
    );
    assert_eq!(
        r.on_response(referral("net", "deep.nowhere.org", None)),
        query("deep.nowhere.org", QueryType::A, ROOT)
    );
    assert_eq!(r.pending.len(), 3);
    let mut gone = DnsPacket::new();
    gone.header.rcode = ResultCode::NXDOMAIN;
    assert_eq!(r.on_response(gone.clone()), Action::Done(gone));
    assert!(!r.is_active());
    assert!(r.pending.is_empty());
}

#[test]
fn a_name_that_does_not_exist_ends_the_resolution_at_once() {
    let (mut r, _) = Resolver::start("nope.example".to_string(), QueryType::A, ROOT);
    let mut gone = referral("example", "ns.example", Some([1, 2, 3, 4]));
    gone.header.rcode = ResultCode::NXDOMAIN;
    let action = r.on_response(gone.clone());
    assert_eq!(action, Action::Done(gone));
    if let Action::Done(result) = action {
        assert_eq!(result.header.rcode, ResultCode::NXDOMAIN);
    }
    assert!(!r.is_active());
}

#[test]
fn a_response_without_name_servers_is_the_result() {
    let (mut r, _) = Resolver::start("example.com".to_string(), QueryType::A, ROOT);
    let mut empty = DnsPacket::new();
    empty.header.qr = true;
    empty.add_authority(a_record("com", [1, 1, 1, 1]));
    empty.add_authority(ns_record("org", "ns.org"));
    assert_eq!(r.on_response(empty.clone()), Action::Done(empty));
    assert!(!r.is_active());
}

#[test]
fn an_error_with_answers_is_not_an_answer() {
    let mut p = answer("example.com", [9, 9, 9, 9]);
    p.header.rcode = ResultCode::SERVFAIL;
    assert_eq!(judge(&p, "example.com"), Verdict::Final);
    p.add_authority(ns_record("com", "ns.com"));
    assert_eq!(judge(&p, "example.com"), Verdict::Unresolved("ns.com".to_string()));
    p.add_additional(a_record("ns.com", [7, 7, 7, 7]));
    assert_eq!(judge(&p, "example.com"), Verdict::Referral([7, 7, 7, 7]));
    p.header.rcode = ResultCode::NOERROR;
    assert_eq!(judge(&p, "example.com"), Verdict::Final);
}

#[test]
fn glue_is_preferred_to_an_earlier_name_server_without_it() {
    let mut p = DnsPacket::new();
    p.add_authority(ns_record("com", "a.net"));
    p.add_authority(ns_record("com", "b.net"));
    p.add_additional(a_record("b.net", [2, 2, 2, 2]));
    assert_eq!(judge(&p, "example.com"), Verdict::Referral([2, 2, 2, 2]));
    assert_eq!(judge(&p, "example.org"), Verdict::Final);
}

#[test]
fn a_response_after_the_end_is_handed_back() {
    let (mut r, _) = Resolver::start("example.com".to_string(), QueryType::A, ROOT);
    let first = answer("example.com", [1, 1, 1, 1]);
    assert_eq!(r.on_response(first.clone()), Action::Done(first));
    let late = referral("com", "ns.com", Some([2, 2, 2, 2]));
    assert_eq!(r.on_response(late.clone()), Action::Done(late));
    assert!(!r.is_active());
}

#[test]
fn a_query_asks_one_question_and_wants_recursion() {
    let p = build_query("example.com".to_string(), QueryType::AAAA);
    let mut header = DnsHeader::new();
    header.id = 1234;
    header.rd = true;
    header.qdcount = 1;
    assert_eq!(p.header, header);
    assert_eq!(p.questions, vec![DnsQuestion::new("example.com".to_string(), QueryType::AAAA)]);
    assert!(p.answers.is_empty() && p.authorities.is_empty() && p.additionals.is_empty());
}

#[test]
fn a_request_is_answered_for_its_first_question() {
    let mut request = DnsPacket::new();
    request.add_question(DnsQuestion::new("first.com".to_string(), QueryType::A));
    request.add_question(DnsQuestion::new("second.com".to_string(), QueryType::NS));
    assert_eq!(
        first_question(&request),
        Ok(&DnsQuestion::new("first.com".to_string(), QueryType::A))
    );
}

#[test]
fn a_request_without_a_question_gets_a_format_error() {
    let mut buffer = PacketBuffer::new();
    buffer.buf[0] = 0xbe;
    buffer.buf[1] = 0xef;
    let request = DnsPacket::read(&mut buffer).unwrap();
    assert_eq!(request.header.qdcount, 0);
    assert_eq!(first_question(&request), Err(DnsError::EmptyQuestionSet));
    let reply = build_failure(request.header.id, ResultCode::FORMERR);
    assert_eq!(reply.header.id, 0xbeef);
    assert_eq!(reply.header.rcode, ResultCode::FORMERR);
    assert!(reply.header.qr && reply.header.rd && reply.header.ra);
    assert_eq!(
        (reply.header.qdcount, reply.header.ancount, reply.header.nscount, reply.header.arcount),
        (0, 0, 0, 0)
    );
    assert!(reply.questions.is_empty() && reply.answers.is_empty());
    let mut reply = reply;
    let mut out = PacketBuffer::new();
    assert_eq!(reply.write(&mut out), Ok(()));
    assert_eq!(out.as_slice(), &[0xbeu8, 0xef, 0x81, 0x81, 0, 0, 0, 0, 0, 0, 0, 0][..]);
}

#[test]
fn a_failed_transport_is_reported_as_a_server_failure() {
    let reply = build_failure(77, ResultCode::SERVFAIL);
    assert_eq!(reply.header.id, 77);
    assert_eq!(reply.header.rcode, ResultCode::SERVFAIL);
    assert!(reply.header.qr && reply.header.rd && reply.header.ra);
    assert!(reply.questions.is_empty());
}

#[test]
fn a_reply_carries_the_result_section_by_section() {
    let mut result = referral("example.com", "ns1.example.com", Some([192, 0, 2, 53]));
    result.header.id = 1234;
    result.header.aa = true;
    result.header.rcode = ResultCode::REFUSED;
    result.add_answer(a_record("example.com", [1, 2, 3, 4]));
    result.add_answer(a_record("example.com", [5, 6, 7, 8]));
    let question = DnsQuestion::new("example.com".to_string(), QueryType::A);
    let reply = build_reply(4242, question.clone(), result.clone());
    let mut header = DnsHeader::new();
    header.id = 4242;
    header.qr = true;
    header.rd = true;
    header.ra = true;
    header.rcode = ResultCode::REFUSED;
    header.qdcount = 1;
    header.ancount = 2;
    header.nscount = 1;
    header.arcount = 1;
    assert_eq!(reply.header, header);
    assert_eq!(reply.questions, vec![question]);
    assert_eq!(reply.answers, result.answers);
    assert_eq!(reply.authorities, result.authorities);
    assert_eq!(reply.additionals, result.additionals);
}

#[test]
fn name_servers_are_asked_at_port_53() {
    assert_eq!(DNS_PORT, 53);
}

#[test]
fn the_reply_to_a_request_without_a_question_is_a_format_error() {
    let mut request = DnsPacket::new();
    request.header.id = 0x0102;
    let result = answer("example.com", [1, 2, 3, 4]);
    for outcome in [Err(DnsError::EmptyQuestionSet), Err(DnsError::TransportFailure), Ok(result)] {
        assert_eq!(reply_to(&request, outcome), build_failure(0x0102, ResultCode::FORMERR));
    }
}

#[test]
fn the_reply_to_a_failed_resolution_is_a_server_failure() {
    let mut request = DnsPacket::new();
    request.header.id = 9;
    request.add_question(DnsQuestion::new("example.com".to_string(), QueryType::A));
    for e in [DnsError::TransportFailure, DnsError::OutOfBounds, DnsError::MalformedCompression] {
        assert_eq!(reply_to(&request, Err(e)), build_failure(9, ResultCode::SERVFAIL));
    }
}

#[test]
fn the_reply_to_a_resolved_request_answers_its_first_question() {
    let mut request = DnsPacket::new();
    request.header.id = 31;
    request.add_question(DnsQuestion::new("example.com".to_string(), QueryType::A));
    request.add_question(DnsQuestion::new("other.com".to_string(), QueryType::MX));
    let mut result = answer("example.com", [1, 2, 3, 4]);
    result.header.rcode = ResultCode::NXDOMAIN;
    let reply = reply_to(&request, Ok(result.clone()));
    assert_eq!(
        reply,
        build_reply(31, DnsQuestion::new("example.com".to_string(), QueryType::A), result)
    );
    assert_eq!(reply.header.rcode, ResultCode::NXDOMAIN);
    assert_eq!(reply.header.id, 31);
    assert_eq!(reply.questions.len(), 1);
}

#[test]
fn a_whole_exchange_goes_through_the_wire() {
    let mut query = build_query("Example.COM".to_string(), QueryType::A);
    let mut wire = PacketBuffer::new();
    assert_eq!(query.write(&mut wire), Ok(()));
    wire.seek(0);
    let request = DnsPacket::read(&mut wire).unwrap();
    let question = first_question(&request).unwrap();
    assert_eq!(question.qname, "example.com");
    let (mut resolver, first) =
        Resolver::start(question.qname.clone(), question.qtype, ROOT);
    assert_eq!(first, query_action("example.com", ROOT));
    let step = resolver.on_response(referral("com", "a.gtld-servers.net", Some([192, 5, 6, 30])));
    assert_eq!(step, query_action("example.com", [192, 5, 6, 30]));
    let done = resolver.on_response(answer("example.com", [93, 184, 216, 34]));
    let result = match done {
        Action::Done(result) => result,
        other => panic!("not done: {:?}", other),
    };
    let mut reply = reply_to(&request, Ok(result));
    let mut out = PacketBuffer::new();
    assert_eq!(reply.write(&mut out), Ok(()));
    out.seek(0);
    let back = DnsPacket::read(&mut out).unwrap();
    assert_eq!(back, reply);
    assert_eq!(back.header.id, 1234);
    assert_eq!(back.get_any_a(), Some([93, 184, 216, 34]));
}

fn query_action(qname: &str, server: [u8; 4]) -> Action {
    Action::Query { qname: qname.to_string(), qtype: QueryType::A, server }
}
