use recursor::dns::{DnsHeader, DnsPacket, DnsQuestion, DnsRecord, QueryType, ResultCode};
use recursor::error::DnsError;
use recursor::packetbuff::PacketBuffer;

fn a_record(domain: &str, addr: [u8; 4], ttl: u32) -> DnsRecord {
    DnsRecord::A { domain: domain.to_string(), addr, ttl }
}

fn ns_record(domain: &str, ns: &str, ttl: u32) -> DnsRecord {
    DnsRecord::NS { domain: domain.to_string(), ns: ns.to_string(), ttl }
}

#[test]
fn result_codes_have_their_numbers() {
    assert_eq!(ResultCode::from_u8(0), ResultCode::NOERROR);
    assert_eq!(ResultCode::from_u8(1), ResultCode::FORMERR);
    assert_eq!(ResultCode::from_u8(2), ResultCode::SERVFAIL);
    assert_eq!(ResultCode::from_u8(3), ResultCode::NXDOMAIN);
    assert_eq!(ResultCode::from_u8(4), ResultCode::NOTIMP);
    assert_eq!(ResultCode::from_u8(5), ResultCode::REFUSED);
    for code in 0..6u8 {
        assert_eq!(ResultCode::from_u8(code).to_u8(), code);
    }
}

#[test]
fn a_number_without_a_code_stands_for_no_error() {
    for code in 6..=255u8 {
        assert_eq!(ResultCode::from_u8(code), ResultCode::NOERROR);
    }
}

#[test]
fn query_types_have_their_numbers() {
    assert_eq!(QueryType::from_u16(1), QueryType::A);
    assert_eq!(QueryType::from_u16(2), QueryType::NS);
    assert_eq!(QueryType::from_u16(5), QueryType::CNAME);
    assert_eq!(QueryType::from_u16(15), QueryType::MX);
    assert_eq!(QueryType::from_u16(28), QueryType::AAAA);
    assert_eq!(QueryType::from_u16(16), QueryType::UNKOWN(16));
    assert_eq!(QueryType::from_u16(0), QueryType::UNKOWN(0));
    for number in [0u16, 1, 2, 5, 15, 16, 28, 255, 65535] {
        assert_eq!(QueryType::from_u16(number).to_u16(), number);
    }
    assert_eq!(QueryType::UNKOWN(1).to_u16(), 1);
}

#[test]
fn a_new_header_is_all_zero() {
    let h = DnsHeader::new();
    let mut b = PacketBuffer::new();
    assert_eq!(h.write(&mut b), Ok(()));
    assert_eq!(b.pos(), 12);
    assert!(b.buf.iter().all(|x| *x == 0));
    assert_eq!(h.rcode, ResultCode::NOERROR);
    assert!(!h.qr && !h.aa && !h.tc && !h.rd && !h.ra);
}

#[test]
fn a_header_has_its_twelve_bytes() {
    let h = DnsHeader {
        id: 0xabcd,
        qr: true,
        opcode: 0b1010,
        aa: true,
        tc: false,
        rd: true,
        ra: true,
        z: 0b101,
        rcode: ResultCode::NXDOMAIN,
        qdcount: 1,
        ancount: 0x0203,
        nscount: 4,
        arcount: 0xffff,
    };
    let mut b = PacketBuffer::new();
    assert_eq!(h.write(&mut b), Ok(()));
    assert_eq!(
        b.as_slice(),
        &[0xabu8, 0xcd, 0b1101_0101, 0b1101_0011, 0, 1, 2, 3, 0, 4, 0xff, 0xff][..]
    );
    b.seek(0);
    assert_eq!(DnsHeader::read(&mut b), Ok(h));
    assert_eq!(b.pos(), 12);
}

#[test]
fn each_flag_has_its_bit() {
    let cases: [(fn(&mut DnsHeader), u8, u8); 5] = [
        (|h| h.qr = true, 0x80, 0),
        (|h| h.aa = true, 0x04, 0),
        (|h| h.tc = true, 0x02, 0),
        (|h| h.rd = true, 0x01, 0),
        (|h| h.ra = true, 0, 0x80),
    ];
    for (set, high, low) in cases {
        let mut h = DnsHeader::new();
        set(&mut h);
        let mut b = PacketBuffer::new();
        h.write(&mut b).unwrap();
        assert_eq!((b.buf[2], b.buf[3]), (high, low));
        b.seek(0);
        assert_eq!(DnsHeader::read(&mut b), Ok(h));
    }
}

#[test]
fn of_an_opcode_that_is_too_large_the_low_bits_are_written() {
    let mut h = DnsHeader::new();
    h.opcode = 0xff;
    h.z = 0xff;
    let mut b = PacketBuffer::new();
    h.write(&mut b).unwrap();
    assert_eq!((b.buf[2], b.buf[3]), (0b0111_1000, 0b0111_0000));
    b.seek(0);
    let back = DnsHeader::read(&mut b).unwrap();
    assert_eq!((back.opcode, back.z), (15, 7));
}

#[test]
fn a_header_with_an_unknown_code_reads_as_no_error() {
    let mut b = PacketBuffer::new();
    b.buf[3] = 0x0b;
    let h = DnsHeader::read(&mut b).unwrap();
    assert_eq!(h.rcode, ResultCode::NOERROR);
    b.seek(0);
    b.buf[3] = 0x85;
    let h = DnsHeader::read(&mut b).unwrap();
    assert_eq!(h.rcode, ResultCode::REFUSED);
    assert!(h.ra);
}

#[test]
fn a_header_needs_room() {
    let mut b = PacketBuffer::new();
    b.seek(500);
    assert_eq!(DnsHeader::new().write(&mut b), Err(DnsError::OutOfBounds));
    assert_eq!(DnsHeader::read(&mut b), Err(DnsError::OutOfBounds));
    assert_eq!(b.pos(), 500);
    b.seek(499);
    assert_eq!(DnsHeader::new().write(&mut b), Ok(()));
    assert_eq!(b.pos(), 511);
}

#[test]
fn a_question_has_its_name_type_and_class() {
    let q = DnsQuestion::new("example.com".to_string(), QueryType::MX);
    assert_eq!(q.qname, "example.com");
    assert_eq!(q.qtype, QueryType::MX);
    let mut b = PacketBuffer::new();
    assert_eq!(q.write(&mut b), Ok(()));
    assert_eq!(b.as_slice(), &b"\x07example\x03com\x00\x00\x0f\x00\x01"[..]);
    b.seek(0);
    assert_eq!(DnsQuestion::read(&mut b), Ok(q));
    assert_eq!(b.pos(), 17);
}

#[test]
fn the_class_of_a_question_is_passed_over() {
    let mut b = PacketBuffer::new();
    b.buf[..9].copy_from_slice(b"\x02Ab\x00\x00\x1c\xff\xff\x07");
    let q = DnsQuestion::read(&mut b).unwrap();
    assert_eq!(q, DnsQuestion::new("ab".to_string(), QueryType::AAAA));
    assert_eq!(b.pos(), 8);
    let mut b = PacketBuffer::new();
    b.buf[507..509].copy_from_slice(b"\x00\x00");
    b.seek(507);
    let q = DnsQuestion::read(&mut b).unwrap();
    assert_eq!(q.qtype, QueryType::UNKOWN(0));
    assert_eq!(b.pos(), 512);
}

#[test]
fn a_question_cut_short_is_refused() {
    let mut b = PacketBuffer::new();
    b.buf[508..510].copy_from_slice(b"\x01a");
    b.seek(508);
    assert_eq!(DnsQuestion::read(&mut b), Err(DnsError::OutOfBounds));
    assert_eq!(b.pos(), 508);
}

#[test]
fn a_question_that_does_not_fit_changes_nothing() {
    let q = DnsQuestion::new("example.com".to_string(), QueryType::A);
    let mut b = PacketBuffer::new();
    b.seek(496);
    assert_eq!(q.write(&mut b), Err(DnsError::OutOfBounds));
    assert_eq!(b.pos(), 496);
    assert!(b.buf.iter().all(|x| *x == 0));
    b.seek(494);
    assert_eq!(q.write(&mut b), Ok(()));
    assert_eq!(b.pos(), 511);
}

#[test]
fn an_address_record_has_its_bytes() {
    let r = a_record("a.io", [192, 0, 2, 1], 0x01020304);
    let mut b = PacketBuffer::new();
    assert_eq!(r.write(&mut b), Ok(20));
    assert_eq!(
        b.as_slice(),
        &b"\x01a\x02io\x00\x00\x01\x00\x01\x01\x02\x03\x04\x00\x04\xc0\x00\x02\x01"[..]
    );
    b.seek(0);
    assert_eq!(DnsRecord::read(&mut b), Ok(r));
    assert_eq!(b.pos(), 20);
}

#[test]
fn an_ipv6_record_has_sixteen_bytes_of_data() {
    let addr = [0x20, 0x01, 0x0d, 0xb8, 0, 0, 0, 0, 0, 0, 0, 0, 0, 0, 0, 1];
    let r = DnsRecord::AAAA { domain: "v6.io".to_string(), addr, ttl: 60 };
    let mut b = PacketBuffer::new();
    assert_eq!(r.write(&mut b), Ok(7 + 10 + 16));
    assert_eq!(&b.buf[7..17], &b"\x00\x1c\x00\x01\x00\x00\x00\x3c\x00\x10"[..]);
    assert_eq!(&b.buf[17..33], &addr[..]);
    b.seek(0);
    assert_eq!(DnsRecord::read(&mut b), Ok(r));
}

#[test]
fn the_length_of_a_name_as_data_is_filled_in() {
    let r = ns_record("com", "a.gtld-servers.net", 172800);
    let mut b = PacketBuffer::new();
    assert_eq!(r.write(&mut b), Ok(5 + 10 + 20));
    assert_eq!(&b.buf[..5], &b"\x03com\x00"[..]);
    assert_eq!(&b.buf[5..15], &b"\x00\x02\x00\x01\x00\x02\xa3\x00\x00\x14"[..]);
    assert_eq!(&b.buf[15..35], &b"\x01a\x0cgtld-servers\x03net\x00"[..]);
    b.seek(0);
    assert_eq!(DnsRecord::read(&mut b), Ok(r));
    assert_eq!(b.pos(), 35);
}

#[test]
fn a_canonical_name_record_is_written_and_read() {
    let r = DnsRecord::CNAME {
        domain: "www.example.com".to_string(),
        cname: "example.com".to_string(),
        ttl: 5,
    };
    let mut b = PacketBuffer::new();
    assert_eq!(r.write(&mut b), Ok(17 + 10 + 13));
    assert_eq!(&b.buf[17..27], &b"\x00\x05\x00\x01\x00\x00\x00\x05\x00\x0d"[..]);
    b.seek(0);
    assert_eq!(DnsRecord::read(&mut b), Ok(r));
}

#[test]
fn a_mail_record_counts_its_preference_in_the_length() {
    let r = DnsRecord::MX {
        domain: "x.org".to_string(),
        preference: 0x0a0b,
        exchange: "mail.x.org".to_string(),
        ttl: 1,
    };
    let mut b = PacketBuffer::new();
    assert_eq!(r.write(&mut b), Ok(7 + 10 + 2 + 12));
    assert_eq!(&b.buf[7..17], &b"\x00\x0f\x00\x01\x00\x00\x00\x01\x00\x0e"[..]);
    assert_eq!(&b.buf[17..19], &[0x0au8, 0x0b][..]);
    assert_eq!(&b.buf[19..31], &b"\x04mail\x01x\x03org\x00"[..]);
    b.seek(0);
    assert_eq!(DnsRecord::read(&mut b), Ok(r));
    assert_eq!(b.pos(), 31);
}

#[test]
fn a_record_of_another_type_is_passed_over() {
    let mut b = PacketBuffer::new();
    b.buf[..16].copy_from_slice(b"\x01T\x00\x00\x10\x00\x01\x00\x00\x0e\x10\x00\x03abc");
    let r = DnsRecord::read(&mut b).unwrap();
    assert_eq!(
        r,
        DnsRecord::UNKOWN { domain: "t".to_string(), qtype: 16, data_len: 3, ttl: 3600 }
    );
    assert_eq!(b.pos(), 16);
}

#[test]
fn data_of_another_type_may_run_past_the_region() {
    let mut b = PacketBuffer::new();
    b.buf[..13].copy_from_slice(b"\x01t\x00\x00\x63\x00\x01\x00\x00\x00\x00\xff\xff");
    let r = DnsRecord::read(&mut b).unwrap();
    assert_eq!(
        r,
        DnsRecord::UNKOWN { domain: "t".to_string(), qtype: 99, data_len: 65535, ttl: 0 }
    );
    assert_eq!(b.pos(), 13 + 65535);
    assert_eq!(DnsRecord::read(&mut b), Err(DnsError::OutOfBounds));
}

#[test]
fn a_record_of_another_type_cannot_be_written() {
    let r = DnsRecord::UNKOWN { domain: "t".to_string(), qtype: 16, data_len: 3, ttl: 3600 };
    let mut b = PacketBuffer::new();
    b.seek(3);
    assert_eq!(r.write(&mut b), Err(DnsError::EncodingUnsupported));
    assert_eq!(b.pos(), 3);
    assert!(b.buf.iter().all(|x| *x == 0));
}

#[test]
fn the_stated_length_of_known_data_is_not_looked_at() {
    let mut b = PacketBuffer::new();
    let wire = b"\x01a\x00\x00\x01\x00\x01\x00\x00\x00\x07\x00\x63\x0a\x00\x00\x01";
    b.buf[..17].copy_from_slice(wire);
    assert_eq!(DnsRecord::read(&mut b), Ok(a_record("a", [10, 0, 0, 1], 7)));
    assert_eq!(b.pos(), 17);
}

#[test]
fn a_record_cut_short_is_refused_and_the_cursor_stays() {
    let r = a_record("a.io", [192, 0, 2, 1], 9);
    let mut b = PacketBuffer::new();
    b.seek(492);
    assert_eq!(r.write(&mut b), Err(DnsError::OutOfBounds));
    assert_eq!(b.pos(), 492);
    assert!(b.buf.iter().all(|x| *x == 0));
    b.seek(491);
    assert_eq!(r.write(&mut b), Ok(20));
    b.seek(491);
    assert_eq!(DnsRecord::read(&mut b), Ok(r));
    b.seek(491);
    b.buf[498] = 28;
    assert_eq!(DnsRecord::read(&mut b), Err(DnsError::OutOfBounds));
    assert_eq!(b.pos(), 491);
}

#[test]
fn a_record_with_a_label_too_long_changes_nothing() {
    let r = ns_record("ok.org", &"n".repeat(64), 1);
    let mut b = PacketBuffer::new();
    assert_eq!(r.write(&mut b), Err(DnsError::LabelTooLong));
    assert_eq!(b.pos(), 0);
    assert!(b.buf.iter().all(|x| *x == 0));
}

#[test]
fn names_in_records_may_point_back() {
    let mut b = PacketBuffer::new();
    b.buf[12..17].copy_from_slice(b"\x03com\x00");
    b.buf[30..32].copy_from_slice(b"\xc0\x0c");
    b.buf[32..42].copy_from_slice(b"\x00\x02\x00\x01\x00\x00\x00\x09\x00\x05");
    b.buf[42..47].copy_from_slice(b"\x02ns\xc0\x0c");
    b.seek(30);
    assert_eq!(DnsRecord::read(&mut b), Ok(ns_record("com", "ns.com", 9)));
    assert_eq!(b.pos(), 47);
}

fn sample_packet() -> DnsPacket {
    let mut p = DnsPacket::new();
    p.header.id = 0x1234;
    p.header.qr = true;
    p.header.rd = true;
    p.header.ra = true;
    p.header.opcode = 2;
    p.header.rcode = ResultCode::NOERROR;
    p.add_question(DnsQuestion::new("example.com".to_string(), QueryType::A));
    p.add_answer(a_record("example.com", [93, 184, 216, 34], 300));
    p.add_answer(DnsRecord::CNAME {
        domain: "www.example.com".to_string(),
        cname: "example.com".to_string(),
        ttl: 30,
    });
    p.add_authority(ns_record("example.com", "ns1.example.com", 86400));
    p.add_authority(DnsRecord::MX {
        domain: "example.com".to_string(),
        preference: 10,
        exchange: "mx.example.com".to_string(),
        ttl: 7,
    });
    p.add_additional(a_record("ns1.example.com", [192, 0, 2, 53], 86400));
    p.add_additional(DnsRecord::AAAA {
        domain: "ns1.example.com".to_string(),
        addr: [0x20, 0x01, 0x0d, 0xb8, 0, 0, 0, 0, 0, 0, 0, 0, 0, 0, 0, 0x53],
        ttl: 86400,
    });
    p
}

#[test]
fn a_new_packet_is_empty() {
    let p = DnsPacket::new();
    assert_eq!(p.header, DnsHeader::new());
    assert!(p.questions.is_empty());
    assert!(p.answers.is_empty());
    assert!(p.authorities.is_empty());
    assert!(p.additionals.is_empty());
}

#[test]
fn adding_entries_counts_them() {
    let mut p = DnsPacket::new();
    for n in 1..=40u16 {
        p.add_answer(a_record("a", [0, 0, 0, n as u8], 1));
        assert_eq!(p.header.ancount, n);
        assert_eq!(p.answers.len(), n as usize);
    }
    assert_eq!((p.header.qdcount, p.header.nscount, p.header.arcount), (0, 0, 0));
    p.add_question(DnsQuestion::new("q".to_string(), QueryType::NS));
    p.add_authority(ns_record("a", "b", 1));
    p.add_authority(ns_record("a", "c", 1));
    p.add_additional(a_record("b", [1, 1, 1, 1], 1));
    assert_eq!(
        (p.header.qdcount, p.header.ancount, p.header.nscount, p.header.arcount),
        (1, 40, 2, 1)
    );
    assert_eq!(p.answers[39], a_record("a", [0, 0, 0, 40], 1));
    assert_eq!(p.authorities[1], ns_record("a", "c", 1));
}

#[test]
fn a_packet_that_was_written_is_read_back() {
    let mut p = sample_packet();
    let mut b = PacketBuffer::new();
    assert_eq!(p.write(&mut b), Ok(()));
    let end = b.pos();
    assert_eq!(p, sample_packet());
    b.seek(0);
    assert_eq!(DnsPacket::read(&mut b), Ok(sample_packet()));
    assert_eq!(b.pos(), end);
}

#[test]
fn a_packet_is_its_header_then_its_sections() {
    let mut p = DnsPacket::new();
    p.header.id = 7;
    p.add_question(DnsQuestion::new("a".to_string(), QueryType::A));
    p.add_answer(a_record("a", [1, 2, 3, 4], 0));
    let mut b = PacketBuffer::new();
    assert_eq!(p.write(&mut b), Ok(()));
    let mut expected = vec![0u8, 7, 0, 0, 0, 1, 0, 1, 0, 0, 0, 0];
    expected.extend_from_slice(b"\x01a\x00\x00\x01\x00\x01");
    expected.extend_from_slice(b"\x01a\x00\x00\x01\x00\x01\x00\x00\x00\x00");
    expected.extend_from_slice(b"\x00\x04\x01\x02\x03\x04");
    assert_eq!(b.as_slice(), &expected[..]);
}

#[test]
fn the_counts_are_written_as_they_stand() {
    let mut p = DnsPacket::new();
    p.header.ancount = 3;
    let mut b = PacketBuffer::new();
    assert_eq!(p.write(&mut b), Ok(()));
    assert_eq!(b.pos(), 12);
    assert_eq!(b.buf[7], 3);
    b.seek(0);
    let back = DnsPacket::read(&mut b).unwrap();
    assert_eq!(back.header.ancount, 3);
    let blank = DnsRecord::UNKOWN { domain: String::new(), qtype: 0, data_len: 0, ttl: 0 };
    assert_eq!(back.answers, vec![blank.clone(), blank.clone(), blank]);
    assert_eq!(b.pos(), 12 + 3 * 11);
}

#[test]
fn a_packet_cut_short_is_refused() {
    let mut b = PacketBuffer::new();
    b.buf[5] = 1;
    b.buf[7] = 200;
    assert_eq!(DnsPacket::read(&mut b), Err(DnsError::OutOfBounds));
    assert_eq!(b.pos(), 0);
}

#[test]
fn a_packet_that_does_not_fit_changes_nothing() {
    let mut p = DnsPacket::new();
    for i in 0..40u8 {
        p.add_answer(a_record("example.com", [10, 0, 0, i], 1));
    }
    let mut b = PacketBuffer::new();
    b.seek(1);
    b.buf[0] = 0xee;
    assert_eq!(p.write(&mut b), Err(DnsError::OutOfBounds));
    assert_eq!(b.pos(), 1);
    assert_eq!(b.buf[0], 0xee);
    assert!(b.buf[1..].iter().all(|x| *x == 0));
}

#[test]
fn a_packet_with_a_record_that_has_no_wire_form_changes_nothing() {
    let mut p = sample_packet();
    let unknown = DnsRecord::UNKOWN { domain: "u".to_string(), qtype: 99, data_len: 0, ttl: 0 };
    p.add_additional(unknown);
    let mut b = PacketBuffer::new();
    assert_eq!(p.write(&mut b), Err(DnsError::EncodingUnsupported));
    assert_eq!(b.pos(), 0);
    assert!(b.buf.iter().all(|x| *x == 0));
}

#[test]
fn the_first_address_among_the_answers_is_found() {
    let mut p = DnsPacket::new();
    assert_eq!(p.get_any_a(), None);
    p.add_answer(ns_record("a", "b", 1));
    assert_eq!(p.get_any_a(), None);
    p.add_answer(a_record("x", [1, 1, 1, 1], 1));
    p.add_answer(a_record("y", [2, 2, 2, 2], 1));
    assert_eq!(p.get_any_a(), Some([1, 1, 1, 1]));
    p.add_additional(a_record("z", [3, 3, 3, 3], 1));
    assert_eq!(p.get_any_a(), Some([1, 1, 1, 1]));
}

fn referral() -> DnsPacket {
    let mut p = DnsPacket::new();
    p.add_authority(ns_record("org", "ns.org", 1));
    p.add_authority(ns_record("com", "a.gtld.net", 1));
    p.add_authority(a_record("com", [9, 9, 9, 9], 1));
    p.add_authority(ns_record("example.com", "ns1.example.com", 1));
    p.add_authority(ns_record("", "root.net", 1));
    p.add_additional(a_record("ns.org", [1, 1, 1, 1], 1));
    let v6 = DnsRecord::AAAA { domain: "ns1.example.com".to_string(), addr: [0; 16], ttl: 1 };
    p.add_additional(v6);
    p.add_additional(a_record("ns1.example.com", [2, 2, 2, 2], 1));
    p.add_additional(a_record("ns1.example.com", [3, 3, 3, 3], 1));
    p.add_additional(a_record("root.net", [4, 4, 4, 4], 1));
    p
}

#[test]
fn delegations_are_the_name_servers_of_suffixes() {
    let p = referral();
    assert_eq!(
        p.iter_ns("www.example.com"),
        vec![("com", "a.gtld.net"), ("example.com", "ns1.example.com"), ("", "root.net")]
    );
    assert_eq!(p.iter_ns("example.org"), vec![("org", "ns.org"), ("", "root.net")]);
    assert_eq!(p.iter_ns("xcom"), vec![("com", "a.gtld.net"), ("", "root.net")]);
    assert_eq!(p.iter_ns("om"), vec![("", "root.net")]);
    assert!(DnsPacket::new().iter_ns("com").is_empty());
}

#[test]
fn the_first_delegation_with_an_address_gives_the_server() {
    let p = referral();
    assert_eq!(p.get_resolved_ns("www.example.com"), Some([2, 2, 2, 2]));
    assert_eq!(p.get_resolved_ns("example.org"), Some([1, 1, 1, 1]));
    assert_eq!(p.get_resolved_ns("other.net"), Some([4, 4, 4, 4]));
    let mut q = DnsPacket::new();
    q.add_authority(ns_record("com", "a.gtld.net", 1));
    q.add_additional(a_record("b.gtld.net", [5, 5, 5, 5], 1));
    assert_eq!(q.get_resolved_ns("example.com"), None);
    assert_eq!(q.get_resolved_ns("example.org"), None);
}

#[test]
fn the_first_delegation_gives_the_name_to_look_up() {
    let p = referral();
    assert_eq!(p.get_unresolved_ns("www.example.com"), Some("a.gtld.net"));
    assert_eq!(p.get_unresolved_ns("example.org"), Some("ns.org"));
    assert_eq!(p.get_unresolved_ns("net"), Some("root.net"));
    assert_eq!(DnsPacket::new().get_unresolved_ns("net"), None);
}
