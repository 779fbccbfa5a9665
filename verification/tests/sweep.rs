use recursor::dns::{DnsPacket, DnsQuestion, DnsRecord, QueryType, ResultCode};
use recursor::packetbuff::PacketBuffer;

struct Dice(u64);

impl Dice {
    fn roll(&mut self, sides: u64) -> u64 {
        self.0 = self.0.wrapping_mul(6364136223846793005).wrapping_add(1442695040888963407);
        (self.0 >> 33) % sides
    }

    fn name(&mut self) -> String {
        let labels = self.roll(4);
        let mut parts = Vec::new();
        for _ in 0..labels {
            let len = 1 + self.roll(12) as usize;
            let letters = b"abcdefghijklmnopqrstuvwxyz0123456789-_";
            let label: String =
                (0..len).map(|_| letters[self.roll(38) as usize] as char).collect();
            parts.push(label);
        }
        parts.join(".")
    }

    fn record(&mut self) -> DnsRecord {
        let domain = self.name();
        let ttl = self.roll(1 << 32) as u32;
        match self.roll(5) {
            0 => DnsRecord::A { domain, addr: [self.roll(256) as u8; 4], ttl },
            1 => DnsRecord::AAAA { domain, addr: [self.roll(256) as u8; 16], ttl },
            2 => DnsRecord::NS { domain, ns: self.name(), ttl },
            3 => DnsRecord::CNAME { domain, cname: self.name(), ttl },
            _ => DnsRecord::MX {
                domain,
                preference: self.roll(65536) as u16,
                exchange: self.name(),
                ttl,
            },
        }
    }

    fn packet(&mut self) -> DnsPacket {
        let mut p = DnsPacket::new();
        p.header.id = self.roll(65536) as u16;
        p.header.qr = self.roll(2) == 1;
        p.header.opcode = self.roll(16) as u8;
        p.header.aa = self.roll(2) == 1;
        p.header.tc = self.roll(2) == 1;
        p.header.rd = self.roll(2) == 1;
        p.header.ra = self.roll(2) == 1;
        p.header.z = self.roll(8) as u8;
        p.header.rcode = ResultCode::from_u8(self.roll(6) as u8);
        for _ in 0..self.roll(3) {
            let qtype = QueryType::from_u16(self.roll(40) as u16);
            p.add_question(DnsQuestion::new(self.name(), qtype));
        }
        for _ in 0..self.roll(4) {
            let r = self.record();
            p.add_answer(r);
        }
        for _ in 0..self.roll(4) {
            let r = self.record();
            p.add_authority(r);
        }
        for _ in 0..self.roll(4) {
            let r = self.record();
            p.add_additional(r);
        }
        p
    }
}

#[test]
fn packets_of_many_shapes_are_read_back_as_written() {
    let mut dice = Dice(2024);
    let mut written = 0;
    for _ in 0..400 {
        let packet = dice.packet();
        let start = dice.roll(100) as usize;
        let mut b = PacketBuffer::new();
        b.seek(start);
        let mut copy = packet.clone();
        match copy.write(&mut b) {
            Ok(()) => {
                written += 1;
                let end = b.pos();
                assert!(end < 512);
                b.seek(start);
                assert_eq!(DnsPacket::read(&mut b), Ok(packet));
                assert_eq!(b.pos(), end);
            }
            Err(_) => {
                assert_eq!(b.pos(), start);
                assert!(b.buf.iter().all(|x| *x == 0));
            }
        }
    }
    assert!(written > 100);
}

#[test]
fn reading_any_bytes_ends_with_a_packet_or_with_the_cursor_in_place() {
    let mut dice = Dice(7);
    let mut read = 0;
    for round in 0..600 {
        let mut b = PacketBuffer::new();
        for i in 0..512 {
            b.buf[i] = match round % 3 {
                0 => dice.roll(256) as u8,
                1 => dice.roll(4) as u8,
                _ => if dice.roll(8) == 0 { 0xc0 } else { dice.roll(3) as u8 },
            };
        }
        b.buf[4] = 0;
        b.buf[6] = 0;
        b.buf[8] = 0;
        b.buf[10] = 0;
        b.buf[5] %= 3;
        b.buf[7] %= 3;
        b.buf[9] %= 3;
        b.buf[11] %= 3;
        let before = b.buf;
        match DnsPacket::read(&mut b) {
            Ok(p) => {
                read += 1;
                assert_eq!(p.questions.len(), p.header.qdcount as usize);
                assert_eq!(p.answers.len(), p.header.ancount as usize);
                assert_eq!(p.authorities.len(), p.header.nscount as usize);
                assert_eq!(p.additionals.len(), p.header.arcount as usize);
            }
            Err(_) => assert_eq!(b.pos(), 0),
        }
        assert_eq!(&b.buf[..], &before[..]);
    }
    assert!(read > 0);
}
