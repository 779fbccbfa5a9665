//! Resource records: what a message carries in its answer, authority and
//! additional sections.

use vstd::prelude::*;
use vstd::utf8::encode_utf8;
use crate::dns::question::{query_type_of, QueryType};
use crate::error::DnsError;
use crate::name::{name_at, name_wire};
use crate::packetbuff::PacketBuffer;
use crate::wire::{
    be16, be32, fits, lemma_splice_twice, put, splice, then, u16_of, u32_of, wire_len,
};

verus! {

/// A resource record. Each kind has the name that owns it and the number of
/// seconds it may be kept; an address is held as its bytes in network order.
#[derive(Debug, Clone, PartialEq, Eq)]
pub enum DnsRecord {
    /// A record of a type without a name here. Its data was passed over when
    /// it was read, and it cannot be written.
    UNKOWN { domain: String, qtype: u16, data_len: u16, ttl: u32 },
    /// An IPv4 address.
    A { domain: String, addr: [u8; 4], ttl: u32 },
    /// A name server for the domain.
    NS { domain: String, ns: String, ttl: u32 },
    /// The canonical name of the domain.
    CNAME { domain: String, cname: String, ttl: u32 },
    /// A mail exchange for the domain.
    MX { domain: String, preference: u16, exchange: String, ttl: u32 },
    /// An IPv6 address.
    AAAA { domain: String, addr: [u8; 16], ttl: u32 },
}

/// A record as a mathematical value.
pub enum RecordView {
    UNKOWN { domain: Seq<char>, qtype: u16, data_len: u16, ttl: u32 },
    A { domain: Seq<char>, addr: Seq<u8>, ttl: u32 },
    NS { domain: Seq<char>, ns: Seq<char>, ttl: u32 },
    CNAME { domain: Seq<char>, cname: Seq<char>, ttl: u32 },
    MX { domain: Seq<char>, preference: u16, exchange: Seq<char>, ttl: u32 },
    AAAA { domain: Seq<char>, addr: Seq<u8>, ttl: u32 },
}

impl View for DnsRecord {
    type V = RecordView;

    open spec fn view(&self) -> RecordView {
        match *self {
            DnsRecord::UNKOWN { domain, qtype, data_len, ttl } => RecordView::UNKOWN {
                domain: domain@,
                qtype,
                data_len,
                ttl,
            },
            DnsRecord::A { domain, addr, ttl } => RecordView::A {
                domain: domain@,
                addr: addr@,
                ttl,
            },
            DnsRecord::NS { domain, ns, ttl } => RecordView::NS { domain: domain@, ns: ns@, ttl },
            DnsRecord::CNAME { domain, cname, ttl } => RecordView::CNAME {
                domain: domain@,
                cname: cname@,
                ttl,
            },
            DnsRecord::MX { domain, preference, exchange, ttl } => RecordView::MX {
                domain: domain@,
                preference,
                exchange: exchange@,
                ttl,
            },
            DnsRecord::AAAA { domain, addr, ttl } => RecordView::AAAA {
                domain: domain@,
                addr: addr@,
                ttl,
            },
        }
    }
}

/// The ten bytes between a record's name and its data: type, class 1, time
/// to live, and the length of the data.
pub open spec fn record_head(type_number: u16, ttl: u32, data_len: u16) -> Seq<u8> {
    be16(type_number) + be16(1) + be32(ttl) + be16(data_len)
}

/// The record at `pos` and the place behind it. The class is not looked at.
/// The stated length of the data counts only for a type without a name
/// here, whose data is passed over without a look at the bounds.
pub open spec fn record_at(region: Seq<u8>, pos: int) -> Result<(RecordView, int), DnsError> {
    match name_at(region, pos) {
        Err(e) => Err(e),
        Ok((domain, p)) => if !fits(p, 10) {
            Err(DnsError::OutOfBounds)
        } else {
            let qtype = u16_of(region.subrange(p, p + 2));
            let ttl = u32_of(region.subrange(p + 4, p + 8));
            let data_len = u16_of(region.subrange(p + 8, p + 10));
            let d = p + 10;
            match query_type_of(qtype) {
                QueryType::A => if fits(d, 4) {
                    Ok((RecordView::A { domain, addr: region.subrange(d, d + 4), ttl }, d + 4))
                } else {
                    Err(DnsError::OutOfBounds)
                },
                QueryType::AAAA => if fits(d, 16) {
                    Ok((RecordView::AAAA { domain, addr: region.subrange(d, d + 16), ttl }, d + 16))
                } else {
                    Err(DnsError::OutOfBounds)
                },
                QueryType::NS => match name_at(region, d) {
                    Ok((ns, end)) => Ok((RecordView::NS { domain, ns, ttl }, end)),
                    Err(e) => Err(e),
                },
                QueryType::CNAME => match name_at(region, d) {
                    Ok((cname, end)) => Ok((RecordView::CNAME { domain, cname, ttl }, end)),
                    Err(e) => Err(e),
                },
                QueryType::MX => if fits(d, 2) {
                    match name_at(region, d + 2) {
                        Ok((exchange, end)) => Ok(
                            (
                                RecordView::MX {
                                    domain,
                                    preference: u16_of(region.subrange(d, d + 2)),
                                    exchange,
                                    ttl,
                                },
                                end,
                            ),
                        ),
                        Err(e) => Err(e),
                    }
                } else {
                    Err(DnsError::OutOfBounds)
                },
                QueryType::UNKOWN(_) => Ok(
                    (RecordView::UNKOWN { domain, qtype, data_len, ttl }, d + data_len),
                ),
            }
        },
    }
}

/// The outcome of writing a record at `pos`: the owner's name, the ten bytes
/// of `record_head` with the true length of the data, and the data, which is
/// an address, a name, or a preference and a name. A record of a type
/// without a name here has no wire form.
#[verifier::opaque]
pub open spec fn record_wire(r: RecordView, pos: int) -> Result<Seq<u8>, DnsError> {
    match r {
        RecordView::UNKOWN { .. } => Err(DnsError::EncodingUnsupported),
        RecordView::A { domain, addr, ttl } => address_wire(domain, 1, ttl, addr, pos),
        RecordView::AAAA { domain, addr, ttl } => address_wire(domain, 28, ttl, addr, pos),
        RecordView::NS { domain, ns, ttl } => named_wire(domain, 2, ttl, None, ns, pos),
        RecordView::CNAME { domain, cname, ttl } => named_wire(domain, 5, ttl, None, cname, pos),
        RecordView::MX { domain, preference, exchange, ttl } => named_wire(
            domain,
            15,
            ttl,
            Some(preference),
            exchange,
            pos,
        ),
    }
}

impl DnsRecord {
    /// Reads a record at the cursor and moves the cursor behind it. On
    /// failure the cursor has not moved.
    pub fn read(buf: &mut PacketBuffer) -> (r: Result<DnsRecord, DnsError>)
        ensures
            final(buf).buf == old(buf).buf,
            match record_at(old(buf).buf@, old(buf).pos as int) {
                Ok((rec, end)) => r is Ok && r->Ok_0@ == rec && final(buf).pos == end,
                Err(e) => r is Err && r->Err_0 == e && final(buf).pos == old(buf).pos,
            },
    {
        let start = buf.pos();
        match DnsRecord::scan(buf) {
            Ok(rec) => Ok(rec),
            Err(e) => {
                buf.seek(start);
                Err(e)
            },
        }
    }

    /// Reads a record as `read` does, but leaves the cursor where the
    /// failure was found.
    fn scan(buf: &mut PacketBuffer) -> (r: Result<DnsRecord, DnsError>)
        ensures
            final(buf).buf == old(buf).buf,
            match record_at(old(buf).buf@, old(buf).pos as int) {
                Ok((rec, end)) => r is Ok && r->Ok_0@ == rec && final(buf).pos == end,
                Err(e) => r is Err && r->Err_0 == e,
            },
    {
        let ghost region = buf.buf@;
        let mut domain = String::new();
        buf.read_qname(&mut domain)?;
        assert(domain@ =~= name_at(region, old(buf).pos as int)->Ok_0.0);
        let qtype = buf.read_u16()?;
        let _qclass = buf.read_u16()?;
        let ttl = buf.read_u32()?;
        let data_len = buf.read_u16()?;
        match QueryType::from_u16(qtype) {
            QueryType::A => {
                let addr = buf.read_slice::<4>()?;
                Ok(DnsRecord::A { domain, addr, ttl })
            },
            QueryType::AAAA => {
                let addr = buf.read_slice::<16>()?;
                Ok(DnsRecord::AAAA { domain, addr, ttl })
            },
            QueryType::NS => {
                let ghost d = buf.pos as int;
                let mut ns = String::new();
                buf.read_qname(&mut ns)?;
                assert(ns@ =~= name_at(region, d)->Ok_0.0);
                Ok(DnsRecord::NS { domain, ns, ttl })
            },
            QueryType::CNAME => {
                let ghost d = buf.pos as int;
                let mut cname = String::new();
                buf.read_qname(&mut cname)?;
                assert(cname@ =~= name_at(region, d)->Ok_0.0);
                Ok(DnsRecord::CNAME { domain, cname, ttl })
            },
            QueryType::MX => {
                let preference = buf.read_u16()?;
                let ghost d = buf.pos as int;
                let mut exchange = String::new();
                buf.read_qname(&mut exchange)?;
                assert(exchange@ =~= name_at(region, d)->Ok_0.0);
                Ok(DnsRecord::MX { domain, preference, exchange, ttl })
            },
            QueryType::UNKOWN(_) => {
                buf.step(data_len as usize);
                Ok(DnsRecord::UNKOWN { domain, qtype, data_len, ttl })
            },
        }
    }

    /// Writes the record at the cursor, moves the cursor behind it, and
    /// returns the number of bytes written. On failure the buffer is as it
    /// was.
    pub fn write(&self, buf: &mut PacketBuffer) -> (r: Result<usize, DnsError>)
        ensures
            match record_wire(self@, old(buf).pos as int) {
                Ok(bytes) => r == Ok::<usize, DnsError>(bytes.len() as usize) && final(buf).pos
                    == old(buf).pos + bytes.len() && final(buf).buf@ == splice(
                    old(buf).buf@,
                    old(buf).pos as int,
                    bytes,
                ),
                Err(e) => r == Err::<usize, DnsError>(e) && *final(buf) == *old(buf),
            },
    {
        let saved_buf = buf.buf;
        let saved_pos = buf.pos;
        match self.put(buf) {
            Ok(n) => Ok(n),
            Err(e) => {
                buf.buf = saved_buf;
                buf.pos = saved_pos;
                Err(e)
            },
        }
    }

    /// Writes the ten bytes between the name and the data.
    fn put_head(buf: &mut PacketBuffer, type_number: u16, ttl: u32, data_len: u16) -> (r: Result<
        (),
        DnsError,
    >)
        ensures
            fits(old(buf).pos as int, 10) ==> r is Ok && final(buf).pos == old(buf).pos + 10
                && final(buf).buf@ == splice(
                old(buf).buf@,
                old(buf).pos as int,
                record_head(type_number, ttl, data_len),
            ),
            !fits(old(buf).pos as int, 10) ==> r == Err::<(), DnsError>(DnsError::OutOfBounds),
    {
        let ghost region = buf.buf@;
        let ghost start = buf.pos as int;
        buf.write_u16(type_number)?;
        buf.write_u16(1)?;
        buf.write_u32(ttl)?;
        buf.write_u16(data_len)?;
        proof {
            lemma_splice_twice(region, start, be16(type_number), be16(1));
            lemma_splice_twice(region, start, be16(type_number) + be16(1), be32(ttl));
            lemma_splice_twice(
                region,
                start,
                be16(type_number) + be16(1) + be32(ttl),
                be16(data_len),
            );
        }
        Ok(())
    }

    /// Writes a record whose data is a name, with a preference in front of
    /// the name where there is one. The length of the data is written as
    /// zero first and filled in once the name has been written.
    fn put_named(
        buf: &mut PacketBuffer,
        domain: &str,
        type_number: u16,
        ttl: u32,
        preference: Option<u16>,
        target: &str,
    ) -> (r: Result<(), DnsError>)
        ensures
            match named_wire(
                domain@,
                type_number,
                ttl,
                preference,
                target@,
                old(buf).pos as int,
            ) {
                Ok(bytes) => r is Ok && final(buf).pos == old(buf).pos + bytes.len() && final(
                    buf).buf@ == splice(old(buf).buf@, old(buf).pos as int, bytes),
                Err(e) => r == Err::<(), DnsError>(e),
            },
    {
        let ghost region = buf.buf@;
        let ghost start = buf.pos as int;
        let ghost name = name_wire(encode_utf8(domain@), start);
        buf.put_name(domain)?;
        let ghost n = name->Ok_0;
        let pos = buf.pos();
        let ghost lead = match preference {
            Some(p) => be16(p),
            None => Seq::<u8>::empty(),
        };
        let ghost data = then(
            put(pos + 10, lead),
            name_wire(encode_utf8(target@), pos + 10 + lead.len()),
        );
        DnsRecord::put_head(buf, type_number, ttl, 0)?;
        proof {
            lemma_splice_twice(region, start, n, record_head(type_number, ttl, 0));
        }
        match preference {
            Some(p) => {
                buf.write_u16(p)?;
                proof {
                    lemma_splice_twice(region, start, n + record_head(type_number, ttl, 0), lead);
                }
            },
            None => {
                assert(n + record_head(type_number, ttl, 0) + lead =~= n + record_head(
                    type_number,
                    ttl,
                    0,
                ));
            },
        }
        buf.put_name(target)?;
        let ghost t = name_wire(encode_utf8(target@), pos + 10 + lead.len())->Ok_0;
        proof {
            lemma_splice_twice(region, start, n + record_head(type_number, ttl, 0) + lead, t);
        }
        let len = buf.pos() - pos - 10;
        let size: u16 = len as u16;
        let patched = buf.set_u16(pos + 8, size);
        proof {
            assert(data == Ok::<Seq<u8>, DnsError>(lead + t));
            assert(size == wire_len(data) as u16);
            let blank = n + record_head(type_number, ttl, 0) + lead + t;
            let full = n + (record_head(type_number, ttl, size) + (lead + t));
            assert(splice(splice(region, start, blank), pos + 8, be16(size)) =~= splice(
                region,
                start,
                full,
            ));
        }
        Ok(())
    }

    /// Writes a record whose data is an address of `N` bytes.
    fn put_address<const N: usize>(
        buf: &mut PacketBuffer,
        domain: &str,
        type_number: u16,
        ttl: u32,
        addr: &[u8; N],
    ) -> (r: Result<(), DnsError>)
        requires
            N <= 16,
        ensures
            match address_wire(domain@, type_number, ttl, addr@, old(buf).pos as int) {
                Ok(bytes) => r is Ok && final(buf).pos == old(buf).pos + bytes.len() && final(
                    buf).buf@ == splice(old(buf).buf@, old(buf).pos as int, bytes),
                Err(e) => r == Err::<(), DnsError>(e),
            },
    {
        let ghost region = buf.buf@;
        let ghost start = buf.pos as int;
        let ghost name = name_wire(encode_utf8(domain@), start);
        buf.put_name(domain)?;
        DnsRecord::put_head(buf, type_number, ttl, N as u16)?;
        buf.write_slice(addr)?;
        proof {
            let n = name->Ok_0;
            let head = record_head(type_number, ttl, N as u16);
            lemma_splice_twice(region, start, n, head);
            lemma_splice_twice(region, start, n + head, addr@);
            assert(n + head + addr@ =~= n + (head + addr@));
        }
        Ok(())
    }

    /// Writes the record as `write` does, but leaves what it wrote where a
    /// later part fails.
    pub(crate) fn put(&self, buf: &mut PacketBuffer) -> (r: Result<usize, DnsError>)
        ensures
            match record_wire(self@, old(buf).pos as int) {
                Ok(bytes) => r == Ok::<usize, DnsError>(bytes.len() as usize) && final(buf).pos
                    == old(buf).pos + bytes.len() && final(buf).buf@ == splice(
                    old(buf).buf@,
                    old(buf).pos as int,
                    bytes,
                ),
                Err(e) => r == Err::<usize, DnsError>(e),
            },
    {
        proof {
            reveal(record_wire);
        }
        let start_pos = buf.pos();
        match self {
            DnsRecord::A { domain, addr, ttl } => {
                DnsRecord::put_address(buf, domain.as_str(), 1, *ttl, addr)?;
            },
            DnsRecord::AAAA { domain, addr, ttl } => {
                DnsRecord::put_address(buf, domain.as_str(), 28, *ttl, addr)?;
            },
            DnsRecord::NS { domain, ns, ttl } => {
                DnsRecord::put_named(buf, domain.as_str(), 2, *ttl, None, ns.as_str())?;
            },
            DnsRecord::CNAME { domain, cname, ttl } => {
                DnsRecord::put_named(buf, domain.as_str(), 5, *ttl, None, cname.as_str())?;
            },
            DnsRecord::MX { domain, preference, exchange, ttl } => {
                DnsRecord::put_named(
                    buf,
                    domain.as_str(),
                    15,
                    *ttl,
                    Some(*preference),
                    exchange.as_str(),
                )?;
            },
            DnsRecord::UNKOWN { .. } => {
                return Err(DnsError::EncodingUnsupported);
            },
        }
        Ok(buf.pos() - start_pos)
    }
}

/// The outcome of writing, at `pos`, a record whose data is an address.
pub open spec fn address_wire(
    domain: Seq<char>,
    type_number: u16,
    ttl: u32,
    addr: Seq<u8>,
    pos: int,
) -> Result<Seq<u8>, DnsError> {
    let name = name_wire(encode_utf8(domain), pos);
    then(name, put(pos + wire_len(name), record_head(type_number, ttl, addr.len() as u16) + addr))
}

/// The outcome of writing, at `pos`, a record whose data is a name, with a
/// preference in front of the name where there is one.
pub open spec fn named_wire(
    domain: Seq<char>,
    type_number: u16,
    ttl: u32,
    preference: Option<u16>,
    target: Seq<char>,
    pos: int,
) -> Result<Seq<u8>, DnsError> {
    let name = name_wire(encode_utf8(domain), pos);
    let p = pos + wire_len(name);
    let lead = match preference {
        Some(v) => be16(v),
        None => Seq::<u8>::empty(),
    };
    let data = then(put(p + 10, lead), name_wire(encode_utf8(target), p + 10 + lead.len()));
    then(name, then(put(p, record_head(type_number, ttl, wire_len(data) as u16)), data))
}

} // verus!
