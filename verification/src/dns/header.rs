//! The twelve-byte header of a message.

use vstd::prelude::*;
use crate::error::DnsError;
use crate::packetbuff::PacketBuffer;
use crate::wire::{be16, fits, lemma_be16_inverse, splice, u16_of};

verus! {

/// The outcome that a response reports, four bits on the wire.
#[allow(non_camel_case_types)]
#[derive(Copy, Clone, Debug, PartialEq, Eq, Structural)]
pub enum ResultCode {
    /// No error.
    NOERROR,
    /// The server could not interpret the query.
    FORMERR,
    /// The server failed to process the query.
    SERVFAIL,
    /// The name does not exist.
    NXDOMAIN,
    /// The server does not support this kind of query.
    NOTIMP,
    /// The server refuses to answer.
    REFUSED,
}

/// The result code that a number stands for; a number without a code of its
/// own stands for `NOERROR`.
pub open spec fn result_code_of(val: u8) -> ResultCode {
    if val == 1 {
        ResultCode::FORMERR
    } else if val == 2 {
        ResultCode::SERVFAIL
    } else if val == 3 {
        ResultCode::NXDOMAIN
    } else if val == 4 {
        ResultCode::NOTIMP
    } else if val == 5 {
        ResultCode::REFUSED
    } else {
        ResultCode::NOERROR
    }
}

/// The number of a result code.
pub open spec fn result_code_number(code: ResultCode) -> u8 {
    match code {
        ResultCode::NOERROR => 0,
        ResultCode::FORMERR => 1,
        ResultCode::SERVFAIL => 2,
        ResultCode::NXDOMAIN => 3,
        ResultCode::NOTIMP => 4,
        ResultCode::REFUSED => 5,
    }
}

impl ResultCode {
    /// The result code that `val` stands for.
    pub fn from_u8(val: u8) -> (code: ResultCode)
        ensures
            code == result_code_of(val),
    {
        match val {
            1 => ResultCode::FORMERR,
            2 => ResultCode::SERVFAIL,
            3 => ResultCode::NXDOMAIN,
            4 => ResultCode::NOTIMP,
            5 => ResultCode::REFUSED,
            _ => ResultCode::NOERROR,
        }
    }

    /// The number of this result code.
    pub fn to_u8(&self) -> (val: u8)
        ensures
            val == result_code_number(*self),
    {
        match self {
            ResultCode::NOERROR => 0,
            ResultCode::FORMERR => 1,
            ResultCode::SERVFAIL => 2,
            ResultCode::NXDOMAIN => 3,
            ResultCode::NOTIMP => 4,
            ResultCode::REFUSED => 5,
        }
    }
}

/// The header of a message. `opcode` has four bits and `z` three on the
/// wire: of a larger value only the low bits are written.
#[derive(Clone, Copy, Debug, PartialEq, Eq, Structural)]
pub struct DnsHeader {
    /// Identification number.
    pub id: u16,
    /// Query (false) or response (true).
    pub qr: bool,
    /// Operation code.
    pub opcode: u8,
    /// Authoritative answer.
    pub aa: bool,
    /// Truncated.
    pub tc: bool,
    /// Recursion desired.
    pub rd: bool,
    /// Recursion available.
    pub ra: bool,
    /// Reserved.
    pub z: u8,
    /// Result code.
    pub rcode: ResultCode,
    /// Number of entries in the question section.
    pub qdcount: u16,
    /// Number of records in the answer section.
    pub ancount: u16,
    /// Number of records in the authority section.
    pub nscount: u16,
    /// Number of records in the additional section.
    pub arcount: u16,
}

/// The weight of a flag that is set, and nothing for one that is not.
pub open spec fn flag(set: bool, weight: int) -> int {
    if set {
        weight
    } else {
        0
    }
}

/// The third byte of a header: response flag, operation code, and the flags
/// for an authoritative answer, truncation and desired recursion.
pub open spec fn flags_high(h: DnsHeader) -> u8 {
    (flag(h.qr, 128) + (h.opcode % 16) * 8 + flag(h.aa, 4) + flag(h.tc, 2) + flag(h.rd, 1)) as u8
}

/// The fourth byte of a header: the flag for available recursion, the
/// reserved bits and the result code.
pub open spec fn flags_low(h: DnsHeader) -> u8 {
    (flag(h.ra, 128) + (h.z % 8) * 16 + result_code_number(h.rcode)) as u8
}

/// The twelve bytes of a header.
pub open spec fn header_bytes(h: DnsHeader) -> Seq<u8> {
    be16(h.id) + seq![flags_high(h), flags_low(h)] + be16(h.qdcount) + be16(h.ancount) + be16(
        h.nscount,
    ) + be16(h.arcount)
}

/// The header that twelve bytes stand for.
pub open spec fn header_of(b: Seq<u8>) -> DnsHeader {
    DnsHeader {
        id: u16_of(b.subrange(0, 2)),
        qr: b[2] >= 128,
        opcode: ((b[2] / 8) % 16) as u8,
        aa: (b[2] / 4) % 2 == 1,
        tc: (b[2] / 2) % 2 == 1,
        rd: b[2] % 2 == 1,
        ra: b[3] >= 128,
        z: ((b[3] / 16) % 8) as u8,
        rcode: result_code_of((b[3] % 16) as u8),
        qdcount: u16_of(b.subrange(4, 6)),
        ancount: u16_of(b.subrange(6, 8)),
        nscount: u16_of(b.subrange(8, 10)),
        arcount: u16_of(b.subrange(10, 12)),
    }
}

/// Whether the operation code and the reserved bits fit their fields.
pub open spec fn header_fits(h: DnsHeader) -> bool {
    h.opcode < 16 && h.z < 8
}

/// The flags and the operation code can be read off the third byte.
proof fn lemma_flags_high(h: DnsHeader)
    requires
        h.opcode < 16,
    ensures
        (flags_high(h) >= 128) == h.qr,
        (flags_high(h) / 8) % 16 == h.opcode,
        ((flags_high(h) / 4) % 2 == 1) == h.aa,
        ((flags_high(h) / 2) % 2 == 1) == h.tc,
        (flags_high(h) % 2 == 1) == h.rd,
{
    let q = flag(h.qr, 1);
    let a = flag(h.aa, 1);
    let t = flag(h.tc, 1);
    let r = flag(h.rd, 1);
    let o = h.opcode as int;
    let x = flags_high(h) as int;
    assert(x == 128 * q + 8 * o + 4 * a + 2 * t + r);
    assert(x == 2 * (64 * q + 4 * o + 2 * a + t) + r);
    assert(x / 2 == 64 * q + 4 * o + 2 * a + t);
    assert(x / 2 == 2 * (32 * q + 2 * o + a) + t);
    assert(x / 4 == 32 * q + 2 * o + a);
    assert(x / 4 == 2 * (16 * q + o) + a);
    assert(x / 8 == 16 * q + o);
}

/// The flag, the reserved bits and the result code can be read off the
/// fourth byte.
proof fn lemma_flags_low(h: DnsHeader)
    requires
        h.z < 8,
    ensures
        (flags_low(h) >= 128) == h.ra,
        (flags_low(h) / 16) % 8 == h.z,
        result_code_of((flags_low(h) % 16) as u8) == h.rcode,
{
    let a = flag(h.ra, 1);
    let z = h.z as int;
    let c = result_code_number(h.rcode) as int;
    let x = flags_low(h) as int;
    assert(x == 128 * a + 16 * z + c);
    assert(x == 16 * (8 * a + z) + c);
    assert(x / 16 == 8 * a + z);
    assert(x % 16 == c);
}

/// A header whose fields fit is what its bytes stand for.
pub proof fn lemma_header_inverse(h: DnsHeader)
    requires
        header_fits(h),
    ensures
        header_bytes(h).len() == 12,
        header_of(header_bytes(h)) == h,
{
    let b = header_bytes(h);
    assert(b.subrange(0, 2) =~= be16(h.id));
    assert(b.subrange(4, 6) =~= be16(h.qdcount));
    assert(b.subrange(6, 8) =~= be16(h.ancount));
    assert(b.subrange(8, 10) =~= be16(h.nscount));
    assert(b.subrange(10, 12) =~= be16(h.arcount));
    assert(b[2] == flags_high(h));
    assert(b[3] == flags_low(h));
    lemma_flags_high(h);
    lemma_flags_low(h);
    lemma_be16_inverse(h.id);
    lemma_be16_inverse(h.qdcount);
    lemma_be16_inverse(h.ancount);
    lemma_be16_inverse(h.nscount);
    lemma_be16_inverse(h.arcount);
}

impl DnsHeader {
    /// The header of an empty query: every field zero or false.
    pub fn new() -> (h: DnsHeader)
        ensures
            h == (DnsHeader {
                id: 0,
                qr: false,
                opcode: 0,
                aa: false,
                tc: false,
                rd: false,
                ra: false,
                z: 0,
                rcode: ResultCode::NOERROR,
                qdcount: 0,
                ancount: 0,
                nscount: 0,
                arcount: 0,
            }),
    {
        DnsHeader {
            id: 0,
            qr: false,
            opcode: 0,
            aa: false,
            tc: false,
            rd: false,
            ra: false,
            z: 0,
            rcode: ResultCode::NOERROR,
            qdcount: 0,
            ancount: 0,
            nscount: 0,
            arcount: 0,
        }
    }

    /// Reads a header at the cursor and moves the cursor behind it.
    pub fn read(buf: &mut PacketBuffer) -> (r: Result<DnsHeader, DnsError>)
        ensures
            final(buf).buf == old(buf).buf,
            match header_at(old(buf).buf@, old(buf).pos as int) {
                Ok((h, end)) => r == Ok::<DnsHeader, DnsError>(h) && final(buf).pos == end,
                Err(e) => r == Err::<DnsHeader, DnsError>(e) && final(buf).pos == old(buf).pos,
            },
    {
        let b = buf.read_slice::<12>()?;
        let high: u8 = b[2];
        let low: u8 = b[3];
        let ghost s = b@;
        assert(s.subrange(0, 2)[0] == s[0] && s.subrange(0, 2)[1] == s[1]);
        assert(s.subrange(4, 6)[0] == s[4] && s.subrange(4, 6)[1] == s[5]);
        assert(s.subrange(6, 8)[0] == s[6] && s.subrange(6, 8)[1] == s[7]);
        assert(s.subrange(8, 10)[0] == s[8] && s.subrange(8, 10)[1] == s[9]);
        assert(s.subrange(10, 12)[0] == s[10] && s.subrange(10, 12)[1] == s[11]);
        Ok(
            DnsHeader {
                id: from_msb_bytes(&[b[0], b[1]]),
                qr: high >= 128,
                opcode: four_bits(high / 8),
                aa: (high / 4) % 2 == 1,
                tc: (high / 2) % 2 == 1,
                rd: high % 2 == 1,
                ra: low >= 128,
                z: three_bits(low / 16),
                rcode: ResultCode::from_u8(low % 16),
                qdcount: from_msb_bytes(&[b[4], b[5]]),
                ancount: from_msb_bytes(&[b[6], b[7]]),
                nscount: from_msb_bytes(&[b[8], b[9]]),
                arcount: from_msb_bytes(&[b[10], b[11]]),
            },
        )
    }

    /// Writes the header at the cursor, its fields as they stand, and moves
    /// the cursor behind it. On failure the buffer is as it was.
    pub fn write(&self, buf: &mut PacketBuffer) -> (r: Result<(), DnsError>)
        ensures
            match header_wire(*self, old(buf).pos as int) {
                Ok(bytes) => r is Ok && final(buf).pos == old(buf).pos + bytes.len() && final(
                    buf).buf@ == splice(old(buf).buf@, old(buf).pos as int, bytes),
                Err(e) => r == Err::<(), DnsError>(e) && *final(buf) == *old(buf),
            },
    {
        let mut high: u8 = four_bits(self.opcode) * 8;
        if self.qr {
            high += 128;
        }
        if self.aa {
            high += 4;
        }
        if self.tc {
            high += 2;
        }
        if self.rd {
            high += 1;
        }
        let mut low: u8 = three_bits(self.z) * 16 + self.rcode.to_u8();
        if self.ra {
            low += 128;
        }
        let id = msb_bytes(self.id);
        let qd = msb_bytes(self.qdcount);
        let an = msb_bytes(self.ancount);
        let ns = msb_bytes(self.nscount);
        let ar = msb_bytes(self.arcount);
        let packed: [u8; 12] = [
            id[0],
            id[1],
            high,
            low,
            qd[0],
            qd[1],
            an[0],
            an[1],
            ns[0],
            ns[1],
            ar[0],
            ar[1],
        ];
        assert(packed@ =~= header_bytes(*self));
        buf.write_slice(&packed)
    }
}

/// Calls `packed_struct::types::IntegerAsBytes::to_msb_bytes` on a 16-bit
/// integer. Trusted: the result is the integer's upper byte and then its
/// lower byte.
#[verifier::external_body]
fn msb_bytes(v: u16) -> (b: [u8; 2])
    ensures
        b@ == be16(v),
{
    packed_struct::types::IntegerAsBytes::to_msb_bytes(&v)
}

/// Calls `packed_struct::types::IntegerAsBytes::from_msb_bytes` for a 16-bit
/// integer. Trusted: the result has the first byte as its upper and the
/// second as its lower byte.
#[verifier::external_body]
fn from_msb_bytes(b: &[u8; 2]) -> (v: u16)
    ensures
        v == u16_of(b@),
{
    <u16 as packed_struct::types::IntegerAsBytes>::from_msb_bytes(b)
}

/// Makes a `packed_struct::types::Integer` of four bits from `v` and hands
/// back the number it holds. Trusted: it holds the low four bits of `v`.
#[verifier::external_body]
fn four_bits(v: u8) -> (r: u8)
    ensures
        r == v % 16,
{
    let narrow: packed_struct::types::Integer<u8, packed_struct::types::bits::Bits<4>> = v.into();
    packed_struct::types::SizedInteger::to_primitive(&narrow)
}

/// Makes a `packed_struct::types::Integer` of three bits from `v` and hands
/// back the number it holds. Trusted: it holds the low three bits of `v`.
#[verifier::external_body]
fn three_bits(v: u8) -> (r: u8)
    ensures
        r == v % 8,
{
    let narrow: packed_struct::types::Integer<u8, packed_struct::types::bits::Bits<3>> = v.into();
    packed_struct::types::SizedInteger::to_primitive(&narrow)
}

/// The header at `pos` and the place behind it.
pub open spec fn header_at(region: Seq<u8>, pos: int) -> Result<(DnsHeader, int), DnsError> {
    if fits(pos, 12) {
        Ok((header_of(region.subrange(pos, pos + 12)), pos + 12))
    } else {
        Err(DnsError::OutOfBounds)
    }
}

/// The outcome of writing a header at `pos`.
pub open spec fn header_wire(h: DnsHeader, pos: int) -> Result<Seq<u8>, DnsError> {
    if fits(pos, 12) {
        Ok(header_bytes(h))
    } else {
        Err(DnsError::OutOfBounds)
    }
}

} // verus!
