//! The mathematical model of the wire region: where bytes may go, what a
//! region holds after a write, and how integers lie in it.

use vstd::prelude::*;
use crate::error::DnsError;

verus! {

/// The size of the region, in bytes.
pub const LEN: usize = 512;

/// Whether `n` bytes may be read or written at `pos`. An access whose end
/// would touch the end of the region is refused, so the last byte of the
/// region is never reached through the cursor.
pub open spec fn fits(pos: int, n: int) -> bool {
    pos + n < 512
}

/// The region after `bytes` were written over it from `pos` on.
pub open spec fn splice(region: Seq<u8>, pos: int, bytes: Seq<u8>) -> Seq<u8> {
    Seq::new(
        region.len(),
        |i: int|
            if pos <= i < pos + bytes.len() {
                bytes[i - pos]
            } else {
                region[i]
            },
    )
}

/// Whether the region holds exactly `bytes` from `pos` on.
pub open spec fn holds_at(region: Seq<u8>, pos: int, bytes: Seq<u8>) -> bool {
    &&& 0 <= pos
    &&& pos + bytes.len() <= region.len()
    &&& region.subrange(pos, pos + bytes.len()) == bytes
}

/// The two bytes of a 16-bit integer, most significant first.
pub open spec fn be16(v: u16) -> Seq<u8> {
    seq![(v / 256) as u8, (v % 256) as u8]
}

/// The four bytes of a 32-bit integer, most significant first.
pub open spec fn be32(v: u32) -> Seq<u8> {
    seq![
        (v / 16777216) as u8,
        ((v / 65536) % 256) as u8,
        ((v / 256) % 256) as u8,
        (v % 256) as u8,
    ]
}

/// The 16-bit integer whose bytes, most significant first, are `b[0]`, `b[1]`.
pub open spec fn u16_of(b: Seq<u8>) -> u16 {
    (b[0] * 256 + b[1]) as u16
}

/// The 32-bit integer whose bytes, most significant first, are `b[0]` to `b[3]`.
pub open spec fn u32_of(b: Seq<u8>) -> u32 {
    (b[0] * 16777216 + b[1] * 65536 + b[2] * 256 + b[3]) as u32
}

/// The outcome of writing `bytes` at `pos`: the bytes, if they fit.
pub open spec fn put(pos: int, bytes: Seq<u8>) -> Result<Seq<u8>, DnsError> {
    if fits(pos, bytes.len() as int) {
        Ok(bytes)
    } else {
        Err(DnsError::OutOfBounds)
    }
}

/// The number of bytes that an outcome stands for; none if it failed.
pub open spec fn wire_len(outcome: Result<Seq<u8>, DnsError>) -> int {
    match outcome {
        Ok(bytes) => bytes.len() as int,
        Err(_) => 0,
    }
}

/// Two writes one after the other: the first failure, or all the bytes.
pub open spec fn then(
    first: Result<Seq<u8>, DnsError>,
    second: Result<Seq<u8>, DnsError>,
) -> Result<Seq<u8>, DnsError> {
    match first {
        Err(e) => Err(e),
        Ok(a) => match second {
            Err(e) => Err(e),
            Ok(b) => Ok(a + b),
        },
    }
}

/// What was written before, put in front of the outcome of what follows.
pub open spec fn behind(written: Seq<u8>, rest: Result<Seq<u8>, DnsError>) -> Result<
    Seq<u8>,
    DnsError,
> {
    match rest {
        Ok(bytes) => Ok(written + bytes),
        Err(e) => Err(e),
    }
}

/// What was read before, put in front of what is read from here on.
pub open spec fn after<T>(seen: Seq<T>, rest: Result<(Seq<T>, int), DnsError>) -> Result<
    (Seq<T>, int),
    DnsError,
> {
    match rest {
        Ok((items, end)) => Ok((seen + items, end)),
        Err(e) => Err(e),
    }
}

/// Writing `a` and then, behind it, `b` is writing `a + b`.
pub proof fn lemma_splice_twice(region: Seq<u8>, pos: int, a: Seq<u8>, b: Seq<u8>)
    ensures
        splice(splice(region, pos, a), pos + a.len(), b) == splice(region, pos, a + b),
{
    assert(splice(splice(region, pos, a), pos + a.len(), b) =~= splice(region, pos, a + b));
}

/// A region holds what was written to it, where it was written.
pub proof fn lemma_splice_holds(region: Seq<u8>, pos: int, bytes: Seq<u8>)
    requires
        0 <= pos,
        pos + bytes.len() <= region.len(),
    ensures
        holds_at(splice(region, pos, bytes), pos, bytes),
{
    assert(splice(region, pos, bytes).subrange(pos, pos + bytes.len()) =~= bytes);
}

/// Reading back the bytes of a 16-bit integer gives the integer.
pub proof fn lemma_be16_inverse(v: u16)
    ensures
        u16_of(be16(v)) == v,
        be16(v).len() == 2,
{
}

/// Reading back the bytes of a 32-bit integer gives the integer.
pub proof fn lemma_be32_inverse(v: u32)
    ensures
        u32_of(be32(v)) == v,
        be32(v).len() == 4,
{
}

} // verus!
