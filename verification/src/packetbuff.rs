//! The fixed-size wire buffer with its cursor.

use vstd::prelude::*;
use vstd::slice::slice_subrange;
use crate::error::DnsError;
use vstd::string::{StringExecFns, StringSliceAdditionalSpecFns};
use crate::name::{
    decode_lossy, dotted, label_texts, labels_at, labels_from, labels_wire, lemma_dot_from_is,
    name_at, name_wire, to_lowercase, DOT, MAX_JUMPS, MAX_LABEL,
};
use crate::wire::{
    LEN, be16, be32, behind, fits, lemma_splice_twice, splice, u16_of, u32_of,
};

verus! {

/// A 512-byte region and a cursor into it.
pub struct PacketBuffer {
    pub buf: [u8; 512],
    pub pos: usize,
}

impl PacketBuffer {
    /// A zeroed region with the cursor at its start.
    pub fn new() -> (b: PacketBuffer)
        ensures
            b.pos == 0,
            b.buf@ == Seq::new(512, |i: int| 0u8),
    {
        let b = PacketBuffer { buf: [0; 512], pos: 0 };
        assert(b.buf@ =~= Seq::new(512, |i: int| 0u8));
        b
    }

    /// The bytes before the cursor.
    pub fn as_slice(&self) -> (s: &[u8])
        requires
            self.pos <= 512,
        ensures
            s@ == self.buf@.subrange(0, self.pos as int),
    {
        slice_subrange(self.buf.as_slice(), 0, self.pos)
    }

    /// Where the cursor stands.
    pub fn pos(&self) -> (p: usize)
        ensures
            p == self.pos,
    {
        self.pos
    }

    /// Moves the cursor forward by `n`, wherever that leads: the next access
    /// checks the bounds.
    pub fn step(&mut self, n: usize)
        requires
            old(self).pos + n <= usize::MAX,
        ensures
            final(self).pos == old(self).pos + n,
            final(self).buf == old(self).buf,
    {
        self.pos += n;
    }

    /// Puts the cursor at `pos`, wherever that is: the next access checks the
    /// bounds.
    pub fn seek(&mut self, pos: usize)
        ensures
            final(self).pos == pos,
            final(self).buf == old(self).buf,
    {
        self.pos = pos;
    }

    /// The byte at `pos`; the cursor stays.
    pub fn get(&self, pos: usize) -> (r: Result<u8, DnsError>)
        ensures
            pos < 512 ==> r == Ok::<u8, DnsError>(self.buf@[pos as int]),
            pos >= 512 ==> r == Err::<u8, DnsError>(DnsError::OutOfBounds),
    {
        if pos >= LEN {
            return Err(DnsError::OutOfBounds);
        }
        Ok(self.buf[pos])
    }

    /// The bytes from `start` up to `end`, `end` left out; the cursor stays.
    /// The range has to lie in the region and to end before its last byte.
    pub fn get_range(&self, start: usize, end: usize) -> (r: Result<&[u8], DnsError>)
        ensures
            start <= end < 512 ==> r is Ok && r->Ok_0@ == self.buf@.subrange(
                start as int,
                end as int,
            ),
            !(start <= end < 512) ==> r is Err && r->Err_0 == DnsError::OutOfBounds,
    {
        if start > end || end >= LEN {
            return Err(DnsError::OutOfBounds);
        }
        Ok(slice_subrange(self.buf.as_slice(), start, end))
    }

    /// Reads `N` bytes at the cursor and moves it behind them.
    pub fn read_slice<const N: usize>(&mut self) -> (r: Result<[u8; N], DnsError>)
        ensures
            final(self).buf == old(self).buf,
            fits(old(self).pos as int, N as int) ==> r is Ok && r->Ok_0@ == old(self).buf@.subrange(
                old(self).pos as int,
                old(self).pos + N,
            ) && final(self).pos == old(self).pos + N,
            !fits(old(self).pos as int, N as int) ==> r is Err && r->Err_0 == DnsError::OutOfBounds
                && final(self).pos == old(self).pos,
    {
        if N >= LEN || self.pos >= LEN - N {
            return Err(DnsError::OutOfBounds);
        }
        let mut arr: [u8; N] = [0; N];
        let mut i: usize = 0;
        while i < N
            invariant
                i <= N,
                self.pos + N < 512,
                *self == *old(self),
                forall|k: int| 0 <= k < i ==> arr@[k] == self.buf@[self.pos + k],
            decreases N - i,
        {
            arr[i] = self.buf[self.pos + i];
            i += 1;
        }
        assert(arr@ =~= self.buf@.subrange(self.pos as int, self.pos + N));
        self.pos += N;
        Ok(arr)
    }

    /// Reads the byte at the cursor and moves it on by one.
    pub fn read_u8(&mut self) -> (r: Result<u8, DnsError>)
        ensures
            final(self).buf == old(self).buf,
            fits(old(self).pos as int, 1) ==> r == Ok::<u8, DnsError>(
                old(self).buf@[old(self).pos as int],
            ) && final(self).pos == old(self).pos + 1,
            !fits(old(self).pos as int, 1) ==> r == Err::<u8, DnsError>(DnsError::OutOfBounds)
                && final(self).pos == old(self).pos,
    {
        if self.pos >= LEN - 1 {
            return Err(DnsError::OutOfBounds);
        }
        let byte = self.buf[self.pos];
        self.pos += 1;
        Ok(byte)
    }

    /// Reads a 16-bit integer, most significant byte first, and moves the
    /// cursor on by two.
    pub fn read_u16(&mut self) -> (r: Result<u16, DnsError>)
        ensures
            final(self).buf == old(self).buf,
            fits(old(self).pos as int, 2) ==> r == Ok::<u16, DnsError>(
                u16_of(old(self).buf@.subrange(old(self).pos as int, old(self).pos + 2)),
            ) && final(self).pos == old(self).pos + 2,
            !fits(old(self).pos as int, 2) ==> r == Err::<u16, DnsError>(DnsError::OutOfBounds)
                && final(self).pos == old(self).pos,
    {
        if self.pos >= LEN - 2 {
            return Err(DnsError::OutOfBounds);
        }
        let hi: u16 = self.buf[self.pos] as u16;
        let lo: u16 = self.buf[self.pos + 1] as u16;
        let val: u16 = hi * 256 + lo;
        self.pos += 2;
        Ok(val)
    }

    /// Reads a 32-bit integer, most significant byte first, and moves the
    /// cursor on by four.
    pub fn read_u32(&mut self) -> (r: Result<u32, DnsError>)
        ensures
            final(self).buf == old(self).buf,
            fits(old(self).pos as int, 4) ==> r == Ok::<u32, DnsError>(
                u32_of(old(self).buf@.subrange(old(self).pos as int, old(self).pos + 4)),
            ) && final(self).pos == old(self).pos + 4,
            !fits(old(self).pos as int, 4) ==> r == Err::<u32, DnsError>(DnsError::OutOfBounds)
                && final(self).pos == old(self).pos,
    {
        if self.pos >= LEN - 4 {
            return Err(DnsError::OutOfBounds);
        }
        let b0: u32 = self.buf[self.pos] as u32;
        let b1: u32 = self.buf[self.pos + 1] as u32;
        let b2: u32 = self.buf[self.pos + 2] as u32;
        let b3: u32 = self.buf[self.pos + 3] as u32;
        let val: u32 = b0 * 16777216 + b1 * 65536 + b2 * 256 + b3;
        self.pos += 4;
        Ok(val)
    }

    /// Writes one byte at the cursor and moves it on by one.
    pub fn write_u8(&mut self, val: u8) -> (r: Result<(), DnsError>)
        ensures
            fits(old(self).pos as int, 1) ==> r is Ok && final(self).pos == old(self).pos + 1
                && final(self).buf@ == splice(old(self).buf@, old(self).pos as int, seq![val]),
            !fits(old(self).pos as int, 1) ==> r == Err::<(), DnsError>(DnsError::OutOfBounds)
                && *final(self) == *old(self),
    {
        if self.pos >= LEN - 1 {
            return Err(DnsError::OutOfBounds);
        }
        self.buf[self.pos] = val;
        assert(self.buf@ =~= splice(old(self).buf@, old(self).pos as int, seq![val]));
        self.pos += 1;
        Ok(())
    }

    /// Writes a 16-bit integer, most significant byte first, and moves the
    /// cursor on by two.
    pub fn write_u16(&mut self, val: u16) -> (r: Result<(), DnsError>)
        ensures
            fits(old(self).pos as int, 2) ==> r is Ok && final(self).pos == old(self).pos + 2
                && final(self).buf@ == splice(old(self).buf@, old(self).pos as int, be16(val)),
            !fits(old(self).pos as int, 2) ==> r == Err::<(), DnsError>(DnsError::OutOfBounds)
                && *final(self) == *old(self),
    {
        if self.pos >= LEN - 2 {
            return Err(DnsError::OutOfBounds);
        }
        self.buf[self.pos] = (val / 256) as u8;
        self.buf[self.pos + 1] = (val % 256) as u8;
        assert(self.buf@ =~= splice(old(self).buf@, old(self).pos as int, be16(val)));
        self.pos += 2;
        Ok(())
    }

    /// Writes a 32-bit integer, most significant byte first, and moves the
    /// cursor on by four.
    pub fn write_u32(&mut self, val: u32) -> (r: Result<(), DnsError>)
        ensures
            fits(old(self).pos as int, 4) ==> r is Ok && final(self).pos == old(self).pos + 4
                && final(self).buf@ == splice(old(self).buf@, old(self).pos as int, be32(val)),
            !fits(old(self).pos as int, 4) ==> r == Err::<(), DnsError>(DnsError::OutOfBounds)
                && *final(self) == *old(self),
    {
        if self.pos >= LEN - 4 {
            return Err(DnsError::OutOfBounds);
        }
        self.buf[self.pos] = (val / 16777216) as u8;
        self.buf[self.pos + 1] = ((val / 65536) % 256) as u8;
        self.buf[self.pos + 2] = ((val / 256) % 256) as u8;
        self.buf[self.pos + 3] = (val % 256) as u8;
        assert(self.buf@ =~= splice(old(self).buf@, old(self).pos as int, be32(val)));
        self.pos += 4;
        Ok(())
    }

    /// Writes `N` bytes at the cursor and moves it behind them.
    pub fn write_slice<const N: usize>(&mut self, slice: &[u8; N]) -> (r: Result<(), DnsError>)
        ensures
            fits(old(self).pos as int, N as int) ==> r is Ok && final(self).pos == old(self).pos + N
                && final(self).buf@ == splice(old(self).buf@, old(self).pos as int, slice@),
            !fits(old(self).pos as int, N as int) ==> r == Err::<(), DnsError>(
                DnsError::OutOfBounds,
            ) && *final(self) == *old(self),
    {
        if N >= LEN || self.pos >= LEN - N {
            return Err(DnsError::OutOfBounds);
        }
        let mut i: usize = 0;
        while i < N
            invariant
                i <= N,
                self.pos + N < 512,
                self.pos == old(self).pos,
                self.buf@ == splice(old(self).buf@, self.pos as int, slice@.subrange(0, i as int)),
            decreases N - i,
        {
            self.buf[self.pos + i] = slice[i];
            i += 1;
            assert(self.buf@ =~= splice(
                old(self).buf@,
                self.pos as int,
                slice@.subrange(0, i as int),
            ));
        }
        assert(slice@.subrange(0, N as int) =~= slice@);
        self.pos += N;
        Ok(())
    }

    /// Overwrites the byte at `pos`; the cursor stays.
    pub fn set_u8(&mut self, pos: usize, val: u8) -> (r: Result<(), DnsError>)
        ensures
            final(self).pos == old(self).pos,
            pos < 512 ==> r is Ok && final(self).buf@ == splice(
                old(self).buf@,
                pos as int,
                seq![val],
            ),
            pos >= 512 ==> r == Err::<(), DnsError>(DnsError::OutOfBounds) && final(self).buf
                == old(self).buf,
    {
        if pos >= LEN {
            return Err(DnsError::OutOfBounds);
        }
        self.buf[pos] = val;
        assert(self.buf@ =~= splice(old(self).buf@, pos as int, seq![val]));
        Ok(())
    }

    /// Overwrites two bytes at `pos` with a 16-bit integer, most significant
    /// byte first; the cursor stays.
    pub fn set_u16(&mut self, pos: usize, val: u16) -> (r: Result<(), DnsError>)
        ensures
            final(self).pos == old(self).pos,
            fits(pos as int, 2) ==> r is Ok && final(self).buf@ == splice(
                old(self).buf@,
                pos as int,
                be16(val),
            ),
            !fits(pos as int, 2) ==> r == Err::<(), DnsError>(DnsError::OutOfBounds)
                && final(self).buf == old(self).buf,
    {
        if pos >= LEN - 2 {
            return Err(DnsError::OutOfBounds);
        }
        self.buf[pos] = (val / 256) as u8;
        self.buf[pos + 1] = (val % 256) as u8;
        assert(self.buf@ =~= splice(old(self).buf@, pos as int, be16(val)));
        Ok(())
    }

    /// Overwrites four bytes at `pos` with a 32-bit integer, most significant
    /// byte first; the cursor stays.
    pub fn set_u32(&mut self, pos: usize, val: u32) -> (r: Result<(), DnsError>)
        ensures
            final(self).pos == old(self).pos,
            fits(pos as int, 4) ==> r is Ok && final(self).buf@ == splice(
                old(self).buf@,
                pos as int,
                be32(val),
            ),
            !fits(pos as int, 4) ==> r == Err::<(), DnsError>(DnsError::OutOfBounds)
                && final(self).buf == old(self).buf,
    {
        if pos >= LEN - 4 {
            return Err(DnsError::OutOfBounds);
        }
        self.buf[pos] = (val / 16777216) as u8;
        self.buf[pos + 1] = ((val / 65536) % 256) as u8;
        self.buf[pos + 2] = ((val / 256) % 256) as u8;
        self.buf[pos + 3] = (val % 256) as u8;
        assert(self.buf@ =~= splice(old(self).buf@, pos as int, be32(val)));
        Ok(())
    }

    /// Reads the name at the cursor, follows its pointers, and appends it to
    /// `out` in lower case with dots between the labels. The cursor ends
    /// behind the first pointer, or behind the zero byte where there is none.
    /// On failure neither the cursor nor `out` has changed.
    pub fn read_qname(&mut self, out: &mut String) -> (r: Result<(), DnsError>)
        ensures
            final(self).buf == old(self).buf,
            match name_at(old(self).buf@, old(self).pos as int) {
                Ok((text, end)) => r is Ok && final(out)@ == old(out)@ + text && final(self).pos
                    == end,
                Err(e) => r == Err::<(), DnsError>(e) && final(out)@ == old(out)@ && final(
                    self).pos == old(self).pos,
            },
    {
        match self.scan_name() {
            Ok((name, end)) => {
                self.seek(end);
                out.append(name.as_str());
                Ok(())
            },
            Err(e) => Err(e),
        }
    }

    /// The name at the cursor and the place behind it; the cursor stays.
    fn scan_name(&self) -> (r: Result<(String, usize), DnsError>)
        ensures
            match name_at(self.buf@, self.pos as int) {
                Ok((text, end)) => r is Ok && r->Ok_0.0@ == text && r->Ok_0.1 == end,
                Err(e) => r is Err && r->Err_0 == e,
            },
    {
        let ghost region = self.buf@;
        let ghost start = self.pos as int;
        let mut pos: usize = self.pos;
        let mut jumps: usize = 0;
        let mut jumped = false;
        let mut after_jump: usize = 0;
        let mut name = String::new();
        let mut any = false;
        let ghost mut seen: Seq<Seq<u8>> = Seq::empty();
        assert(seen + labels_at(region, pos as int, 0)->Ok_0.0 =~= labels_at(
            region,
            pos as int,
            0,
        )->Ok_0.0);
        loop
            invariant_except_break
                region == self.buf@,
                start == self.pos as int,
                jumps <= 6,
                graft(seen, jumped, after_jump as int, labels_at(region, pos as int, jumps as int))
                    == labels_at(region, start, 0),
                name@ == dotted(label_texts(seen)),
                any == (seen.len() > 0),
            ensures
                labels_at(region, start, 0) == Ok::<(Seq<Seq<u8>>, int), DnsError>(
                    (seen, if jumped { after_jump as int } else { pos as int }),
                ),
                name@ == dotted(label_texts(seen)),
            decreases 6 - jumps, 512 - pos,
        {
            if jumps > MAX_JUMPS {
                return Err(DnsError::MalformedCompression);
            }
            let len = self.get(pos)?;
            if len >= 192 {
                if !jumped {
                    after_jump = pos + 2;
                    jumped = true;
                }
                let low = self.get(pos + 1)?;
                pos = (len - 192) as usize * 256 + low as usize;
                jumps += 1;
            } else {
                pos += 1;
                if len == 0 {
                    assert(seen + Seq::<Seq<u8>>::empty() =~= seen);
                    break ;
                }
                let label = self.get_range(pos, pos + len as usize)?;
                if any {
                    proof {
                        reveal_strlit(".");
                    }
                    name.append(".");
                }
                let text = decode_lossy(label);
                let lower = to_lowercase(text.as_str());
                name.append(lower.as_str());
                proof {
                    let rest = labels_at(region, pos + len, jumps as int);
                    if rest is Ok {
                        assert(seen + (seq![label@] + rest->Ok_0.0) =~= seen.push(label@)
                            + rest->Ok_0.0);
                    }
                    assert(label_texts(seen.push(label@)).drop_last() =~= label_texts(seen));
                    assert("."@ =~= seq!['.']) by {
                        reveal_strlit(".");
                    }
                    seen = seen.push(label@);
                }
                any = true;
                pos += len as usize;
            }
        }
        let end = if jumped {
            after_jump
        } else {
            pos
        };
        Ok((name, end))
    }

    /// Writes a name at the cursor: for each segment between dots that is not
    /// empty its length and its bytes, then a zero byte. On failure the buffer
    /// is as it was.
    pub fn write_qname(&mut self, qname: &str) -> (r: Result<(), DnsError>)
        ensures
            match name_wire(qname.spec_bytes(), old(self).pos as int) {
                Ok(bytes) => r is Ok && final(self).pos == old(self).pos + bytes.len() && final(
                    self).buf@ == splice(old(self).buf@, old(self).pos as int, bytes),
                Err(e) => r == Err::<(), DnsError>(e) && *final(self) == *old(self),
            },
    {
        let saved_buf = self.buf;
        let saved_pos = self.pos;
        match self.put_name(qname) {
            Ok(()) => Ok(()),
            Err(e) => {
                self.buf = saved_buf;
                self.pos = saved_pos;
                Err(e)
            },
        }
    }

    /// Writes a name as `write_qname` does, but leaves what it wrote where a
    /// later part fails.
    pub(crate) fn put_name(&mut self, qname: &str) -> (r: Result<(), DnsError>)
        ensures
            match name_wire(qname.spec_bytes(), old(self).pos as int) {
                Ok(bytes) => r is Ok && final(self).pos == old(self).pos + bytes.len() && final(
                    self).buf@ == splice(old(self).buf@, old(self).pos as int, bytes),
                Err(e) => r == Err::<(), DnsError>(e),
            },
    {
        let name = qname.as_bytes();
        let n = name.len();
        let ghost total = name_wire(qname.spec_bytes(), old(self).pos as int);
        let ghost mut written: Seq<u8> = Seq::empty();
        let mut start: usize = 0;
        let mut more = true;
        assert(self.buf@ =~= splice(old(self).buf@, old(self).pos as int, written));
        while more
            invariant
                n == name@.len(),
                start <= n,
                total == name_wire(qname.spec_bytes(), old(self).pos as int),
                self.pos == old(self).pos + written.len(),
                self.buf@ == splice(old(self).buf@, old(self).pos as int, written),
                total == behind(
                    written,
                    labels_wire(
                        if more {
                            labels_from(name@, start as int)
                        } else {
                            Seq::empty()
                        },
                        self.pos as int,
                    ),
                ),
            decreases n - start + (if more { 1int } else { 0int }),
        {
            let mut end: usize = start;
            while end < n && name[end] != DOT
                invariant
                    n == name@.len(),
                    start <= end <= n,
                    forall|j: int| start <= j < end ==> name@[j] != DOT,
                decreases n - end,
            {
                end += 1;
            }
            proof {
                lemma_dot_from_is(name@, start as int, end as int);
            }
            let len = end - start;
            let ghost label = name@.subrange(start as int, end as int);
            let ghost rest = if end < n {
                labels_from(name@, end + 1)
            } else {
                Seq::empty()
            };
            let ghost before = self.pos as int;
            if len > 0 {
                let ghost pending = seq![label] + rest;
                assert(labels_from(name@, start as int) == pending);
                assert(pending[0] == label);
                assert(pending.drop_first() =~= rest);
                assert(total == behind(written, labels_wire(pending, before)));
                if len > MAX_LABEL {
                    return Err(DnsError::LabelTooLong);
                }
                assert(before + 1 + len >= 512 ==> total == Err::<Seq<u8>, DnsError>(
                    DnsError::OutOfBounds,
                ));
                let size: u8 = len as u8;
                self.write_u8(size)?;
                proof {
                    lemma_splice_twice(old(self).buf@, old(self).pos as int, written, seq![size]);
                    assert(name@.subrange(start as int, start as int) =~= Seq::<u8>::empty());
                    assert(written + seq![size] + name@.subrange(start as int, start as int)
                        =~= written + seq![size]);
                }
                let mut i: usize = start;
                while i < end
                    invariant
                        start <= i <= end <= n,
                        n == name@.len(),
                        len == end - start,
                        total == name_wire(qname.spec_bytes(), old(self).pos as int),
                        self.pos == before + 1 + (i - start),
                        self.pos < 512,
                        before == old(self).pos + written.len(),
                        self.buf@ == splice(
                            old(self).buf@,
                            old(self).pos as int,
                            written + seq![size] + name@.subrange(start as int, i as int),
                        ),
                        before + 1 + len >= 512 ==> total == Err::<Seq<u8>, DnsError>(
                            DnsError::OutOfBounds,
                        ),
                    decreases end - i,
                {
                    let ghost sofar = written + seq![size] + name@.subrange(
                        start as int,
                        i as int,
                    );
                    self.write_u8(name[i])?;
                    proof {
                        lemma_splice_twice(
                            old(self).buf@,
                            old(self).pos as int,
                            sofar,
                            seq![name@[i as int]],
                        );
                        assert(sofar + seq![name@[i as int]] =~= written + seq![size]
                            + name@.subrange(start as int, i + 1));
                    }
                    i += 1;
                }
                proof {
                    let tail = labels_wire(rest, before + 1 + len);
                    assert(labels_wire(pending, before) == behind(seq![size] + label, tail));
                    if tail is Ok {
                        assert(written + (seq![size] + label + tail->Ok_0) =~= (written
                            + seq![size] + label) + tail->Ok_0);
                    }
                    written = written + seq![size] + label;
                }
            } else {
                assert(labels_from(name@, start as int) == rest);
            }
            if end < n {
                start = end + 1;
            } else {
                more = false;
            }
        }
        self.write_u8(0)?;
        proof {
            lemma_splice_twice(old(self).buf@, old(self).pos as int, written, seq![0u8]);
        }
        Ok(())
    }
}

/// What was read before, put in front of what is read from here on.
pub open spec fn graft(
    seen: Seq<Seq<u8>>,
    jumped: bool,
    after_jump: int,
    rest: Result<(Seq<Seq<u8>>, int), DnsError>,
) -> Result<(Seq<Seq<u8>>, int), DnsError> {
    match rest {
        Ok((labels, end)) => Ok(
            (
                seen + labels,
                if jumped {
                    after_jump
                } else {
                    end
                },
            ),
        ),
        Err(e) => Err(e),
    }
}

} // verus!
