//! The question of a message: a name and the type of record that is asked for.

use vstd::prelude::*;
use vstd::string::StringSliceAdditionalSpecFns;
use vstd::utf8::encode_utf8;
use crate::error::DnsError;
use crate::name::{name_at, name_wire};
use crate::packetbuff::PacketBuffer;
use crate::wire::{be16, fits, put, splice, then, u16_of, wire_len, lemma_splice_twice};

verus! {

/// The type of record that a question asks for, or that a record has.
#[derive(PartialEq, Eq, Debug, Clone, Hash, Copy, Structural)]
pub enum QueryType {
    /// A type without a name here, with its number.
    UNKOWN(u16),
    /// An IPv4 address, 1.
    A,
    /// A name server, 2.
    NS,
    /// A canonical name, 5.
    CNAME,
    /// A mail exchange, 15.
    MX,
    /// An IPv6 address, 28.
    AAAA,
}

/// The type that a number stands for.
pub open spec fn query_type_of(val: u16) -> QueryType {
    if val == 1 {
        QueryType::A
    } else if val == 2 {
        QueryType::NS
    } else if val == 5 {
        QueryType::CNAME
    } else if val == 15 {
        QueryType::MX
    } else if val == 28 {
        QueryType::AAAA
    } else {
        QueryType::UNKOWN(val)
    }
}

/// The number of a type.
pub open spec fn query_type_number(t: QueryType) -> u16 {
    match t {
        QueryType::A => 1,
        QueryType::NS => 2,
        QueryType::CNAME => 5,
        QueryType::MX => 15,
        QueryType::AAAA => 28,
        QueryType::UNKOWN(val) => val,
    }
}

/// Whether a type is the one that its own number stands for: a named type
/// always is, `UNKOWN` only with a number that has no name.
pub open spec fn query_type_canonical(t: QueryType) -> bool {
    query_type_of(query_type_number(t)) == t
}

impl QueryType {
    /// The type that `val` stands for.
    pub fn from_u16(val: u16) -> (t: QueryType)
        ensures
            t == query_type_of(val),
            query_type_number(t) == val,
    {
        match val {
            1 => QueryType::A,
            2 => QueryType::NS,
            5 => QueryType::CNAME,
            15 => QueryType::MX,
            28 => QueryType::AAAA,
            _ => QueryType::UNKOWN(val),
        }
    }

    /// The number of this type.
    pub fn to_u16(&self) -> (val: u16)
        ensures
            val == query_type_number(*self),
    {
        match self {
            QueryType::A => 1,
            QueryType::NS => 2,
            QueryType::CNAME => 5,
            QueryType::MX => 15,
            QueryType::AAAA => 28,
            QueryType::UNKOWN(val) => *val,
        }
    }
}

/// A question. Its class is always 1, the Internet, and has no field.
#[derive(PartialEq, Eq, Debug, Clone, Hash)]
pub struct DnsQuestion {
    pub qname: String,
    pub qtype: QueryType,
}

/// A question as a mathematical value.
pub struct QuestionView {
    pub qname: Seq<char>,
    pub qtype: QueryType,
}

impl View for DnsQuestion {
    type V = QuestionView;

    open spec fn view(&self) -> QuestionView {
        QuestionView { qname: self.qname@, qtype: self.qtype }
    }
}

/// The question at `pos` and the place behind it. The two bytes of the class
/// are passed over without a look at them or at the bounds.
pub open spec fn question_at(region: Seq<u8>, pos: int) -> Result<(QuestionView, int), DnsError> {
    match name_at(region, pos) {
        Err(e) => Err(e),
        Ok((qname, p)) => if fits(p, 2) {
            Ok(
                (
                    QuestionView {
                        qname,
                        qtype: query_type_of(u16_of(region.subrange(p, p + 2))),
                    },
                    p + 4,
                ),
            )
        } else {
            Err(DnsError::OutOfBounds)
        },
    }
}

/// The outcome of writing a question at `pos`: its name, the number of its
/// type, and class 1.
#[verifier::opaque]
pub open spec fn question_wire(q: QuestionView, pos: int) -> Result<Seq<u8>, DnsError> {
    let name = name_wire(encode_utf8(q.qname), pos);
    then(name, put(pos + wire_len(name), be16(query_type_number(q.qtype)) + be16(1)))
}

impl DnsQuestion {
    /// The question for `qname` and `qtype`.
    pub fn new(qname: String, qtype: QueryType) -> (q: DnsQuestion)
        ensures
            q.qname == qname,
            q.qtype == qtype,
    {
        DnsQuestion { qname, qtype }
    }

    /// Reads a question at the cursor and moves the cursor behind it. On
    /// failure the cursor has not moved.
    pub fn read(buf: &mut PacketBuffer) -> (r: Result<DnsQuestion, DnsError>)
        ensures
            final(buf).buf == old(buf).buf,
            match question_at(old(buf).buf@, old(buf).pos as int) {
                Ok((q, end)) => r is Ok && r->Ok_0@ == q && final(buf).pos == end,
                Err(e) => r is Err && r->Err_0 == e && final(buf).pos == old(buf).pos,
            },
    {
        let start = buf.pos();
        let mut qname = String::new();
        buf.read_qname(&mut qname)?;
        assert(qname@ =~= name_at(old(buf).buf@, old(buf).pos as int)->Ok_0.0);
        match buf.read_u16() {
            Ok(number) => {
                buf.step(2);
                Ok(DnsQuestion { qname, qtype: QueryType::from_u16(number) })
            },
            Err(e) => {
                buf.seek(start);
                Err(e)
            },
        }
    }

    /// Writes the question at the cursor and moves the cursor behind it. On
    /// failure the buffer is as it was.
    pub fn write(&self, buf: &mut PacketBuffer) -> (r: Result<(), DnsError>)
        ensures
            match question_wire(self@, old(buf).pos as int) {
                Ok(bytes) => r is Ok && final(buf).pos == old(buf).pos + bytes.len() && final(
                    buf).buf@ == splice(old(buf).buf@, old(buf).pos as int, bytes),
                Err(e) => r == Err::<(), DnsError>(e) && *final(buf) == *old(buf),
            },
    {
        let saved_buf = buf.buf;
        let saved_pos = buf.pos;
        match self.put(buf) {
            Ok(()) => Ok(()),
            Err(e) => {
                buf.buf = saved_buf;
                buf.pos = saved_pos;
                Err(e)
            },
        }
    }

    /// Writes the question as `write` does, but leaves what it wrote where a
    /// later part fails.
    pub(crate) fn put(&self, buf: &mut PacketBuffer) -> (r: Result<(), DnsError>)
        ensures
            match question_wire(self@, old(buf).pos as int) {
                Ok(bytes) => r is Ok && final(buf).pos == old(buf).pos + bytes.len() && final(
                    buf).buf@ == splice(old(buf).buf@, old(buf).pos as int, bytes),
                Err(e) => r == Err::<(), DnsError>(e),
            },
    {
        proof {
            reveal(question_wire);
        }
        let ghost region = buf.buf@;
        let ghost start = buf.pos as int;
        let ghost name = name_wire(encode_utf8(self@.qname), start);
        buf.put_name(self.qname.as_str())?;
        let number = self.qtype.to_u16();
        buf.write_u16(number)?;
        buf.write_u16(1)?;
        proof {
            let n = name->Ok_0;
            lemma_splice_twice(region, start, n, be16(number));
            lemma_splice_twice(region, start, n + be16(number), be16(1));
            assert(n + be16(number) + be16(1) =~= n + (be16(number) + be16(1)));
        }
        Ok(())
    }
}

} // verus!
