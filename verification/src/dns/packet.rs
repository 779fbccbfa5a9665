//! The whole message: a header and four sections.

use vstd::prelude::*;
use crate::dns::header::{header_at, header_wire, DnsHeader};
use crate::dns::question::{question_at, question_wire, DnsQuestion, QuestionView};
use crate::dns::record::{record_at, record_wire, DnsRecord, RecordView};
use crate::error::DnsError;
use crate::packetbuff::PacketBuffer;
use crate::text::{ends_with, name_ends_with, same_text};
use crate::wire::{after, behind, lemma_splice_twice, splice, then, wire_len};

verus! {

/// A message. The counts in the header are kept in step with the sections by
/// the `add_` operations; writing a message takes them as they stand.
#[derive(Debug, Clone, PartialEq, Eq)]
pub struct DnsPacket {
    pub header: DnsHeader,
    pub questions: Vec<DnsQuestion>,
    pub answers: Vec<DnsRecord>,
    pub authorities: Vec<DnsRecord>,
    pub additionals: Vec<DnsRecord>,
}

/// A message as a mathematical value.
pub struct PacketView {
    pub header: DnsHeader,
    pub questions: Seq<QuestionView>,
    pub answers: Seq<RecordView>,
    pub authorities: Seq<RecordView>,
    pub additionals: Seq<RecordView>,
}

/// Questions as mathematical values.
pub open spec fn question_views(qs: Seq<DnsQuestion>) -> Seq<QuestionView> {
    Seq::new(qs.len(), |i: int| qs[i]@)
}

/// Records as mathematical values.
pub open spec fn record_views(rs: Seq<DnsRecord>) -> Seq<RecordView> {
    Seq::new(rs.len(), |i: int| rs[i]@)
}

impl View for DnsPacket {
    type V = PacketView;

    open spec fn view(&self) -> PacketView {
        PacketView {
            header: self.header,
            questions: question_views(self.questions@),
            answers: record_views(self.answers@),
            authorities: record_views(self.authorities@),
            additionals: record_views(self.additionals@),
        }
    }
}

/// The `n` questions from `pos` on and the place behind them.
pub open spec fn questions_at(region: Seq<u8>, pos: int, n: nat) -> Result<
    (Seq<QuestionView>, int),
    DnsError,
>
    decreases n,
{
    if n == 0 {
        Ok((Seq::empty(), pos))
    } else {
        match question_at(region, pos) {
            Err(e) => Err(e),
            Ok((q, p)) => after(seq![q], questions_at(region, p, (n - 1) as nat)),
        }
    }
}

/// The `n` records from `pos` on and the place behind them.
pub open spec fn records_at(region: Seq<u8>, pos: int, n: nat) -> Result<
    (Seq<RecordView>, int),
    DnsError,
>
    decreases n,
{
    if n == 0 {
        Ok((Seq::empty(), pos))
    } else {
        match record_at(region, pos) {
            Err(e) => Err(e),
            Ok((r, p)) => after(seq![r], records_at(region, p, (n - 1) as nat)),
        }
    }
}

/// The message at `pos` and the place behind it: the header, then as many
/// questions, answers, authority records and additional records as the
/// header counts. The first part that cannot be read ends it.
pub open spec fn packet_at(region: Seq<u8>, pos: int) -> Result<(PacketView, int), DnsError> {
    match header_at(region, pos) {
        Err(e) => Err(e),
        Ok((header, at_questions)) => match sections_at(region, at_questions, header) {
            Err(e) => Err(e),
            Ok(((questions, answers, authorities, additionals), end)) => Ok(
                (PacketView { header, questions, answers, authorities, additionals }, end),
            ),
        },
    }
}

/// The four sections from `pos` on, as long as `header` counts them, and
/// the place behind them.
pub open spec fn sections_at(region: Seq<u8>, pos: int, header: DnsHeader) -> Result<
    ((Seq<QuestionView>, Seq<RecordView>, Seq<RecordView>, Seq<RecordView>), int),
    DnsError,
> {
    match questions_at(region, pos, header.qdcount as nat) {
        Err(e) => Err(e),
        Ok((questions, at_answers)) => match records_at(
            region,
            at_answers,
            header.ancount as nat,
        ) {
            Err(e) => Err(e),
            Ok((answers, at_authorities)) => match records_at(
                region,
                at_authorities,
                header.nscount as nat,
            ) {
                Err(e) => Err(e),
                Ok((authorities, at_additionals)) => match records_at(
                    region,
                    at_additionals,
                    header.arcount as nat,
                ) {
                    Err(e) => Err(e),
                    Ok((additionals, end)) => Ok(
                        ((questions, answers, authorities, additionals), end),
                    ),
                },
            },
        },
    }
}

/// The outcome of writing questions at `pos`, one behind the other.
pub open spec fn questions_wire(qs: Seq<QuestionView>, pos: int) -> Result<Seq<u8>, DnsError>
    decreases qs.len(),
{
    if qs.len() == 0 {
        Ok(Seq::empty())
    } else {
        let first = question_wire(qs[0], pos);
        then(first, questions_wire(qs.drop_first(), pos + wire_len(first)))
    }
}

/// The outcome of writing records at `pos`, one behind the other.
pub open spec fn records_wire(rs: Seq<RecordView>, pos: int) -> Result<Seq<u8>, DnsError>
    decreases rs.len(),
{
    if rs.len() == 0 {
        Ok(Seq::empty())
    } else {
        let first = record_wire(rs[0], pos);
        then(first, records_wire(rs.drop_first(), pos + wire_len(first)))
    }
}

/// The outcome of writing a message at `pos`: the header as it stands, the
/// questions, and the records section by section. The first part that
/// cannot be written ends it.
pub open spec fn packet_wire(m: PacketView, pos: int) -> Result<Seq<u8>, DnsError> {
    let header = header_wire(m.header, pos);
    let at_questions = pos + wire_len(header);
    let questions = questions_wire(m.questions, at_questions);
    let at_answers = at_questions + wire_len(questions);
    let answers = records_wire(m.answers, at_answers);
    let at_authorities = at_answers + wire_len(answers);
    let authorities = records_wire(m.authorities, at_authorities);
    let at_additionals = at_authorities + wire_len(authorities);
    let additionals = records_wire(m.additionals, at_additionals);
    then(header, then(questions, then(answers, then(authorities, additionals))))
}

/// The address of the first record of type A among `rs`.
pub open spec fn first_address(rs: Seq<RecordView>) -> Option<Seq<u8>>
    decreases rs.len(),
{
    if rs.len() == 0 {
        None
    } else {
        match rs[0] {
            RecordView::A { addr, .. } => Some(addr),
            _ => first_address(rs.drop_first()),
        }
    }
}

/// The address of the first record of type A among `rs` that `host` owns.
pub open spec fn glue_for(rs: Seq<RecordView>, host: Seq<char>) -> Option<Seq<u8>>
    decreases rs.len(),
{
    if rs.len() == 0 {
        None
    } else {
        match rs[0] {
            RecordView::A { domain, addr, .. } if domain == host => Some(addr),
            _ => glue_for(rs.drop_first(), host),
        }
    }
}

/// The delegations for `qname` among `rs`, in their order: of each record of
/// type NS whose owner `qname` ends with, the owner and the name server.
pub open spec fn delegations(rs: Seq<RecordView>, qname: Seq<char>) -> Seq<
    (Seq<char>, Seq<char>),
>
    decreases rs.len(),
{
    if rs.len() == 0 {
        Seq::empty()
    } else {
        let rest = delegations(rs.drop_first(), qname);
        match rs[0] {
            RecordView::NS { domain, ns, .. } if name_ends_with(qname, domain) => seq![
                (domain, ns),
            ] + rest,
            _ => rest,
        }
    }
}

/// The address of the first of `ds` whose name server has an address among
/// `additionals`.
pub open spec fn first_glued(
    ds: Seq<(Seq<char>, Seq<char>)>,
    additionals: Seq<RecordView>,
) -> Option<Seq<u8>>
    decreases ds.len(),
{
    if ds.len() == 0 {
        None
    } else {
        match glue_for(additionals, ds[0].1) {
            Some(addr) => Some(addr),
            None => first_glued(ds.drop_first(), additionals),
        }
    }
}

/// A message with one more question, counted in its header.
pub open spec fn with_question(m: PacketView, q: QuestionView) -> PacketView {
    PacketView {
        header: DnsHeader { qdcount: (m.header.qdcount + 1) as u16, ..m.header },
        questions: m.questions.push(q),
        ..m
    }
}

/// A message with one more answer, counted in its header.
pub open spec fn with_answer(m: PacketView, r: RecordView) -> PacketView {
    PacketView {
        header: DnsHeader { ancount: (m.header.ancount + 1) as u16, ..m.header },
        answers: m.answers.push(r),
        ..m
    }
}

/// A message with one more authority record, counted in its header.
pub open spec fn with_authority(m: PacketView, r: RecordView) -> PacketView {
    PacketView {
        header: DnsHeader { nscount: (m.header.nscount + 1) as u16, ..m.header },
        authorities: m.authorities.push(r),
        ..m
    }
}

/// A message with one more additional record, counted in its header.
pub open spec fn with_additional(m: PacketView, r: RecordView) -> PacketView {
    PacketView {
        header: DnsHeader { arcount: (m.header.arcount + 1) as u16, ..m.header },
        additionals: m.additionals.push(r),
        ..m
    }
}

/// The message without anything in it.
pub open spec fn empty_packet() -> PacketView {
    PacketView {
        header: DnsHeader {
            id: 0,
            qr: false,
            opcode: 0,
            aa: false,
            tc: false,
            rd: false,
            ra: false,
            z: 0,
            rcode: crate::dns::header::ResultCode::NOERROR,
            qdcount: 0,
            ancount: 0,
            nscount: 0,
            arcount: 0,
        },
        questions: Seq::empty(),
        answers: Seq::empty(),
        authorities: Seq::empty(),
        additionals: Seq::empty(),
    }
}

/// Whether each count in the header is the length of its section.
pub open spec fn counts_match(m: PacketView) -> bool {
    &&& m.header.qdcount == m.questions.len()
    &&& m.header.ancount == m.answers.len()
    &&& m.header.nscount == m.authorities.len()
    &&& m.header.arcount == m.additionals.len()
}

/// As many questions are read as were asked for.
pub proof fn lemma_questions_counted(region: Seq<u8>, pos: int, n: nat)
    requires
        questions_at(region, pos, n) is Ok,
    ensures
        questions_at(region, pos, n)->Ok_0.0.len() == n,
    decreases n,
{
    if n > 0 {
        let first = question_at(region, pos)->Ok_0;
        lemma_questions_counted(region, first.1, (n - 1) as nat);
    }
}

/// As many records are read as were asked for.
pub proof fn lemma_records_counted(region: Seq<u8>, pos: int, n: nat)
    requires
        records_at(region, pos, n) is Ok,
    ensures
        records_at(region, pos, n)->Ok_0.0.len() == n,
    decreases n,
{
    if n > 0 {
        let first = record_at(region, pos)->Ok_0;
        lemma_records_counted(region, first.1, (n - 1) as nat);
    }
}

/// In every message that is read, each count in the header is the length
/// of its section.
pub proof fn lemma_read_counts(region: Seq<u8>, pos: int)
    requires
        packet_at(region, pos) is Ok,
    ensures
        counts_match(packet_at(region, pos)->Ok_0.0),
{
    let (header, at_questions) = header_at(region, pos)->Ok_0;
    lemma_questions_counted(region, at_questions, header.qdcount as nat);
    let at_answers = questions_at(region, at_questions, header.qdcount as nat)->Ok_0.1;
    lemma_records_counted(region, at_answers, header.ancount as nat);
    let at_authorities = records_at(region, at_answers, header.ancount as nat)->Ok_0.1;
    lemma_records_counted(region, at_authorities, header.nscount as nat);
    let at_additionals = records_at(region, at_authorities, header.nscount as nat)->Ok_0.1;
    lemma_records_counted(region, at_additionals, header.arcount as nat);
}

impl DnsPacket {
    /// A message without anything in it.
    pub fn new() -> (p: DnsPacket)
        ensures
            p@ == empty_packet(),
            counts_match(p@),
    {
        let p = DnsPacket {
            header: DnsHeader::new(),
            questions: Vec::new(),
            answers: Vec::new(),
            authorities: Vec::new(),
            additionals: Vec::new(),
        };
        assert(p@.questions =~= Seq::empty());
        assert(p@.answers =~= Seq::empty());
        assert(p@.authorities =~= Seq::empty());
        assert(p@.additionals =~= Seq::empty());
        p
    }

    /// The address of the first answer of type A.
    pub fn get_any_a(&self) -> (r: Option<[u8; 4]>)
        ensures
            match first_address(self@.answers) {
                Some(addr) => r is Some && r->0@ == addr,
                None => r is None,
            },
    {
        let ghost all = self@.answers;
        let n = self.answers.len();
        let mut i: usize = 0;
        assert(all.subrange(0, n as int) =~= all);
        while i < n
            invariant
                i <= n,
                n == self.answers@.len(),
                all == self@.answers,
                first_address(all) == first_address(all.subrange(i as int, n as int)),
            decreases n - i,
        {
            assert(all.subrange(i as int, n as int).drop_first() =~= all.subrange(
                i + 1,
                n as int,
            ));
            if let DnsRecord::A { addr, .. } = &self.answers[i] {
                return Some(*addr);
            }
            i += 1;
        }
        None
    }

    /// The delegations for `qname` in the authority section, in their order:
    /// of each record of type NS whose owner `qname` ends with, the owner and
    /// the name server.
    pub fn iter_ns<'a>(&'a self, qname: &'a str) -> (r: Vec<(&'a str, &'a str)>)
        ensures
            r@.len() == delegations(self@.authorities, qname@).len(),
            forall|i: int|
                0 <= i < r@.len() ==> (#[trigger] r@[i]).0@ == delegations(
                    self@.authorities,
                    qname@,
                )[i].0 && r@[i].1@ == delegations(self@.authorities, qname@)[i].1,
    {
        let ghost all = self@.authorities;
        let ghost want = delegations(all, qname@);
        let n = self.authorities.len();
        let mut found: Vec<(&'a str, &'a str)> = Vec::new();
        let ghost mut seen: Seq<(Seq<char>, Seq<char>)> = Seq::empty();
        let mut i: usize = 0;
        assert(all.subrange(0, n as int) =~= all);
        assert(seen + want =~= want);
        while i < n
            invariant
                i <= n,
                n == self.authorities@.len(),
                all == self@.authorities,
                want == delegations(all, qname@),
                want == seen + delegations(all.subrange(i as int, n as int), qname@),
                found@.len() == seen.len(),
                forall|k: int|
                    0 <= k < found@.len() ==> (#[trigger] found@[k]).0@ == seen[k].0 && found@[k].1@
                        == seen[k].1,
            decreases n - i,
        {
            let ghost rest = delegations(all.subrange(i + 1, n as int), qname@);
            assert(all.subrange(i as int, n as int).drop_first() =~= all.subrange(
                i + 1,
                n as int,
            ));
            if let DnsRecord::NS { domain, ns, .. } = &self.authorities[i] {
                if ends_with(qname, domain.as_str()) {
                    found.push((domain.as_str(), ns.as_str()));
                    proof {
                        assert(seen + (seq![(domain@, ns@)] + rest) =~= seen.push((domain@, ns@))
                            + rest);
                        seen = seen.push((domain@, ns@));
                    }
                }
            }
            i += 1;
        }
        assert(seen + Seq::<(Seq<char>, Seq<char>)>::empty() =~= seen);
        found
    }

    /// The address of the first delegation for `qname` whose name server has
    /// a record of type A in the additional section.
    pub fn get_resolved_ns(&self, qname: &str) -> (r: Option<[u8; 4]>)
        ensures
            match first_glued(delegations(self@.authorities, qname@), self@.additionals) {
                Some(addr) => r is Some && r->0@ == addr,
                None => r is None,
            },
    {
        let candidates = self.iter_ns(qname);
        let ghost ds = delegations(self@.authorities, qname@);
        let ghost add = self@.additionals;
        let n = candidates.len();
        let mut i: usize = 0;
        assert(ds.subrange(0, n as int) =~= ds);
        while i < n
            invariant
                i <= n,
                n == candidates@.len(),
                n == ds.len(),
                ds == delegations(self@.authorities, qname@),
                add == self@.additionals,
                forall|k: int|
                    0 <= k < n ==> (#[trigger] candidates@[k]).1@ == ds[k].1,
                first_glued(ds, add) == first_glued(ds.subrange(i as int, n as int), add),
            decreases n - i,
        {
            assert(ds.subrange(i as int, n as int).drop_first() =~= ds.subrange(i + 1, n as int));
            let host = candidates[i].1;
            match self.glue(host) {
                Some(addr) => {
                    return Some(addr);
                },
                None => {},
            }
            i += 1;
        }
        None
    }

    /// The address of the first record of type A in the additional section
    /// that `host` owns.
    fn glue(&self, host: &str) -> (r: Option<[u8; 4]>)
        ensures
            match glue_for(self@.additionals, host@) {
                Some(addr) => r is Some && r->0@ == addr,
                None => r is None,
            },
    {
        let ghost all = self@.additionals;
        let n = self.additionals.len();
        let mut i: usize = 0;
        assert(all.subrange(0, n as int) =~= all);
        while i < n
            invariant
                i <= n,
                n == self.additionals@.len(),
                all == self@.additionals,
                glue_for(all, host@) == glue_for(all.subrange(i as int, n as int), host@),
            decreases n - i,
        {
            assert(all.subrange(i as int, n as int).drop_first() =~= all.subrange(
                i + 1,
                n as int,
            ));
            if let DnsRecord::A { domain, addr, .. } = &self.additionals[i] {
                if same_text(domain.as_str(), host) {
                    return Some(*addr);
                }
            }
            i += 1;
        }
        None
    }

    /// The name server of the first delegation for `qname`.
    pub fn get_unresolved_ns<'a>(&'a self, qname: &'a str) -> (r: Option<&'a str>)
        ensures
            delegations(self@.authorities, qname@).len() == 0 ==> r is None,
            delegations(self@.authorities, qname@).len() > 0 ==> r is Some && r->0@
                == delegations(self@.authorities, qname@)[0].1,
    {
        let candidates = self.iter_ns(qname);
        if candidates.len() > 0 {
            Some(candidates[0].1)
        } else {
            None
        }
    }

    /// Reads a message at the cursor and moves the cursor behind it. On
    /// failure the cursor has not moved.
    pub fn read(buf: &mut PacketBuffer) -> (r: Result<DnsPacket, DnsError>)
        ensures
            final(buf).buf == old(buf).buf,
            match packet_at(old(buf).buf@, old(buf).pos as int) {
                Ok((m, end)) => r is Ok && r->Ok_0@ == m && final(buf).pos == end,
                Err(e) => r is Err && r->Err_0 == e && final(buf).pos == old(buf).pos,
            },
            r is Ok ==> counts_match(r->Ok_0@),
    {
        proof {
            if packet_at(buf.buf@, buf.pos as int) is Ok {
                lemma_read_counts(buf.buf@, buf.pos as int);
            }
        }
        let start = buf.pos();
        match DnsPacket::scan(buf) {
            Ok(packet) => Ok(packet),
            Err(e) => {
                buf.seek(start);
                Err(e)
            },
        }
    }

    /// Reads a message as `read` does, but leaves the cursor where the
    /// failure was found.
    fn scan(buf: &mut PacketBuffer) -> (r: Result<DnsPacket, DnsError>)
        ensures
            final(buf).buf == old(buf).buf,
            match packet_at(old(buf).buf@, old(buf).pos as int) {
                Ok((m, end)) => r is Ok && r->Ok_0@ == m && final(buf).pos == end,
                Err(e) => r is Err && r->Err_0 == e,
            },
    {
        let header = DnsHeader::read(buf)?;
        let questions = DnsPacket::read_questions(buf, header.qdcount)?;
        let answers = DnsPacket::read_records(buf, header.ancount)?;
        let authorities = DnsPacket::read_records(buf, header.nscount)?;
        let additionals = DnsPacket::read_records(buf, header.arcount)?;
        Ok(DnsPacket { header, questions, answers, authorities, additionals })
    }

    /// Reads `n` questions, one behind the other.
    fn read_questions(buf: &mut PacketBuffer, n: u16) -> (r: Result<Vec<DnsQuestion>, DnsError>)
        ensures
            final(buf).buf == old(buf).buf,
            match questions_at(old(buf).buf@, old(buf).pos as int, n as nat) {
                Ok((qs, end)) => r is Ok && question_views(r->Ok_0@) == qs && final(buf).pos
                    == end,
                Err(e) => r is Err && r->Err_0 == e,
            },
    {
        let ghost region = buf.buf@;
        let ghost total = questions_at(region, buf.pos as int, n as nat);
        let mut found: Vec<DnsQuestion> = Vec::new();
        let mut i: u16 = 0;
        assert(question_views(found@) =~= Seq::empty());
        assert(after(Seq::empty(), total) == total) by {
            if total is Ok {
                assert(Seq::<QuestionView>::empty() + total->Ok_0.0 =~= total->Ok_0.0);
            }
        }
        while i < n
            invariant
                i <= n,
                buf.buf@ == region,
                region == old(buf).buf@,
                total == questions_at(region, old(buf).pos as int, n as nat),
                total == after(
                    question_views(found@),
                    questions_at(region, buf.pos as int, (n - i) as nat),
                ),
            decreases n - i,
        {
            let ghost seen = question_views(found@);
            let q = DnsQuestion::read(buf)?;
            proof {
                let rest = questions_at(region, buf.pos as int, (n - i - 1) as nat);
                if rest is Ok {
                    assert(seen + (seq![q@] + rest->Ok_0.0) =~= seen.push(q@) + rest->Ok_0.0);
                }
                assert(question_views(found@.push(q)) =~= seen.push(q@));
            }
            found.push(q);
            i += 1;
        }
        assert(question_views(found@) + Seq::<QuestionView>::empty() =~= question_views(found@));
        Ok(found)
    }

    /// Reads `n` records, one behind the other.
    fn read_records(buf: &mut PacketBuffer, n: u16) -> (r: Result<Vec<DnsRecord>, DnsError>)
        ensures
            final(buf).buf == old(buf).buf,
            match records_at(old(buf).buf@, old(buf).pos as int, n as nat) {
                Ok((rs, end)) => r is Ok && record_views(r->Ok_0@) == rs && final(buf).pos == end,
                Err(e) => r is Err && r->Err_0 == e,
            },
    {
        let ghost region = buf.buf@;
        let ghost total = records_at(region, buf.pos as int, n as nat);
        let mut found: Vec<DnsRecord> = Vec::new();
        let mut i: u16 = 0;
        assert(record_views(found@) =~= Seq::empty());
        assert(after(Seq::empty(), total) == total) by {
            if total is Ok {
                assert(Seq::<RecordView>::empty() + total->Ok_0.0 =~= total->Ok_0.0);
            }
        }
        while i < n
            invariant
                i <= n,
                buf.buf@ == region,
                region == old(buf).buf@,
                total == records_at(region, old(buf).pos as int, n as nat),
                total == after(
                    record_views(found@),
                    records_at(region, buf.pos as int, (n - i) as nat),
                ),
            decreases n - i,
        {
            let ghost seen = record_views(found@);
            let rec = DnsRecord::read(buf)?;
            proof {
                let rest = records_at(region, buf.pos as int, (n - i - 1) as nat);
                if rest is Ok {
                    assert(seen + (seq![rec@] + rest->Ok_0.0) =~= seen.push(rec@) + rest->Ok_0.0);
                }
                assert(record_views(found@.push(rec)) =~= seen.push(rec@));
            }
            found.push(rec);
            i += 1;
        }
        assert(record_views(found@) + Seq::<RecordView>::empty() =~= record_views(found@));
        Ok(found)
    }

    /// Writes the message at the cursor and moves the cursor behind it. The
    /// counts in the header are written as they stand. On failure the buffer
    /// is as it was.
    pub fn write(&mut self, buf: &mut PacketBuffer) -> (r: Result<(), DnsError>)
        ensures
            *final(self) == *old(self),
            match packet_wire(old(self)@, old(buf).pos as int) {
                Ok(bytes) => r is Ok && final(buf).pos == old(buf).pos + bytes.len() && final(
                    buf).buf@ == splice(old(buf).buf@, old(buf).pos as int, bytes),
                Err(e) => r == Err::<(), DnsError>(e) && *final(buf) == *old(buf),
            },
    {
        let saved_buf = buf.buf;
        let saved_pos = buf.pos;
        match self.put(buf) {
            Ok(()) => Ok(()),
            Err(e) => {
                buf.buf = saved_buf;
                buf.pos = saved_pos;
                Err(e)
            },
        }
    }

    /// Writes the message as `write` does, but leaves what it wrote where a
    /// later part fails.
    fn put(&self, buf: &mut PacketBuffer) -> (r: Result<(), DnsError>)
        ensures
            match packet_wire(self@, old(buf).pos as int) {
                Ok(bytes) => r is Ok && final(buf).pos == old(buf).pos + bytes.len() && final(
                    buf).buf@ == splice(old(buf).buf@, old(buf).pos as int, bytes),
                Err(e) => r == Err::<(), DnsError>(e),
            },
    {
        let ghost region = buf.buf@;
        let ghost start = buf.pos as int;
        let ghost m = self@;
        let ghost h = header_wire(m.header, start);
        self.header.write(buf)?;
        let ghost at_questions = buf.pos as int;
        let ghost q = questions_wire(m.questions, at_questions);
        DnsPacket::put_questions(&self.questions, buf)?;
        let ghost at_answers = buf.pos as int;
        let ghost an = records_wire(m.answers, at_answers);
        DnsPacket::put_records(&self.answers, buf)?;
        let ghost at_authorities = buf.pos as int;
        let ghost ns = records_wire(m.authorities, at_authorities);
        DnsPacket::put_records(&self.authorities, buf)?;
        let ghost at_additionals = buf.pos as int;
        let ghost ar = records_wire(m.additionals, at_additionals);
        DnsPacket::put_records(&self.additionals, buf)?;
        proof {
            let (hb, qb, anb, nsb, arb) = (h->Ok_0, q->Ok_0, an->Ok_0, ns->Ok_0, ar->Ok_0);
            lemma_splice_twice(region, start, hb, qb);
            lemma_splice_twice(region, start, hb + qb, anb);
            lemma_splice_twice(region, start, hb + qb + anb, nsb);
            lemma_splice_twice(region, start, hb + qb + anb + nsb, arb);
            assert(hb + qb + anb + nsb + arb =~= hb + (qb + (anb + (nsb + arb))));
        }
        Ok(())
    }

    /// Writes questions, one behind the other.
    fn put_questions(qs: &Vec<DnsQuestion>, buf: &mut PacketBuffer) -> (r: Result<(), DnsError>)
        ensures
            match questions_wire(question_views(qs@), old(buf).pos as int) {
                Ok(bytes) => r is Ok && final(buf).pos == old(buf).pos + bytes.len() && final(
                    buf).buf@ == splice(old(buf).buf@, old(buf).pos as int, bytes),
                Err(e) => r == Err::<(), DnsError>(e),
            },
    {
        let ghost region = buf.buf@;
        let ghost start = buf.pos as int;
        let ghost all = question_views(qs@);
        let ghost total = questions_wire(all, start);
        let ghost mut written: Seq<u8> = Seq::empty();
        let n = qs.len();
        let mut i: usize = 0;
        assert(all.subrange(0, n as int) =~= all);
        assert(buf.buf@ =~= splice(region, start, written));
        assert(behind(written, total) == total) by {
            if total is Ok {
                assert(written + total->Ok_0 =~= total->Ok_0);
            }
        }
        while i < n
            invariant
                i <= n,
                n == qs@.len(),
                all == question_views(qs@),
                region == old(buf).buf@,
                start == old(buf).pos,
                total == questions_wire(all, start),
                buf.pos == start + written.len(),
                buf.buf@ == splice(region, start, written),
                total == behind(
                    written,
                    questions_wire(all.subrange(i as int, n as int), buf.pos as int),
                ),
            decreases n - i,
        {
            let ghost here = buf.pos as int;
            let ghost first = question_wire(all[i as int], here);
            assert(all.subrange(i as int, n as int)[0] == all[i as int]);
            assert(all.subrange(i as int, n as int).drop_first() =~= all.subrange(
                i + 1,
                n as int,
            ));
            qs[i].put(buf)?;
            proof {
                let b = first->Ok_0;
                let rest = questions_wire(all.subrange(i + 1, n as int), here + b.len());
                lemma_splice_twice(region, start, written, b);
                if rest is Ok {
                    assert(written + (b + rest->Ok_0) =~= (written + b) + rest->Ok_0);
                }
                written = written + b;
            }
            i += 1;
        }
        assert(written + Seq::<u8>::empty() =~= written);
        Ok(())
    }

    /// Writes records, one behind the other.
    fn put_records(rs: &Vec<DnsRecord>, buf: &mut PacketBuffer) -> (r: Result<(), DnsError>)
        ensures
            match records_wire(record_views(rs@), old(buf).pos as int) {
                Ok(bytes) => r is Ok && final(buf).pos == old(buf).pos + bytes.len() && final(
                    buf).buf@ == splice(old(buf).buf@, old(buf).pos as int, bytes),
                Err(e) => r == Err::<(), DnsError>(e),
            },
    {
        let ghost region = buf.buf@;
        let ghost start = buf.pos as int;
        let ghost all = record_views(rs@);
        let ghost total = records_wire(all, start);
        let ghost mut written: Seq<u8> = Seq::empty();
        let n = rs.len();
        let mut i: usize = 0;
        assert(all.subrange(0, n as int) =~= all);
        assert(buf.buf@ =~= splice(region, start, written));
        assert(behind(written, total) == total) by {
            if total is Ok {
                assert(written + total->Ok_0 =~= total->Ok_0);
            }
        }
        while i < n
            invariant
                i <= n,
                n == rs@.len(),
                all == record_views(rs@),
                region == old(buf).buf@,
                start == old(buf).pos,
                total == records_wire(all, start),
                buf.pos == start + written.len(),
                buf.buf@ == splice(region, start, written),
                total == behind(
                    written,
                    records_wire(all.subrange(i as int, n as int), buf.pos as int),
                ),
            decreases n - i,
        {
            let ghost here = buf.pos as int;
            let ghost first = record_wire(all[i as int], here);
            assert(all.subrange(i as int, n as int)[0] == all[i as int]);
            assert(all.subrange(i as int, n as int).drop_first() =~= all.subrange(
                i + 1,
                n as int,
            ));
            rs[i].put(buf)?;
            proof {
                let b = first->Ok_0;
                let rest = records_wire(all.subrange(i + 1, n as int), here + b.len());
                lemma_splice_twice(region, start, written, b);
                if rest is Ok {
                    assert(written + (b + rest->Ok_0) =~= (written + b) + rest->Ok_0);
                }
                written = written + b;
            }
            i += 1;
        }
        assert(written + Seq::<u8>::empty() =~= written);
        Ok(())
    }

    /// Adds a question and counts it.
    pub fn add_question(&mut self, question: DnsQuestion)
        requires
            old(self).header.qdcount < u16::MAX,
        ensures
            final(self)@ == with_question(old(self)@, question@),
            final(self).questions@ == old(self).questions@.push(question),
            final(self).header == (DnsHeader {
                qdcount: (old(self).header.qdcount + 1) as u16,
                ..old(self).header
            }),
            final(self).answers == old(self).answers,
            final(self).authorities == old(self).authorities,
            final(self).additionals == old(self).additionals,
            counts_match(old(self)@) ==> counts_match(final(self)@),
    {
        self.questions.push(question);
        self.header.qdcount += 1;
        assert(final(self)@.questions =~= old(self)@.questions.push(question@));
    }

    /// Adds an answer and counts it.
    pub fn add_answer(&mut self, answer: DnsRecord)
        requires
            old(self).header.ancount < u16::MAX,
        ensures
            final(self)@ == with_answer(old(self)@, answer@),
            final(self).answers@ == old(self).answers@.push(answer),
            final(self).header == (DnsHeader {
                ancount: (old(self).header.ancount + 1) as u16,
                ..old(self).header
            }),
            final(self).questions == old(self).questions,
            final(self).authorities == old(self).authorities,
            final(self).additionals == old(self).additionals,
            counts_match(old(self)@) ==> counts_match(final(self)@),
    {
        self.answers.push(answer);
        self.header.ancount += 1;
        assert(final(self)@.answers =~= old(self)@.answers.push(answer@));
    }

    /// Adds an authority record and counts it.
    pub fn add_authority(&mut self, authority: DnsRecord)
        requires
            old(self).header.nscount < u16::MAX,
        ensures
            final(self)@ == with_authority(old(self)@, authority@),
            final(self).authorities@ == old(self).authorities@.push(authority),
            final(self).header == (DnsHeader {
                nscount: (old(self).header.nscount + 1) as u16,
                ..old(self).header
            }),
            final(self).questions == old(self).questions,
            final(self).answers == old(self).answers,
            final(self).additionals == old(self).additionals,
            counts_match(old(self)@) ==> counts_match(final(self)@),
    {
        self.authorities.push(authority);
        self.header.nscount += 1;
        assert(final(self)@.authorities =~= old(self)@.authorities.push(authority@));
    }

    /// Adds an additional record and counts it.
    pub fn add_additional(&mut self, additional: DnsRecord)
        requires
            old(self).header.arcount < u16::MAX,
        ensures
            final(self)@ == with_additional(old(self)@, additional@),
            final(self).additionals@ == old(self).additionals@.push(additional),
            final(self).header == (DnsHeader {
                arcount: (old(self).header.arcount + 1) as u16,
                ..old(self).header
            }),
            final(self).questions == old(self).questions,
            final(self).answers == old(self).answers,
            final(self).authorities == old(self).authorities,
            counts_match(old(self)@) ==> counts_match(final(self)@),
    {
        self.additionals.push(additional);
        self.header.arcount += 1;
        assert(final(self)@.additionals =~= old(self)@.additionals.push(additional@));
    }
}

} // verus!
