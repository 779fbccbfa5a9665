//! The resolution engine: which server to ask next, and when to stop. The
//! engine does no input or output. It says what to send, is handed what came
//! back, and says what to do then.

use vstd::prelude::*;
use crate::dns::header::{DnsHeader, ResultCode};
use crate::dns::packet::{
    counts_match, delegations, first_address, first_glued, DnsPacket, PacketView,
};
use crate::dns::question::{DnsQuestion, QueryType, QuestionView};
use crate::error::DnsError;

verus! {

/// The port at which name servers are asked.
pub const DNS_PORT: u16 = 53;

/// What a response means for the lookup that it answers.
#[derive(Debug, Clone, PartialEq, Eq)]
pub enum Verdict {
    /// The response ends the lookup: it has answers, or says that the name
    /// does not exist, or names no server to go on with.
    Final,
    /// The response names a server and gives its address: ask there next.
    Referral([u8; 4]),
    /// The response names a server without an address: look that name up
    /// first.
    Unresolved(String),
}

/// A verdict as a mathematical value.
pub enum VerdictView {
    Final,
    Referral(Seq<u8>),
    Unresolved(Seq<char>),
}

impl View for Verdict {
    type V = VerdictView;

    open spec fn view(&self) -> VerdictView {
        match *self {
            Verdict::Final => VerdictView::Final,
            Verdict::Referral(addr) => VerdictView::Referral(addr@),
            Verdict::Unresolved(host) => VerdictView::Unresolved(host@),
        }
    }
}

/// What the response `m` means for a lookup of `qname`. Answers without an
/// error end it, and so does the code for a name that does not exist. Else
/// the first delegation whose name server has an address in the additional
/// section gives the next server; without one, the first delegation's name
/// server is to be looked up; without any delegation the response is final.
pub open spec fn verdict_of(m: PacketView, qname: Seq<char>) -> VerdictView {
    let ds = delegations(m.authorities, qname);
    if m.header.rcode == ResultCode::NOERROR && m.answers.len() > 0 {
        VerdictView::Final
    } else if m.header.rcode == ResultCode::NXDOMAIN {
        VerdictView::Final
    } else {
        match first_glued(ds, m.additionals) {
            Some(addr) => VerdictView::Referral(addr),
            None => if ds.len() > 0 {
                VerdictView::Unresolved(ds[0].1)
            } else {
                VerdictView::Final
            },
        }
    }
}

/// Judges a response to a lookup of `qname`.
pub fn judge(response: &DnsPacket, qname: &str) -> (v: Verdict)
    ensures
        v@ == verdict_of(response@, qname@),
{
    if response.header.rcode == ResultCode::NOERROR && response.answers.len() > 0 {
        return Verdict::Final;
    }
    if response.header.rcode == ResultCode::NXDOMAIN {
        return Verdict::Final;
    }
    if let Some(addr) = response.get_resolved_ns(qname) {
        return Verdict::Referral(addr);
    }
    match response.get_unresolved_ns(qname) {
        Some(host) => Verdict::Unresolved(host.to_owned()),
        None => Verdict::Final,
    }
}

/// A lookup that is under way.
#[derive(Debug, Clone, PartialEq, Eq)]
pub struct Lookup {
    pub qname: String,
    pub qtype: QueryType,
}

impl View for Lookup {
    type V = QuestionView;

    open spec fn view(&self) -> QuestionView {
        QuestionView { qname: self.qname@, qtype: self.qtype }
    }
}

/// What the engine wants done next.
#[derive(Debug, Clone, PartialEq, Eq)]
pub enum Action {
    /// Send this question to this server, and hand the response to
    /// `on_response`.
    Query { qname: String, qtype: QueryType, server: [u8; 4] },
    /// The resolution has ended, with this message as its result.
    Done(DnsPacket),
}

/// An action as a mathematical value.
pub enum ActionView {
    Query { qname: Seq<char>, qtype: QueryType, server: Seq<u8> },
    Done(PacketView),
}

impl View for Action {
    type V = ActionView;

    open spec fn view(&self) -> ActionView {
        match *self {
            Action::Query { qname, qtype, server } => ActionView::Query {
                qname: qname@,
                qtype,
                server: server@,
            },
            Action::Done(packet) => ActionView::Done(packet@),
        }
    }
}

/// The state of one resolution: the lookups that are under way, the one
/// that was asked for first and each one that a later one waits for, and the
/// server to ask.
#[derive(Debug, Clone, PartialEq, Eq)]
pub struct Resolver {
    pub pending: Vec<Lookup>,
    pub server: [u8; 4],
}

/// The state of a resolution as a mathematical value.
pub struct ResolverView {
    pub pending: Seq<QuestionView>,
    pub server: Seq<u8>,
}

/// Lookups as mathematical values.
pub open spec fn lookup_views(ls: Seq<Lookup>) -> Seq<QuestionView> {
    Seq::new(ls.len(), |i: int| ls[i]@)
}

impl View for Resolver {
    type V = ResolverView;

    open spec fn view(&self) -> ResolverView {
        ResolverView { pending: lookup_views(self.pending@), server: self.server@ }
    }
}

/// The state after the response `m` came in, and what to do next.
///
/// The response is judged for the innermost lookup. A referral changes the
/// server and asks the same question again. A name server without an
/// address becomes a lookup of its own, of type A, at the same server. A
/// final response to the first lookup ends the resolution. A final response
/// to an inner lookup gives the server for the lookup that waited, if it
/// holds an address; if it holds none, it ends the resolution as its result.
pub open spec fn step(s: ResolverView, m: PacketView) -> (ResolverView, ActionView) {
    if s.pending.len() == 0 {
        (s, ActionView::Done(m))
    } else {
        let top = s.pending.last();
        match verdict_of(m, top.qname) {
            VerdictView::Referral(addr) => (
                ResolverView { pending: s.pending, server: addr },
                ActionView::Query { qname: top.qname, qtype: top.qtype, server: addr },
            ),
            VerdictView::Unresolved(host) => (
                ResolverView {
                    pending: s.pending.push(QuestionView { qname: host, qtype: QueryType::A }),
                    server: s.server,
                },
                ActionView::Query { qname: host, qtype: QueryType::A, server: s.server },
            ),
            VerdictView::Final => if s.pending.len() == 1 {
                (ResolverView { pending: Seq::empty(), server: s.server }, ActionView::Done(m))
            } else {
                match first_address(m.answers) {
                    Some(addr) => {
                        let waiting = s.pending[s.pending.len() - 2];
                        (
                            ResolverView { pending: s.pending.drop_last(), server: addr },
                            ActionView::Query {
                                qname: waiting.qname,
                                qtype: waiting.qtype,
                                server: addr,
                            },
                        )
                    },
                    None => (
                        ResolverView { pending: Seq::empty(), server: s.server },
                        ActionView::Done(m),
                    ),
                }
            },
        }
    }
}

impl Resolver {
    /// Begins the resolution of `qname` and `qtype` at `server`: the first
    /// thing to do is to ask that server.
    pub fn start(qname: String, qtype: QueryType, server: [u8; 4]) -> (r: (Resolver, Action))
        ensures
            r.0@ == (ResolverView {
                pending: seq![QuestionView { qname: qname@, qtype }],
                server: server@,
            }),
            r.1@ == (ActionView::Query { qname: qname@, qtype, server: server@ }),
    {
        let asked = qname.clone();
        let mut pending: Vec<Lookup> = Vec::new();
        pending.push(Lookup { qname, qtype });
        let resolver = Resolver { pending, server };
        assert(resolver@.pending =~= seq![QuestionView { qname: qname@, qtype }]);
        (resolver, Action::Query { qname: asked, qtype, server })
    }

    /// Whether the resolution is still under way.
    pub fn is_active(&self) -> (b: bool)
        ensures
            b == (self@.pending.len() > 0),
    {
        self.pending.len() > 0
    }

    /// Takes the response to the query that was asked for last, and says
    /// what to do next.
    pub fn on_response(&mut self, response: DnsPacket) -> (action: Action)
        ensures
            (final(self)@, action@) == step(old(self)@, response@),
    {
        let n = self.pending.len();
        if n == 0 {
            return Action::Done(response);
        }
        let ghost before = self@;
        assert(before.pending.last() == self.pending@[n - 1]@);
        let verdict = judge(&response, self.pending[n - 1].qname.as_str());
        match verdict {
            Verdict::Referral(addr) => {
                self.server = addr;
                let qname = self.pending[n - 1].qname.clone();
                let qtype = self.pending[n - 1].qtype;
                assert(self@.pending =~= before.pending);
                Action::Query { qname, qtype, server: addr }
            },
            Verdict::Unresolved(host) => {
                let qname = host.clone();
                self.pending.push(Lookup { qname: host, qtype: QueryType::A });
                assert(self@.pending =~= before.pending.push(
                    QuestionView { qname: host@, qtype: QueryType::A },
                ));
                Action::Query { qname, qtype: QueryType::A, server: self.server }
            },
            Verdict::Final => {
                if n == 1 {
                    self.pending.clear();
                    assert(self@.pending =~= Seq::empty());
                    return Action::Done(response);
                }
                match response.get_any_a() {
                    Some(addr) => {
                        self.pending.pop();
                        self.server = addr;
                        let qname = self.pending[n - 2].qname.clone();
                        let qtype = self.pending[n - 2].qtype;
                        assert(self@.pending =~= before.pending.drop_last());
                        Action::Query { qname, qtype, server: addr }
                    },
                    None => {
                        self.pending.clear();
                        assert(self@.pending =~= Seq::empty());
                        Action::Done(response)
                    },
                }
            },
        }
    }
}

/// The query that asks one question: identification 1234, recursion
/// desired.
pub open spec fn query_for(qname: Seq<char>, qtype: QueryType) -> PacketView {
    PacketView {
        header: DnsHeader {
            id: 1234,
            qr: false,
            opcode: 0,
            aa: false,
            tc: false,
            rd: true,
            ra: false,
            z: 0,
            rcode: ResultCode::NOERROR,
            qdcount: 1,
            ancount: 0,
            nscount: 0,
            arcount: 0,
        },
        questions: seq![QuestionView { qname, qtype }],
        answers: Seq::empty(),
        authorities: Seq::empty(),
        additionals: Seq::empty(),
    }
}

/// Makes the query that asks a server one question.
pub fn build_query(qname: String, qtype: QueryType) -> (p: DnsPacket)
    ensures
        p@ == query_for(qname@, qtype),
        counts_match(p@),
{
    let mut packet = DnsPacket::new();
    packet.header.id = 1234;
    packet.header.rd = true;
    packet.add_question(DnsQuestion::new(qname, qtype));
    assert(packet@.questions =~= seq![QuestionView { qname: qname@, qtype }]);
    packet
}

/// The header of every reply to a client: a response to the query `id`,
/// with recursion desired and available, and the code `rcode`.
pub open spec fn reply_header(id: u16, rcode: ResultCode) -> DnsHeader {
    DnsHeader {
        id,
        qr: true,
        opcode: 0,
        aa: false,
        tc: false,
        rd: true,
        ra: true,
        z: 0,
        rcode,
        qdcount: 0,
        ancount: 0,
        nscount: 0,
        arcount: 0,
    }
}

/// The reply that hands the result of a resolution to the client: the
/// question, the result's code, and its records section by section.
pub open spec fn reply_for(id: u16, question: QuestionView, result: PacketView) -> PacketView {
    PacketView {
        header: DnsHeader {
            qdcount: 1,
            ancount: result.answers.len() as u16,
            nscount: result.authorities.len() as u16,
            arcount: result.additionals.len() as u16,
            ..reply_header(id, result.header.rcode)
        },
        questions: seq![question],
        answers: result.answers,
        authorities: result.authorities,
        additionals: result.additionals,
    }
}

/// The reply that reports a failure: no question, no record.
pub open spec fn failure_for(id: u16, rcode: ResultCode) -> PacketView {
    PacketView {
        header: reply_header(id, rcode),
        questions: Seq::empty(),
        answers: Seq::empty(),
        authorities: Seq::empty(),
        additionals: Seq::empty(),
    }
}

/// The question that a request is answered for: its first one.
pub fn first_question(request: &DnsPacket) -> (r: Result<&DnsQuestion, DnsError>)
    ensures
        request@.questions.len() == 0 ==> r is Err && r->Err_0 == DnsError::EmptyQuestionSet,
        request@.questions.len() > 0 ==> r is Ok && r->Ok_0@ == request@.questions[0],
{
    if request.questions.len() == 0 {
        return Err(DnsError::EmptyQuestionSet);
    }
    Ok(&request.questions[0])
}

/// Makes the reply to the query `id` from the result of the resolution.
pub fn build_reply(id: u16, question: DnsQuestion, result: DnsPacket) -> (p: DnsPacket)
    requires
        result.answers@.len() <= u16::MAX,
        result.authorities@.len() <= u16::MAX,
        result.additionals@.len() <= u16::MAX,
    ensures
        p@ == reply_for(id, question@, result@),
        counts_match(p@),
{
    let mut header = DnsHeader::new();
    header.id = id;
    header.rd = true;
    header.ra = true;
    header.qr = true;
    header.rcode = result.header.rcode;
    header.qdcount = 1;
    header.ancount = result.answers.len() as u16;
    header.nscount = result.authorities.len() as u16;
    header.arcount = result.additionals.len() as u16;
    let mut questions: Vec<DnsQuestion> = Vec::new();
    questions.push(question);
    let p = DnsPacket {
        header,
        questions,
        answers: result.answers,
        authorities: result.authorities,
        additionals: result.additionals,
    };
    assert(p@.questions =~= seq![question@]);
    p
}

/// Makes the reply to the query `id` that reports a failure: `FORMERR` for
/// a request without a question, `SERVFAIL` where a server could not be
/// reached.
pub fn build_failure(id: u16, rcode: ResultCode) -> (p: DnsPacket)
    ensures
        p@ == failure_for(id, rcode),
        counts_match(p@),
{
    let mut packet = DnsPacket::new();
    packet.header.id = id;
    packet.header.rd = true;
    packet.header.ra = true;
    packet.header.qr = true;
    packet.header.rcode = rcode;
    packet
}

/// The reply to a request, given how its resolution ended: a format error
/// for a request without a question, whatever the outcome; else the result
/// of the resolution of the first question, or a server failure where the
/// resolution failed.
pub open spec fn reply_of(
    request: PacketView,
    outcome: Result<PacketView, DnsError>,
) -> PacketView {
    if request.questions.len() == 0 {
        failure_for(request.header.id, ResultCode::FORMERR)
    } else {
        match outcome {
            Ok(result) => reply_for(request.header.id, request.questions[0], result),
            Err(_) => failure_for(request.header.id, ResultCode::SERVFAIL),
        }
    }
}

/// The outcome of a resolution as a mathematical value.
pub open spec fn outcome_view(outcome: Result<DnsPacket, DnsError>) -> Result<
    PacketView,
    DnsError,
> {
    match outcome {
        Ok(result) => Ok(result@),
        Err(e) => Err(e),
    }
}

/// Makes the reply to a request from the outcome of its resolution.
pub fn reply_to(request: &DnsPacket, outcome: Result<DnsPacket, DnsError>) -> (p: DnsPacket)
    requires
        outcome is Ok ==> outcome->Ok_0.answers@.len() <= u16::MAX
            && outcome->Ok_0.authorities@.len() <= u16::MAX
            && outcome->Ok_0.additionals@.len() <= u16::MAX,
    ensures
        p@ == reply_of(request@, outcome_view(outcome)),
        counts_match(p@),
{
    let id = request.header.id;
    match first_question(request) {
        Err(_) => build_failure(id, ResultCode::FORMERR),
        Ok(question) => match outcome {
            Ok(result) => {
                let asked = DnsQuestion { qname: question.qname.clone(), qtype: question.qtype };
                build_reply(id, asked, result)
            },
            Err(_) => build_failure(id, ResultCode::SERVFAIL),
        },
    }
}

} // verus!
