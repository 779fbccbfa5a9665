//! What holds of the codec as a whole: reading gives back what was written,
//! pointers are followed five times and no more, and the counts in a header
//! keep step with the sections.

use vstd::prelude::*;
use vstd::utf8::{
    encode_utf8, encode_utf8_decode_utf8, encode_utf8_valid_utf8, is_ascii_chars,
    is_ascii_chars_encode_utf8,
};
use crate::dns::header::{header_bytes, header_fits, lemma_header_inverse};
use crate::dns::packet::{
    counts_match, packet_at, packet_wire, questions_at, questions_wire, records_at, records_wire,
    with_answer, PacketView,
};
use crate::dns::question::{
    query_type_canonical, query_type_number, question_at, question_wire, QuestionView,
};
use crate::dns::record::{
    address_wire, named_wire, record_at, record_head, record_wire, RecordView,
};
use crate::error::DnsError;
use crate::name::{
    ascii_lowercase, dot_from, dotted, label_text, label_texts, labels_at, labels_from, labels_of,
    labels_wire, lemma_dot_from_bounds, lemma_dot_from_is, name_at, name_wire, DOT,
};
use crate::wire::{
    be16, be32, fits, holds_at, lemma_be16_inverse, lemma_be32_inverse, lemma_splice_holds, put,
    splice, then, u16_of, u32_of, wire_len,
};

verus! {

/// A message after the records `rs` were added to it as answers, one after
/// the other.
pub open spec fn with_answers(m: PacketView, rs: Seq<RecordView>) -> PacketView
    decreases rs.len(),
{
    if rs.len() == 0 {
        m
    } else {
        with_answer(with_answers(m, rs.drop_last()), rs.last())
    }
}

/// After answers were added to a message whose header counted its answers,
/// the header counts them still, and the answer section holds the old
/// answers and then the new ones in the order in which they were added.
pub proof fn lemma_answers_counted(m: PacketView, rs: Seq<RecordView>)
    requires
        m.header.ancount == m.answers.len(),
        m.answers.len() + rs.len() <= u16::MAX,
    ensures
        with_answers(m, rs).header.ancount == m.answers.len() + rs.len(),
        with_answers(m, rs).answers == m.answers + rs,
        with_answers(m, rs).answers.len() == with_answers(m, rs).header.ancount,
    decreases rs.len(),
{
    if rs.len() == 0 {
        assert(m.answers + rs =~= m.answers);
    } else {
        lemma_answers_counted(m, rs.drop_last());
        assert((m.answers + rs.drop_last()).push(rs.last()) =~= m.answers + rs);
    }
}

/// Whether a pointer stands at `pos`: a byte with its two top bits set, and
/// a second byte in the region.
pub open spec fn pointer_at(region: Seq<u8>, pos: int) -> bool {
    0 <= pos && pos + 1 < 512 && region[pos] >= 192
}

/// Where the pointer at `pos` leads.
pub open spec fn pointer_target(region: Seq<u8>, pos: int) -> int {
    (region[pos] - 192) * 256 + region[pos + 1]
}

/// Whether, from `pos` on, `n` pointers lead from one to the next.
pub open spec fn pointer_chain(region: Seq<u8>, pos: int, n: nat) -> bool
    decreases n,
{
    n == 0 || (pointer_at(region, pos) && pointer_chain(
        region,
        pointer_target(region, pos),
        (n - 1) as nat,
    ))
}

/// Where the last of `n` pointers from `pos` on leads.
pub open spec fn chain_end(region: Seq<u8>, pos: int, n: nat) -> int
    decreases n,
{
    if n == 0 {
        pos
    } else {
        chain_end(region, pointer_target(region, pos), (n - 1) as nat)
    }
}

/// Pointers that, with those followed before, are more than five end the
/// reading.
proof fn lemma_chain_too_long(region: Seq<u8>, pos: int, n: nat, jumps: int)
    requires
        pointer_chain(region, pos, n),
        0 <= jumps,
        jumps + n > 5,
    ensures
        labels_at(region, pos, jumps) == Err::<(Seq<Seq<u8>>, int), DnsError>(
            DnsError::MalformedCompression,
        ),
    decreases n,
{
    if jumps <= 5 {
        lemma_chain_too_long(region, pointer_target(region, pos), (n - 1) as nat, jumps + 1);
    }
}

/// Pointers that, with those followed before, are at most five are
/// followed to what the last of them leads to.
proof fn lemma_chain_followed(
    region: Seq<u8>,
    pos: int,
    n: nat,
    jumps: int,
    labels: Seq<Seq<u8>>,
    end: int,
)
    requires
        pointer_chain(region, pos, n),
        n > 0,
        0 <= jumps,
        jumps + n <= 5,
        labels_at(region, chain_end(region, pos, n), jumps + n) == Ok::<
            (Seq<Seq<u8>>, int),
            DnsError,
        >((labels, end)),
    ensures
        labels_at(region, pos, jumps) == Ok::<(Seq<Seq<u8>>, int), DnsError>((labels, pos + 2)),
    decreases n,
{
    let target = pointer_target(region, pos);
    if n > 1 {
        lemma_chain_followed(region, target, (n - 1) as nat, jumps + 1, labels, end);
    } else {
        assert(chain_end(region, target, 0) == target);
    }
}

/// A name that begins with six pointers, each leading to the next, is not
/// read: the sixth pointer is one too many.
pub proof fn lemma_six_pointers_fail(region: Seq<u8>, pos: int)
    requires
        pointer_chain(region, pos, 6),
    ensures
        name_at(region, pos) == Err::<(Seq<char>, int), DnsError>(DnsError::MalformedCompression),
{
    lemma_chain_too_long(region, pos, 6, 0);
}

/// A name that begins with up to five pointers, each leading to the next
/// and the last to labels without a pointer, is read: it is those labels,
/// and the cursor ends behind the first pointer.
pub proof fn lemma_five_pointers_pass(
    region: Seq<u8>,
    pos: int,
    n: nat,
    labels: Seq<Seq<u8>>,
    end: int,
)
    requires
        1 <= n <= 5,
        pointer_chain(region, pos, n),
        labels_at(region, chain_end(region, pos, n), 5) == Ok::<(Seq<Seq<u8>>, int), DnsError>(
            (labels, end),
        ),
    ensures
        name_at(region, pos) == Ok::<(Seq<char>, int), DnsError>(
            (dotted(label_texts(labels)), pos + 2),
        ),
{
    lemma_jump_count_free(region, chain_end(region, pos, n), n as int, labels, end);
    lemma_chain_followed(region, pos, n, 0, labels, end);
}

/// Labels that are read with five pointers already followed hold no
/// pointer, and so are read the same with fewer followed.
proof fn lemma_jump_count_free(
    region: Seq<u8>,
    pos: int,
    jumps: int,
    labels: Seq<Seq<u8>>,
    end: int,
)
    requires
        0 <= jumps <= 5,
        labels_at(region, pos, 5) == Ok::<(Seq<Seq<u8>>, int), DnsError>((labels, end)),
    ensures
        labels_at(region, pos, jumps) == Ok::<(Seq<Seq<u8>>, int), DnsError>((labels, end)),
    decreases 512 - pos,
{
    let len = region[pos] as int;
    if len >= 192 {
        assert(labels_at(region, pointer_target(region, pos), 6) is Err);
    } else if len != 0 {
        let rest = labels_at(region, pos + 1 + len, 5);
        lemma_jump_count_free(region, pos + 1 + len, jumps, rest->Ok_0.0, rest->Ok_0.1);
    }
}

/// A region that holds `a + b` at `pos` holds `a` there and `b` behind it.
pub proof fn lemma_holds_parts(region: Seq<u8>, pos: int, a: Seq<u8>, b: Seq<u8>)
    requires
        holds_at(region, pos, a + b),
    ensures
        holds_at(region, pos, a),
        holds_at(region, pos + a.len(), b),
{
    let whole = region.subrange(pos, pos + (a + b).len());
    assert(region.subrange(pos, pos + a.len()) =~= whole.subrange(0, a.len() as int));
    assert(whole.subrange(0, a.len() as int) =~= a);
    assert(region.subrange(pos + a.len(), pos + a.len() + b.len()) =~= whole.subrange(
        a.len() as int,
        (a + b).len() as int,
    ));
    assert(whole.subrange(a.len() as int, (a + b).len() as int) =~= b);
}

/// Labels that were written are read back: where a region holds what
/// writing labels at `pos` gives, and no label is empty, reading at `pos`
/// gives those labels and ends behind them.
pub proof fn lemma_labels_read_back(
    region: Seq<u8>,
    pos: int,
    jumps: int,
    labels: Seq<Seq<u8>>,
    bytes: Seq<u8>,
)
    requires
        region.len() == 512,
        0 <= pos,
        0 <= jumps <= 5,
        forall|i: int| 0 <= i < labels.len() ==> (#[trigger] labels[i]).len() > 0,
        labels_wire(labels, pos) == Ok::<Seq<u8>, DnsError>(bytes),
        holds_at(region, pos, bytes),
    ensures
        labels_at(region, pos, jumps) == Ok::<(Seq<Seq<u8>>, int), DnsError>(
            (labels, pos + bytes.len()),
        ),
    decreases labels.len(),
{
    if labels.len() == 0 {
        assert(region.subrange(pos, pos + 1)[0] == 0u8);
        assert(region[pos] == 0u8);
        assert(labels =~= Seq::empty());
    } else {
        let first = labels[0];
        let len = first.len() as int;
        let rest = labels_wire(labels.drop_first(), pos + 1 + len)->Ok_0;
        let front = seq![len as u8] + first;
        assert(bytes == front + rest);
        lemma_holds_parts(region, pos, front, rest);
        lemma_holds_parts(region, pos, seq![len as u8], first);
        assert(region.subrange(pos, pos + 1)[0] == len as u8);
        assert(region[pos] == len);
        assert(region.subrange(pos + 1, pos + 1 + len) == first);
        assert forall|i: int| 0 <= i < labels.drop_first().len() implies (
        #[trigger] labels.drop_first()[i]).len() > 0 by {
            assert(labels.drop_first()[i] == labels[i + 1]);
        }
        lemma_labels_read_back(region, pos + 1 + len, jumps, labels.drop_first(), rest);
        assert(seq![first] + labels.drop_first() =~= labels);
        assert(bytes.len() == 1 + len + rest.len());
        assert(labels_at(region, pos + 1 + len, jumps) == Ok::<(Seq<Seq<u8>>, int), DnsError>(
            (labels.drop_first(), pos + 1 + len + rest.len()),
        ));
    }
}

/// The longest label: a name of one label is written as its length, its
/// bytes and a zero byte if the label has at most 63 bytes and there is
/// room for it, and is refused as too long if it has 64 bytes or more,
/// wherever it is to be written.
pub proof fn lemma_label_limit(label: Seq<u8>, pos: int)
    requires
        label.len() > 0,
        forall|i: int| 0 <= i < label.len() ==> label[i] != DOT,
    ensures
        label.len() > 63 ==> name_wire(label, pos) == Err::<Seq<u8>, DnsError>(
            DnsError::LabelTooLong,
        ),
        label.len() <= 63 && pos + label.len() + 2 < 512 ==> name_wire(label, pos) == Ok::<
            Seq<u8>,
            DnsError,
        >(seq![label.len() as u8] + label + seq![0u8]),
{
    lemma_dot_from_is(label, 0, label.len() as int);
    let labels = labels_of(label);
    assert(label.subrange(0, label.len() as int) =~= label);
    assert(labels =~= seq![label]);
    assert(labels.drop_first() =~= Seq::<Seq<u8>>::empty());
    assert(labels[0] == label);
    if label.len() <= 63 && pos + label.len() + 2 < 512 {
        assert(labels_wire(labels.drop_first(), pos + 1 + label.len()) == Ok::<
            Seq<u8>,
            DnsError,
        >(seq![0u8]));
    }
}

/// Whether a name in text has no empty label: no dot at its start or its
/// end, and no dot behind a dot. The empty name is such a name.
pub open spec fn well_dotted(name: Seq<char>) -> bool {
    forall|i: int|
        0 <= i < name.len() && #[trigger] name[i] == '.' ==> 0 < i < name.len() - 1 && name[i
            + 1] != '.'
}

/// Texts joined by dots, seen from the first of them.
proof fn lemma_dotted_front(first: Seq<char>, rest: Seq<Seq<char>>)
    ensures
        dotted(seq![first] + rest) == if rest.len() == 0 {
            first
        } else {
            first + seq!['.'] + dotted(rest)
        },
    decreases rest.len(),
{
    let all = seq![first] + rest;
    if rest.len() == 0 {
        assert(all =~= seq![first]);
    } else {
        assert(all.drop_last() =~= seq![first] + rest.drop_last());
        assert(all.last() == rest.last());
        lemma_dotted_front(first, rest.drop_last());
        if rest.len() == 1 {
            assert(dotted(rest) == rest[0]);
        } else {
            assert(first + seq!['.'] + dotted(rest.drop_last()) + seq!['.'] + rest.last() =~= first
                + seq!['.'] + (dotted(rest.drop_last()) + seq!['.'] + rest.last()));
        }
    }
}

/// The bytes of ASCII text are its characters, one for one, and a dot in
/// the one is a dot in the other.
proof fn lemma_ascii_bytes(name: Seq<char>)
    requires
        is_ascii_chars(name),
    ensures
        encode_utf8(name).len() == name.len(),
        forall|i: int|
            0 <= i < name.len() ==> (#[trigger] encode_utf8(name)[i]) == name[i] as u8,
        forall|i: int|
            0 <= i < name.len() ==> ((#[trigger] encode_utf8(name)[i]) == DOT <==> name[i] == '.'),
{
    is_ascii_chars_encode_utf8(name);
    assert forall|i: int| 0 <= i < name.len() implies ((#[trigger] encode_utf8(name)[i]) == DOT
        <==> name[i] == '.') by {
        assert('\0' <= name[i] <= '\u{7f}');
    }
}

/// The text of a label that is a piece of an ASCII name is that piece in
/// lower case.
proof fn lemma_segment_text(name: Seq<char>, from: int, end: int)
    requires
        is_ascii_chars(name),
        0 <= from <= end <= name.len(),
    ensures
        label_text(encode_utf8(name).subrange(from, end)) == ascii_lowercase(
            name.subrange(from, end),
        ),
{
    let piece = name.subrange(from, end);
    lemma_ascii_bytes(name);
    assert(is_ascii_chars(piece)) by {
        assert forall|i: int| 0 <= i < piece.len() implies '\0' <= #[trigger] piece[i]
            <= '\u{7f}' by {
            assert(piece[i] == name[from + i]);
        }
    }
    lemma_ascii_bytes(piece);
    assert(encode_utf8(piece) =~= encode_utf8(name).subrange(from, end));
    encode_utf8_valid_utf8(piece);
    encode_utf8_decode_utf8(piece);
}

/// The labels of an ASCII name without empty labels, from the start of one
/// of them on: there is at least one, none is empty, and their texts joined
/// by dots are the rest of the name in lower case.
proof fn lemma_name_text(name: Seq<char>, from: int)
    requires
        is_ascii_chars(name),
        well_dotted(name),
        0 <= from < name.len(),
        from == 0 || name[from - 1] == '.',
    ensures
        labels_from(encode_utf8(name), from).len() > 0,
        forall|i: int|
            0 <= i < labels_from(encode_utf8(name), from).len() ==> (#[trigger] labels_from(
                encode_utf8(name),
                from,
            )[i]).len() > 0,
        dotted(label_texts(labels_from(encode_utf8(name), from))) == ascii_lowercase(
            name.subrange(from, name.len() as int),
        ),
    decreases name.len() - from,
{
    let b = encode_utf8(name);
    let n = name.len() as int;
    lemma_ascii_bytes(name);
    lemma_dot_from_bounds(b, from);
    let end = dot_from(b, from);
    assert(name[from] != '.') by {
        if name[from] == '.' {
            if from > 0 {
                assert(name[from - 1] == '.');
            }
        }
    }
    assert(b[from] != DOT);
    assert(end > from);
    let seg = b.subrange(from, end);
    lemma_segment_text(name, from, end);
    let ls = labels_from(b, from);
    if end == n {
        assert(ls =~= seq![seg]);
        assert(label_texts(ls) =~= seq![label_text(seg)]);
    } else {
        assert(b[end] == DOT);
        assert(name[end] == '.');
        let rest = labels_from(b, end + 1);
        lemma_name_text(name, end + 1);
        assert(ls == seq![seg] + rest);
        assert(label_texts(ls) =~= seq![label_text(seg)] + label_texts(rest));
        lemma_dotted_front(label_text(seg), label_texts(rest));
        assert(ascii_lowercase(name.subrange(from, end)) + seq!['.'] + ascii_lowercase(
            name.subrange(end + 1, n),
        ) =~= ascii_lowercase(name.subrange(from, n)));
        assert forall|i: int| 0 <= i < ls.len() implies (#[trigger] ls[i]).len() > 0 by {
            if i > 0 {
                assert(ls[i] == rest[i - 1]);
            }
        }
    }
}

/// What holds of the labels of every ASCII name without empty labels: none
/// is empty, and their texts joined by dots are the name in lower case.
pub proof fn lemma_name_labels(name: Seq<char>)
    requires
        is_ascii_chars(name),
        well_dotted(name),
    ensures
        forall|i: int|
            0 <= i < labels_of(encode_utf8(name)).len() ==> (#[trigger] labels_of(
                encode_utf8(name),
            )[i]).len() > 0,
        dotted(label_texts(labels_of(encode_utf8(name)))) == ascii_lowercase(name),
{
    lemma_ascii_bytes(name);
    if name.len() == 0 {
        assert(labels_of(encode_utf8(name)) =~= Seq::empty());
        assert(label_texts(labels_of(encode_utf8(name))) =~= Seq::empty());
        assert(ascii_lowercase(name) =~= Seq::empty());
    } else {
        lemma_name_text(name, 0);
        assert(name.subrange(0, name.len() as int) =~= name);
    }
}

/// A name that was written is read back in lower case: where a region
/// holds what writing an ASCII name without empty labels at `pos` gives,
/// reading at `pos` gives the name in lower case and ends behind it.
pub proof fn lemma_name_read_back(name: Seq<char>, region: Seq<u8>, pos: int)
    requires
        region.len() == 512,
        0 <= pos,
        is_ascii_chars(name),
        well_dotted(name),
        name_wire(encode_utf8(name), pos) is Ok,
        holds_at(region, pos, name_wire(encode_utf8(name), pos)->Ok_0),
    ensures
        name_at(region, pos) == Ok::<(Seq<char>, int), DnsError>(
            (ascii_lowercase(name), pos + name_wire(encode_utf8(name), pos)->Ok_0.len()),
        ),
{
    let labels = labels_of(encode_utf8(name));
    let bytes = name_wire(encode_utf8(name), pos)->Ok_0;
    lemma_name_labels(name);
    lemma_labels_read_back(region, pos, 0, labels, bytes);
}

/// Encoding a name and decoding it again gives the name in lower case, for
/// every ASCII name without empty labels that can be encoded at `pos`, that
/// is whose labels have at most 63 bytes and which fits into the region.
pub proof fn lemma_name_round_trip(name: Seq<char>, region: Seq<u8>, pos: int)
    requires
        region.len() == 512,
        0 <= pos,
        is_ascii_chars(name),
        well_dotted(name),
        name_wire(encode_utf8(name), pos) is Ok,
    ensures
        name_at(splice(region, pos, name_wire(encode_utf8(name), pos)->Ok_0), pos) == Ok::<
            (Seq<char>, int),
            DnsError,
        >((ascii_lowercase(name), pos + name_wire(encode_utf8(name), pos)->Ok_0.len())),
{
    let bytes = name_wire(encode_utf8(name), pos)->Ok_0;
    lemma_wire_fits(labels_of(encode_utf8(name)), pos);
    lemma_splice_holds(region, pos, bytes);
    lemma_name_read_back(name, splice(region, pos, bytes), pos);
}

/// Labels that could be written at `pos` end before the end of the region.
pub proof fn lemma_wire_fits(labels: Seq<Seq<u8>>, pos: int)
    requires
        labels_wire(labels, pos) is Ok,
    ensures
        pos + labels_wire(labels, pos)->Ok_0.len() < 512,
        labels_wire(labels, pos)->Ok_0.len() > 0,
    decreases labels.len(),
{
    if labels.len() > 0 {
        lemma_wire_fits(labels.drop_first(), pos + 1 + labels[0].len());
    }
}

/// Whether a name in text is one that decoding gives back as it is: ASCII
/// without capital letters and without an empty label.
pub open spec fn canonical_name(name: Seq<char>) -> bool {
    &&& is_ascii_chars(name)
    &&& well_dotted(name)
    &&& forall|i: int| 0 <= i < name.len() ==> !('A' <= #[trigger] name[i] <= 'Z')
}

/// Whether a question is one that decoding gives back as it is.
pub open spec fn canonical_question(q: QuestionView) -> bool {
    canonical_name(q.qname) && query_type_canonical(q.qtype)
}

/// Whether a record is one that decoding gives back as it is: of a type
/// with a name here, with canonical names, and with an address of the
/// length of its type.
pub open spec fn canonical_record(r: RecordView) -> bool {
    match r {
        RecordView::UNKOWN { .. } => false,
        RecordView::A { domain, addr, .. } => canonical_name(domain) && addr.len() == 4,
        RecordView::AAAA { domain, addr, .. } => canonical_name(domain) && addr.len() == 16,
        RecordView::NS { domain, ns, .. } => canonical_name(domain) && canonical_name(ns),
        RecordView::CNAME { domain, cname, .. } => canonical_name(domain) && canonical_name(cname),
        RecordView::MX { domain, exchange, .. } => canonical_name(domain) && canonical_name(
            exchange,
        ),
    }
}

/// Whether a message is one that decoding gives back as it is: the fields
/// of its header fit, the counts are the lengths of the sections, and every
/// question and record is canonical.
pub open spec fn canonical_packet(m: PacketView) -> bool {
    &&& header_fits(m.header)
    &&& counts_match(m)
    &&& forall|i: int| 0 <= i < m.questions.len() ==> canonical_question(#[trigger] m.questions[i])
    &&& forall|i: int| 0 <= i < m.answers.len() ==> canonical_record(#[trigger] m.answers[i])
    &&& forall|i: int|
        0 <= i < m.authorities.len() ==> canonical_record(#[trigger] m.authorities[i])
    &&& forall|i: int|
        0 <= i < m.additionals.len() ==> canonical_record(#[trigger] m.additionals[i])
}

/// A canonical name that was written is read back as it is.
proof fn lemma_canonical_read_back(name: Seq<char>, region: Seq<u8>, pos: int)
    requires
        region.len() == 512,
        0 <= pos,
        canonical_name(name),
        name_wire(encode_utf8(name), pos) is Ok,
        holds_at(region, pos, name_wire(encode_utf8(name), pos)->Ok_0),
    ensures
        name_at(region, pos) == Ok::<(Seq<char>, int), DnsError>(
            (name, pos + name_wire(encode_utf8(name), pos)->Ok_0.len()),
        ),
        pos + name_wire(encode_utf8(name), pos)->Ok_0.len() < 512,
{
    lemma_name_read_back(name, region, pos);
    lemma_wire_fits(labels_of(encode_utf8(name)), pos);
    assert(ascii_lowercase(name) =~= name);
}

/// A question that was written is read back: where a region holds what
/// writing a canonical question at `pos` gives, reading at `pos` gives the
/// question and ends behind it.
pub proof fn lemma_question_read_back(q: QuestionView, region: Seq<u8>, pos: int)
    requires
        region.len() == 512,
        0 <= pos,
        canonical_question(q),
        question_wire(q, pos) is Ok,
        holds_at(region, pos, question_wire(q, pos)->Ok_0),
    ensures
        question_at(region, pos) == Ok::<(QuestionView, int), DnsError>(
            (q, pos + question_wire(q, pos)->Ok_0.len()),
        ),
{
    reveal(question_wire);
    let n = name_wire(encode_utf8(q.qname), pos)->Ok_0;
    let p = pos + n.len();
    let number = query_type_number(q.qtype);
    let tail = be16(number) + be16(1);
    lemma_holds_parts(region, pos, n, tail);
    lemma_holds_parts(region, p, be16(number), be16(1));
    lemma_canonical_read_back(q.qname, region, pos);
    lemma_be16_inverse(number);
}

/// What the ten bytes between a record's name and its data stand for.
proof fn lemma_head_read_back(region: Seq<u8>, p: int, type_number: u16, ttl: u32, data_len: u16)
    requires
        holds_at(region, p, record_head(type_number, ttl, data_len)),
    ensures
        u16_of(region.subrange(p, p + 2)) == type_number,
        u32_of(region.subrange(p + 4, p + 8)) == ttl,
        u16_of(region.subrange(p + 8, p + 10)) == data_len,
{
    let a = be16(type_number) + be16(1) + be32(ttl);
    lemma_holds_parts(region, p, a, be16(data_len));
    lemma_holds_parts(region, p, be16(type_number) + be16(1), be32(ttl));
    lemma_holds_parts(region, p, be16(type_number), be16(1));
    lemma_be16_inverse(type_number);
    lemma_be16_inverse(data_len);
    lemma_be32_inverse(ttl);
}

/// A record with an address that was written is read back.
proof fn lemma_address_read_back(
    domain: Seq<char>,
    type_number: u16,
    ttl: u32,
    addr: Seq<u8>,
    region: Seq<u8>,
    pos: int,
)
    requires
        region.len() == 512,
        0 <= pos,
        canonical_name(domain),
        addr.len() == 4 || addr.len() == 16,
        address_wire(domain, type_number, ttl, addr, pos) is Ok,
        holds_at(region, pos, address_wire(domain, type_number, ttl, addr, pos)->Ok_0),
    ensures
        ({
            let bytes = address_wire(domain, type_number, ttl, addr, pos)->Ok_0;
            let p = pos + name_wire(encode_utf8(domain), pos)->Ok_0.len();
            &&& name_at(region, pos) == Ok::<(Seq<char>, int), DnsError>((domain, p))
            &&& fits(p, 10 + addr.len() as int)
            &&& u16_of(region.subrange(p, p + 2)) == type_number
            &&& u32_of(region.subrange(p + 4, p + 8)) == ttl
            &&& region.subrange(p + 10, p + 10 + addr.len()) == addr
            &&& bytes.len() == p - pos + 10 + addr.len()
        }),
{
    let n = name_wire(encode_utf8(domain), pos)->Ok_0;
    let p = pos + n.len();
    let head = record_head(type_number, ttl, addr.len() as u16);
    lemma_holds_parts(region, pos, n, head + addr);
    lemma_holds_parts(region, p, head, addr);
    lemma_canonical_read_back(domain, region, pos);
    lemma_head_read_back(region, p, type_number, ttl, addr.len() as u16);
}

/// A record whose data is a name that was written is read back.
proof fn lemma_named_read_back(
    domain: Seq<char>,
    type_number: u16,
    ttl: u32,
    preference: Option<u16>,
    target: Seq<char>,
    region: Seq<u8>,
    pos: int,
)
    requires
        region.len() == 512,
        0 <= pos,
        canonical_name(domain),
        canonical_name(target),
        named_wire(domain, type_number, ttl, preference, target, pos) is Ok,
        holds_at(region, pos, named_wire(domain, type_number, ttl, preference, target, pos)->Ok_0),
    ensures
        ({
            let bytes = named_wire(domain, type_number, ttl, preference, target, pos)->Ok_0;
            let p = pos + name_wire(encode_utf8(domain), pos)->Ok_0.len();
            let d = p + 10 + (if preference is Some {
                2int
            } else {
                0int
            });
            &&& name_at(region, pos) == Ok::<(Seq<char>, int), DnsError>((domain, p))
            &&& fits(p, 10)
            &&& u16_of(region.subrange(p, p + 2)) == type_number
            &&& u32_of(region.subrange(p + 4, p + 8)) == ttl
            &&& preference is Some ==> fits(p + 10, 2) && u16_of(region.subrange(p + 10, p + 12))
                == preference->0
            &&& name_at(region, d) == Ok::<(Seq<char>, int), DnsError>(
                (target, pos + bytes.len()),
            )
        }),
{
    let n = name_wire(encode_utf8(domain), pos)->Ok_0;
    let p = pos + n.len();
    let lead = match preference {
        Some(v) => be16(v),
        None => Seq::<u8>::empty(),
    };
    let d = p + 10 + lead.len();
    let t = name_wire(encode_utf8(target), d)->Ok_0;
    let data = then(put(p + 10, lead), name_wire(encode_utf8(target), d));
    let head = record_head(type_number, ttl, wire_len(data) as u16);
    assert(data == Ok::<Seq<u8>, DnsError>(lead + t));
    lemma_holds_parts(region, pos, n, head + (lead + t));
    lemma_holds_parts(region, p, head, lead + t);
    lemma_holds_parts(region, p + 10, lead, t);
    lemma_canonical_read_back(domain, region, pos);
    lemma_head_read_back(region, p, type_number, ttl, wire_len(data) as u16);
    lemma_canonical_read_back(target, region, d);
    if preference is Some {
        lemma_be16_inverse(preference->0);
    }
}

/// A record that was written is read back: where a region holds what
/// writing a canonical record at `pos` gives, reading at `pos` gives the
/// record and ends behind it.
pub proof fn lemma_record_read_back(r: RecordView, region: Seq<u8>, pos: int)
    requires
        region.len() == 512,
        0 <= pos,
        canonical_record(r),
        record_wire(r, pos) is Ok,
        holds_at(region, pos, record_wire(r, pos)->Ok_0),
    ensures
        record_at(region, pos) == Ok::<(RecordView, int), DnsError>(
            (r, pos + record_wire(r, pos)->Ok_0.len()),
        ),
{
    reveal(record_wire);
    match r {
        RecordView::UNKOWN { .. } => {},
        RecordView::A { domain, addr, ttl } => {
            lemma_address_read_back(domain, 1, ttl, addr, region, pos);
        },
        RecordView::AAAA { domain, addr, ttl } => {
            lemma_address_read_back(domain, 28, ttl, addr, region, pos);
        },
        RecordView::NS { domain, ns, ttl } => {
            lemma_named_read_back(domain, 2, ttl, None, ns, region, pos);
        },
        RecordView::CNAME { domain, cname, ttl } => {
            lemma_named_read_back(domain, 5, ttl, None, cname, region, pos);
        },
        RecordView::MX { domain, preference, exchange, ttl } => {
            lemma_named_read_back(domain, 15, ttl, Some(preference), exchange, region, pos);
        },
    }
}

/// Questions that were written are read back.
pub proof fn lemma_questions_read_back(qs: Seq<QuestionView>, region: Seq<u8>, pos: int)
    requires
        region.len() == 512,
        0 <= pos,
        forall|i: int| 0 <= i < qs.len() ==> canonical_question(#[trigger] qs[i]),
        questions_wire(qs, pos) is Ok,
        holds_at(region, pos, questions_wire(qs, pos)->Ok_0),
    ensures
        questions_at(region, pos, qs.len()) == Ok::<(Seq<QuestionView>, int), DnsError>(
            (qs, pos + questions_wire(qs, pos)->Ok_0.len()),
        ),
    decreases qs.len(),
{
    if qs.len() == 0 {
        assert(qs =~= Seq::empty());
    } else {
        let first = question_wire(qs[0], pos)->Ok_0;
        let rest = questions_wire(qs.drop_first(), pos + first.len())->Ok_0;
        lemma_holds_parts(region, pos, first, rest);
        lemma_question_read_back(qs[0], region, pos);
        assert forall|i: int| 0 <= i < qs.drop_first().len() implies canonical_question(
            #[trigger] qs.drop_first()[i],
        ) by {
            assert(qs.drop_first()[i] == qs[i + 1]);
        }
        lemma_questions_read_back(qs.drop_first(), region, pos + first.len());
        assert(seq![qs[0]] + qs.drop_first() =~= qs);
    }
}

/// Records that were written are read back.
pub proof fn lemma_records_read_back(rs: Seq<RecordView>, region: Seq<u8>, pos: int)
    requires
        region.len() == 512,
        0 <= pos,
        forall|i: int| 0 <= i < rs.len() ==> canonical_record(#[trigger] rs[i]),
        records_wire(rs, pos) is Ok,
        holds_at(region, pos, records_wire(rs, pos)->Ok_0),
    ensures
        records_at(region, pos, rs.len()) == Ok::<(Seq<RecordView>, int), DnsError>(
            (rs, pos + records_wire(rs, pos)->Ok_0.len()),
        ),
    decreases rs.len(),
{
    if rs.len() == 0 {
        assert(rs =~= Seq::empty());
    } else {
        let first = record_wire(rs[0], pos)->Ok_0;
        let rest = records_wire(rs.drop_first(), pos + first.len())->Ok_0;
        lemma_holds_parts(region, pos, first, rest);
        lemma_record_read_back(rs[0], region, pos);
        assert forall|i: int| 0 <= i < rs.drop_first().len() implies canonical_record(
            #[trigger] rs.drop_first()[i],
        ) by {
            assert(rs.drop_first()[i] == rs[i + 1]);
        }
        lemma_records_read_back(rs.drop_first(), region, pos + first.len());
        assert(seq![rs[0]] + rs.drop_first() =~= rs);
    }
}

/// A message that was written is read back: where a region holds what
/// writing a canonical message at `pos` gives, reading at `pos` gives the
/// message, field for field, and ends behind it.
pub proof fn lemma_packet_read_back(m: PacketView, region: Seq<u8>, pos: int)
    requires
        region.len() == 512,
        0 <= pos,
        canonical_packet(m),
        packet_wire(m, pos) is Ok,
        holds_at(region, pos, packet_wire(m, pos)->Ok_0),
    ensures
        packet_at(region, pos) == Ok::<(PacketView, int), DnsError>(
            (m, pos + packet_wire(m, pos)->Ok_0.len()),
        ),
{
    let h = header_bytes(m.header);
    let at_questions = pos + 12;
    let q = questions_wire(m.questions, at_questions)->Ok_0;
    let at_answers = at_questions + q.len();
    let an = records_wire(m.answers, at_answers)->Ok_0;
    let at_authorities = at_answers + an.len();
    let ns = records_wire(m.authorities, at_authorities)->Ok_0;
    let at_additionals = at_authorities + ns.len();
    let ar = records_wire(m.additionals, at_additionals)->Ok_0;
    lemma_header_inverse(m.header);
    lemma_holds_parts(region, pos, h, q + (an + (ns + ar)));
    lemma_holds_parts(region, at_questions, q, an + (ns + ar));
    lemma_holds_parts(region, at_answers, an, ns + ar);
    lemma_holds_parts(region, at_authorities, ns, ar);
    lemma_questions_read_back(m.questions, region, at_questions);
    lemma_records_read_back(m.answers, region, at_answers);
    lemma_records_read_back(m.authorities, region, at_authorities);
    lemma_records_read_back(m.additionals, region, at_additionals);
}

/// Encoding a message and decoding it again gives the message, field for
/// field: for every canonical message that can be encoded at `pos` of a
/// region, decoding at `pos` what encoding left there gives the message and
/// ends where encoding ended.
pub proof fn lemma_packet_round_trip(m: PacketView, region: Seq<u8>, pos: int)
    requires
        region.len() == 512,
        0 <= pos,
        canonical_packet(m),
        packet_wire(m, pos) is Ok,
    ensures
        packet_at(splice(region, pos, packet_wire(m, pos)->Ok_0), pos) == Ok::<
            (PacketView, int),
            DnsError,
        >((m, pos + packet_wire(m, pos)->Ok_0.len())),
{
    let bytes = packet_wire(m, pos)->Ok_0;
    lemma_packet_fits(m, pos);
    lemma_splice_holds(region, pos, bytes);
    lemma_packet_read_back(m, splice(region, pos, bytes), pos);
}

/// Questions that could be written at `pos` end before the end of the
/// region, or are none.
proof fn lemma_questions_fit(qs: Seq<QuestionView>, pos: int)
    requires
        questions_wire(qs, pos) is Ok,
        pos < 512,
    ensures
        pos + questions_wire(qs, pos)->Ok_0.len() < 512,
    decreases qs.len(),
{
    reveal(question_wire);
    if qs.len() > 0 {
        let first = question_wire(qs[0], pos)->Ok_0;
        lemma_questions_fit(qs.drop_first(), pos + first.len());
    }
}

/// Records that could be written at `pos` end before the end of the region,
/// or are none.
proof fn lemma_records_fit(rs: Seq<RecordView>, pos: int)
    requires
        records_wire(rs, pos) is Ok,
        pos < 512,
    ensures
        pos + records_wire(rs, pos)->Ok_0.len() < 512,
    decreases rs.len(),
{
    reveal(record_wire);
    if rs.len() > 0 {
        let first = record_wire(rs[0], pos)->Ok_0;
        match rs[0] {
            RecordView::UNKOWN { .. } => {},
            RecordView::A { domain, .. } => {
                lemma_wire_fits(labels_of(encode_utf8(domain)), pos);
            },
            RecordView::AAAA { domain, .. } => {
                lemma_wire_fits(labels_of(encode_utf8(domain)), pos);
            },
            RecordView::NS { domain, ns, .. } => {
                lemma_wire_fits(labels_of(encode_utf8(domain)), pos);
                let p = pos + name_wire(encode_utf8(domain), pos)->Ok_0.len();
                lemma_wire_fits(labels_of(encode_utf8(ns)), p + 10);
            },
            RecordView::CNAME { domain, cname, .. } => {
                lemma_wire_fits(labels_of(encode_utf8(domain)), pos);
                let p = pos + name_wire(encode_utf8(domain), pos)->Ok_0.len();
                lemma_wire_fits(labels_of(encode_utf8(cname)), p + 10);
            },
            RecordView::MX { domain, exchange, .. } => {
                lemma_wire_fits(labels_of(encode_utf8(domain)), pos);
                let p = pos + name_wire(encode_utf8(domain), pos)->Ok_0.len();
                lemma_wire_fits(labels_of(encode_utf8(exchange)), p + 12);
            },
        }
        lemma_records_fit(rs.drop_first(), pos + first.len());
    }
}

/// A message that could be written at `pos` ends before the end of the
/// region.
pub proof fn lemma_packet_fits(m: PacketView, pos: int)
    requires
        packet_wire(m, pos) is Ok,
    ensures
        pos + packet_wire(m, pos)->Ok_0.len() < 512,
{
    let at_questions = pos + 12;
    let q = questions_wire(m.questions, at_questions)->Ok_0;
    let at_answers = at_questions + q.len();
    let an = records_wire(m.answers, at_answers)->Ok_0;
    let at_authorities = at_answers + an.len();
    let ns = records_wire(m.authorities, at_authorities)->Ok_0;
    let at_additionals = at_authorities + ns.len();
    lemma_questions_fit(m.questions, at_questions);
    lemma_records_fit(m.answers, at_answers);
    lemma_records_fit(m.authorities, at_authorities);
    lemma_records_fit(m.additionals, at_additionals);
}

} // verus!
