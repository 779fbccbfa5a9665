//! Domain names on the wire: labels with a length byte in front, a zero byte
//! at the end, and, when reading, pointers to an earlier place in the region.

use vstd::prelude::*;
use vstd::utf8::{decode_utf8, is_ascii_chars, valid_utf8};
use crate::error::DnsError;

verus! {

/// The byte that parts the labels of a name in text.
pub const DOT: u8 = 46;

/// The longest label that can be written.
pub const MAX_LABEL: usize = 63;

/// How many pointers a name may follow.
pub const MAX_JUMPS: usize = 5;

/// What `String::from_utf8_lossy` makes of bytes that are not valid UTF-8.
pub uninterp spec fn lossy_decoding(bytes: Seq<u8>) -> Seq<char>;

/// What `str::to_lowercase` makes of text that holds a character outside
/// ASCII.
pub uninterp spec fn unicode_lowercase(text: Seq<char>) -> Seq<char>;

/// ASCII text with its capital letters made small.
pub open spec fn ascii_lowercase(text: Seq<char>) -> Seq<char> {
    Seq::new(
        text.len(),
        |i: int|
            if 'A' <= text[i] <= 'Z' {
                ((text[i] as u8) + 32) as char
            } else {
                text[i]
            },
    )
}

/// Bytes as text: decoded where they are UTF-8, with replacement characters
/// where they are not.
pub open spec fn lossy_text(bytes: Seq<u8>) -> Seq<char> {
    if valid_utf8(bytes) {
        decode_utf8(bytes)
    } else {
        lossy_decoding(bytes)
    }
}

/// Text in lower case.
pub open spec fn lowercase_text(text: Seq<char>) -> Seq<char> {
    if is_ascii_chars(text) {
        ascii_lowercase(text)
    } else {
        unicode_lowercase(text)
    }
}

/// The text that a label's bytes stand for in a decoded name.
pub open spec fn label_text(label: Seq<u8>) -> Seq<char> {
    lowercase_text(lossy_text(label))
}

/// The texts of several labels.
pub open spec fn label_texts(labels: Seq<Seq<u8>>) -> Seq<Seq<char>> {
    Seq::new(labels.len(), |i: int| label_text(labels[i]))
}

/// Calls `String::from_utf8_lossy`. Trusted: bytes that are valid UTF-8 come
/// back as the text they encode; of other bytes only that the result depends
/// on them alone.
#[verifier::external_body]
pub(crate) fn decode_lossy(bytes: &[u8]) -> (text: String)
    ensures
        text@ == (if valid_utf8(bytes@) {
            decode_utf8(bytes@)
        } else {
            lossy_decoding(bytes@)
        }),
{
    String::from_utf8_lossy(bytes).into_owned()
}

/// Calls `str::to_lowercase`. Trusted: in text made of ASCII characters the
/// letters `A` to `Z` become `a` to `z` and nothing else changes; of other
/// text only that the result depends on it alone.
#[verifier::external_body]
pub(crate) fn to_lowercase(text: &str) -> (lower: String)
    ensures
        lower@ == (if is_ascii_chars(text@) {
            ascii_lowercase(text@)
        } else {
            unicode_lowercase(text@)
        }),
{
    text.to_lowercase()
}

/// Texts joined by dots.
pub open spec fn dotted(texts: Seq<Seq<char>>) -> Seq<char>
    decreases texts.len(),
{
    if texts.len() == 0 {
        Seq::empty()
    } else if texts.len() == 1 {
        texts[0]
    } else {
        dotted(texts.drop_last()) + seq!['.'] + texts.last()
    }
}

/// The labels of the name that starts at `pos`, and where the cursor stands
/// after it: behind the first pointer if there is one, else behind the zero
/// byte. `jumps` is the number of pointers followed so far.
///
/// A byte of 192 or more, that is one with its two top bits set, starts a
/// pointer: its low six bits and the next byte give the place to go on at.
/// Any other byte is the length of the label behind it; zero ends the name.
pub open spec fn labels_at(region: Seq<u8>, pos: int, jumps: int) -> Result<
    (Seq<Seq<u8>>, int),
    DnsError,
>
    decreases 6 - jumps, 512 - pos,
{
    if jumps > 5 {
        Err(DnsError::MalformedCompression)
    } else if pos < 0 || pos >= 512 {
        Err(DnsError::OutOfBounds)
    } else {
        let len = region[pos] as int;
        if len >= 192 {
            if pos + 1 >= 512 {
                Err(DnsError::OutOfBounds)
            } else {
                match labels_at(region, (len - 192) * 256 + region[pos + 1], jumps + 1) {
                    Ok((labels, _)) => Ok((labels, pos + 2)),
                    Err(e) => Err(e),
                }
            }
        } else if len == 0 {
            Ok((Seq::empty(), pos + 1))
        } else if pos + 1 + len >= 512 {
            Err(DnsError::OutOfBounds)
        } else {
            match labels_at(region, pos + 1 + len, jumps) {
                Ok((labels, end)) => Ok(
                    (seq![region.subrange(pos + 1, pos + 1 + len)] + labels, end),
                ),
                Err(e) => Err(e),
            }
        }
    }
}

/// The name that starts at `pos`, in lower case and with dots between its
/// labels, and where the cursor stands after it.
pub open spec fn name_at(region: Seq<u8>, pos: int) -> Result<(Seq<char>, int), DnsError> {
    match labels_at(region, pos, 0) {
        Ok((labels, end)) => Ok((dotted(label_texts(labels)), end)),
        Err(e) => Err(e),
    }
}

/// The place of the first dot at or after `from`, or the length where there
/// is none.
pub open spec fn dot_from(name: Seq<u8>, from: int) -> int
    decreases name.len() - from,
{
    if from >= name.len() {
        name.len() as int
    } else if name[from] == DOT {
        from
    } else {
        dot_from(name, from + 1)
    }
}

/// Where `dot_from` points: at or after `from`, at a dot or at the end, with
/// no dot before it.
pub proof fn lemma_dot_from_bounds(name: Seq<u8>, from: int)
    requires
        0 <= from <= name.len(),
    ensures
        from <= dot_from(name, from) <= name.len(),
        dot_from(name, from) < name.len() ==> name[dot_from(name, from)] == DOT,
        forall|j: int| from <= j < dot_from(name, from) ==> name[j] != DOT,
    decreases name.len() - from,
{
    if from < name.len() && name[from] != DOT {
        lemma_dot_from_bounds(name, from + 1);
    }
}

/// The segment from `from` on ends at `end` if there is no dot before `end`
/// and `end` is a dot or the end of the name.
pub proof fn lemma_dot_from_is(name: Seq<u8>, from: int, end: int)
    requires
        0 <= from <= end <= name.len(),
        forall|j: int| from <= j < end ==> name[j] != DOT,
        end < name.len() ==> name[end] == DOT,
    ensures
        dot_from(name, from) == end,
    decreases end - from,
{
    if from < end {
        lemma_dot_from_is(name, from + 1, end);
    }
}

/// The labels of a name in text, from `from` on: the segments between the
/// dots, the empty ones left out.
pub open spec fn labels_from(name: Seq<u8>, from: int) -> Seq<Seq<u8>>
    decreases name.len() - from,
{
    if from < 0 || from > name.len() {
        Seq::empty()
    } else {
        let end = dot_from(name, from);
        let rest = if end < name.len() {
            proof {
                lemma_dot_from_bounds(name, from);
            }
            labels_from(name, end + 1)
        } else {
            Seq::empty()
        };
        if end == from {
            rest
        } else {
            seq![name.subrange(from, end)] + rest
        }
    }
}

/// The labels of a name in text.
pub open spec fn labels_of(name: Seq<u8>) -> Seq<Seq<u8>> {
    labels_from(name, 0)
}

/// The outcome of writing labels at `pos`, one after the other and a zero
/// byte behind them: for each label its length and its bytes. The first
/// label of more than 63 bytes, or the first byte that does not fit, ends it.
pub open spec fn labels_wire(labels: Seq<Seq<u8>>, pos: int) -> Result<Seq<u8>, DnsError>
    decreases labels.len(),
{
    if labels.len() == 0 {
        if pos + 1 >= 512 {
            Err(DnsError::OutOfBounds)
        } else {
            Ok(seq![0u8])
        }
    } else if labels[0].len() > 63 {
        Err(DnsError::LabelTooLong)
    } else if pos + 1 + labels[0].len() >= 512 {
        Err(DnsError::OutOfBounds)
    } else {
        match labels_wire(labels.drop_first(), pos + 1 + labels[0].len()) {
            Ok(rest) => Ok(seq![labels[0].len() as u8] + labels[0] + rest),
            Err(e) => Err(e),
        }
    }
}

/// The outcome of writing a name, given as the bytes of its text, at `pos`.
pub open spec fn name_wire(name: Seq<u8>, pos: int) -> Result<Seq<u8>, DnsError> {
    labels_wire(labels_of(name), pos)
}

} // verus!
