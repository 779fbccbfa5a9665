//! The ways in which encoding, decoding and resolution fail.

use vstd::prelude::*;

verus! {

/// Why an operation of this library did not succeed.
#[derive(Clone, Copy, Debug, PartialEq, Eq, Structural)]
pub enum DnsError {
    /// A read or a write would leave the 512-byte region.
    OutOfBounds,
    /// A name followed more compression pointers than are allowed.
    MalformedCompression,
    /// A label of more than 63 bytes was to be encoded.
    LabelTooLong,
    /// A record that has no wire form was to be encoded.
    EncodingUnsupported,
    /// An inbound query carried no question.
    EmptyQuestionSet,
    /// A query could not be sent, or its reply not received.
    TransportFailure,
}

impl DnsError {
    /// A short text for logs and for messages to the operator.
    pub fn message(&self) -> (text: &'static str)
        ensures
            text@ == (match *self {
                DnsError::OutOfBounds => "end of buffer"@,
                DnsError::MalformedCompression => "too many jumps (5)"@,
                DnsError::LabelTooLong => "label too long (max 63 bytes)"@,
                DnsError::EncodingUnsupported => "record has no wire form"@,
                DnsError::EmptyQuestionSet => "received packet with no questions"@,
                DnsError::TransportFailure => "transport failure"@,
            }),
    {
        match self {
            DnsError::OutOfBounds => "end of buffer",
            DnsError::MalformedCompression => "too many jumps (5)",
            DnsError::LabelTooLong => "label too long (max 63 bytes)",
            DnsError::EncodingUnsupported => "record has no wire form",
            DnsError::EmptyQuestionSet => "received packet with no questions",
            DnsError::TransportFailure => "transport failure",
        }
    }
}

} // verus!
