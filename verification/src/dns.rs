//! The DNS message and its parts, each with its wire form.

pub mod header;
pub mod question;
pub mod record;
pub mod packet;

pub use header::{DnsHeader, ResultCode};
pub use question::{DnsQuestion, QueryType};
pub use record::DnsRecord;
pub use packet::DnsPacket;
