//! A small recursive DNS resolver core: the wire buffer, the message codec
//! and the delegation-following engine, with their contracts.

pub mod error;
pub mod wire;
pub mod name;
pub mod text;
pub mod packetbuff;
pub mod dns;
pub mod resolve;
pub mod laws;
