//! An authoritative DNS responder core that decodes a 128-bit address
//! embedded in the labels of a queried name and answers with address
//! records, alongside a handful of statically configured records.
//!
//! The crate holds the pure decision logic: label tokenization, address
//! decoding, query routing and response assembly. Wire-format handling and
//! transport belong to the surrounding server, which hands this library
//! already-parsed names, opcodes and record types.

pub mod handler;
pub mod name;
pub mod parser;
pub mod record;

pub use name::DnsName;
