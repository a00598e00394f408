//! Presentation layer of a peer-to-peer wire protocol: a Type-Length-Value
//! ("TLV") stream codec with strict ordering, uniqueness and canonical
//! minimal-length integer encoding, plus a type-tag dispatch codec for a
//! closed set of message kinds.

pub mod bigsize;
pub mod errors;
pub mod inet;
pub mod message;
pub mod tlv;
