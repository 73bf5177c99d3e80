//! A content-addressed object store in the Git object model: object codec,
//! loose-object encoding, packfile decoding with deltas, pkt-line framing for
//! the smart-HTTP fetch, and canonical tree and commit payloads.

pub mod buf;
pub mod commit;
pub mod delta;
pub mod fetch;
pub mod digest;
pub mod object;
pub mod pack;
pub mod pkt;
pub mod store;
pub mod tree;
