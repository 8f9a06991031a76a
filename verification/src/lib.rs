//! A byte-pair-encoding compressor.
//!
//! The encoder repeatedly replaces the most frequent adjacent symbol pair in a
//! sequence with a freshly minted rule code, producing a rule table and a
//! reduced sequence; the decoder expands the codes back, restoring the input
//! byte for byte.  A fixed-layout binary format persists the table and the
//! reduced sequence, and the table can be rendered as a directed graph in
//! dot syntax.

pub mod codec;
pub mod decoder;
pub mod dot;
pub mod encoder;
pub mod table;

pub use table::BpeElem;
