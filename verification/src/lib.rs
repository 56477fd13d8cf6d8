//! Candidate-space enumeration and digest-table engine.
//!
//! A candidate is a fixed-length byte string over an ordered alphabet. Every
//! candidate of a given length is identified by one index, through a
//! positional numeral system whose base is the size of the alphabet and whose
//! least significant digit selects the first byte. On top of that numbering
//! the crate lays out a table of digests, one per index, and searches either
//! such a table or the live candidate space for the digests of a credential
//! set.
//!
//! - [`radix`]: positional numerals, least significant digit first.
//! - [`charset`]: the alphabet and the numbering of the candidates.
//! - [`digest`]: the digest function.
//! - [`header`]: the table header and its byte layout.
//! - [`table`]: the table file, and how it is built chunk by chunk.
//! - [`search`]: scanning a table, and searching the live candidate space.
//! - [`exhaustive`]: what a list of matches holds, and that it holds it once.
//! - [`store`]: the credential set.
//! - [`text`]: showing alphabets and candidates.

pub mod radix;
pub mod digest;
pub mod charset;
pub mod header;
pub mod table;
pub mod search;
pub mod text;
pub mod store;
pub mod exhaustive;
