//! Readers for streams of length-prefixed binary records.
//!
//! Each record on the wire is one length byte `L` followed by `L` payload
//! bytes. Three parsers share that framing: one that allocates a fresh
//! buffer for every record, one that reuses a single reference-counted
//! buffer whenever no earlier record view is still alive, and one that
//! lends each record out of its buffer for the duration of a borrow.
pub mod framing;
pub mod source;
pub mod allocating_parser;
pub mod buffered_parser;
pub mod buffered_parser_ref;
