//! The error taxonomy of record framing.

use vstd::prelude::*;

verus! {

/// An error in framing one WARC record.
///
/// The three kinds are disjoint: a grammar violation, an exhausted byte
/// source, and clean end of stream.
#[derive(Debug)]
pub enum WarcError {
    /// The byte stream violates the WARC grammar; the message says how.
    /// The messages are a small fixed set and part of the interface.
    Malformed(String),
    /// The byte source ran out inside a record: a declared content block,
    /// or the trailing separator, was cut short.
    IO,
    /// The byte source was exhausted at a record boundary, before any byte
    /// of a new record. The reader turns this into the end of the
    /// sequence; it is never the last yielded item.
    EOF,
}

} // verus!
