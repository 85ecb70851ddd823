//! A verified streaming parser for the Web Archive (WARC) file format.
//!
//! A WARC file is a concatenation of records, each made of a version
//! line, a block of header fields, and a content payload whose length the
//! mandatory `Content-Length` header declares. [`WarcReader`] walks the
//! bytes of such an archive and yields one [`WarcRecord`] per call to
//! `next`, until the input ends at a record boundary or the first framing
//! error; after an error it yields nothing more, because the format is
//! not self-synchronizing. Header names are case-insensitive on the wire,
//! so the header mapping is keyed by [`CaseString`], which folds ASCII
//! case once, on construction.
//!
//! The wire grammar is stated by the spec functions of [`record`]; the
//! parser and the reader are verified against it, and the laws of the
//! format — record count conservation, byte-exact content, case-insensitive
//! lookup, sticky poisoning, clean end of stream, and last-write-wins for
//! duplicate header names — are proved in [`record`], [`header`],
//! [`case_string`] and [`reader`].

pub mod ascii;
pub mod case_string;
pub mod error;
pub mod header;
pub mod reader;
pub mod record;

pub use case_string::CaseString;
pub use error::WarcError;
pub use header::HeaderMap;
pub use reader::WarcReader;
pub use record::WarcRecord;
