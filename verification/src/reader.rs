//! The record iterator: a stateful reader over a byte stream.
//!
//! [`WarcReader`] owns the bytes of an archive and a cursor, frames one
//! record per call to [`WarcReader::next`], and keeps a single `healthy`
//! bit. After the first framing error the bit goes false and stays false:
//! WARC framing is length-prefixed but not self-synchronizing, so after an
//! error the cursor may stand in the middle of binary content and scanning
//! on would risk false record boundaries.

use vstd::prelude::*;

use crate::ascii::{digits_part, is_dec_usize, lemma_dec_value_nonneg};
use crate::error::WarcError;
use crate::record::{
    content_length_key, error_for, lemma_header_block_extent, lemma_line_end_bounds, line_end,
    parse_header_block, parse_record_at, HeaderBlock, RecordForm, WarcRecord,
};

verus! {

/// The model of one yielded record.
pub struct RecordModel {
    /// The version line, trailing whitespace dropped.
    pub version: Seq<u8>,
    /// The header fields, keyed by case-folded name.
    pub header: Map<Seq<u8>, Seq<u8>>,
    /// The content block.
    pub content: Seq<u8>,
}

/// The model of everything a reader yields from one position on: the
/// records of each complete frame in byte-stream order, then at most one
/// error outcome that ends the stream.
pub struct StreamModel {
    /// The records of the complete frames, in order.
    pub records: Seq<RecordModel>,
    /// The outcome that ends the stream: `None` for a clean end at a
    /// record boundary, otherwise the first framing failure.
    pub error: Option<RecordForm>,
}

/// A complete record ends after the position it starts at and within the
/// input.
pub proof fn lemma_record_extent(data: Seq<u8>, pos: int)
    requires
        0 <= pos <= data.len(),
        parse_record_at(data, pos) matches RecordForm::Rec { .. },
    ensures
        parse_record_at(data, pos) matches RecordForm::Rec { end, .. } && pos < end <= data.len(),
{
    lemma_line_end_bounds(data, pos);
    let ve = line_end(data, pos);
    lemma_header_block_extent(data, ve, Map::empty());
    if let HeaderBlock::Fields { fields, end } = parse_header_block(data, ve, Map::empty()) {
        let v = fields[content_length_key()];
        assert(is_dec_usize(v));
        lemma_dec_value_nonneg(digits_part(v));
    }
}

/// The items yielded from `pos` on: records for each complete frame, then
/// either a clean end of stream or one error outcome.
pub open spec fn stream_from(data: Seq<u8>, pos: int) -> StreamModel
    decreases data.len() - pos,
        when 0 <= pos <= data.len()
        via stream_from_decreases
{
    match parse_record_at(data, pos) {
        RecordForm::Rec { version, header, content, end } => {
            let rest = stream_from(data, end);
            StreamModel {
                records: seq![RecordModel { version, header, content }] + rest.records,
                error: rest.error,
            }
        },
        RecordForm::Eof => StreamModel { records: Seq::empty(), error: None },
        form => StreamModel { records: Seq::empty(), error: Some(form) },
    }
}

#[via_fn]
proof fn stream_from_decreases(data: Seq<u8>, pos: int) {
    if parse_record_at(data, pos) matches RecordForm::Rec { .. } {
        lemma_record_extent(data, pos);
    }
}

/// An input that is exactly `n` complete records laid end to end, with
/// nothing after the last one.
pub open spec fn valid_records_from(data: Seq<u8>, pos: int, n: nat) -> bool
    decreases n,
{
    if n == 0 {
        pos == data.len()
    } else {
        parse_record_at(data, pos) matches RecordForm::Rec { end, .. } && valid_records_from(
            data,
            end,
            (n - 1) as nat,
        )
    }
}

/// Record count conservation: an input of exactly `n` complete records
/// concatenated with no trailing bytes yields exactly `n` records and a
/// clean end of stream, with no error.
pub proof fn lemma_record_count_conservation(data: Seq<u8>, pos: int, n: nat)
    requires
        0 <= pos <= data.len(),
        valid_records_from(data, pos, n),
    ensures
        stream_from(data, pos).records.len() == n,
        stream_from(data, pos).error is None,
    decreases n,
{
    if n == 0 {
    } else {
        lemma_record_extent(data, pos);
        if let RecordForm::Rec { end, .. } = parse_record_at(data, pos) {
            lemma_record_count_conservation(data, end, (n - 1) as nat);
        }
    }
}

/// Clean EOF is not an error: an input that stops exactly at a record
/// boundary ends the stream with no further record and no error.
pub proof fn lemma_clean_eof(data: Seq<u8>, pos: int)
    requires
        0 <= pos == data.len(),
    ensures
        parse_record_at(data, pos) is Eof,
        stream_from(data, pos).records.len() == 0,
        stream_from(data, pos).error is None,
{
}

/// A lazy reader of WARC records out of a byte stream.
///
/// The reader owns the archive bytes, frames one record per call to
/// [`WarcReader::next`], and stops for good at the first framing error.
pub struct WarcReader {
    data: Vec<u8>,
    pos: usize,
    valid_state: bool,
}

impl WarcReader {
    /// The bytes the reader walks.
    pub closed spec fn bytes(&self) -> Seq<u8> {
        self.data@
    }

    /// The cursor: the index of the next record boundary, when the reader
    /// is healthy.
    pub closed spec fn cursor(&self) -> int {
        self.pos as int
    }

    /// Whether the reader is still willing to frame records. Starts true;
    /// goes false at the first framing error and then stays false.
    pub closed spec fn healthy(&self) -> bool {
        self.valid_state
    }

    /// The cursor never leaves the input.
    #[verifier::type_invariant]
    closed spec fn wf(&self) -> bool {
        self.pos <= self.data@.len()
    }

    /// Wrap a byte stream; the cursor starts at its first byte.
    pub fn new(data: Vec<u8>) -> (r: WarcReader)
        ensures
            r.bytes() == data@,
            r.cursor() == 0,
            r.healthy(),
    {
        WarcReader { data, pos: 0, valid_state: true }
    }

    /// Advance: frame one record at the cursor.
    ///
    /// Yields `Some(Ok(record))` for a complete frame, `Some(Err(e))`
    /// exactly once for the first framing failure, and `None` once the
    /// stream has ended — cleanly or after an error. Once unhealthy, the
    /// reader yields `None` forever: poisoning is sticky.
    pub fn next(&mut self) -> (r: Option<Result<WarcRecord, WarcError>>)
        ensures
            final(self).bytes() == old(self).bytes(),
            !old(self).healthy() ==> r is None && !final(self).healthy() && final(self).cursor()
                == old(self).cursor(),
            old(self).healthy() ==> (match parse_record_at(old(self).bytes(), old(self).cursor()) {
                RecordForm::Rec { version, header, content, end } => {
                    &&& r matches Some(item)
                    &&& item matches Ok(rec)
                    &&& rec.version@ == version
                    &&& rec.header@ == header
                    &&& rec.content@ == content
                    &&& final(self).cursor() == end
                    &&& final(self).healthy()
                },
                RecordForm::Eof => r is None && final(self).healthy() && final(self).cursor()
                    == old(self).cursor(),
                form => {
                    &&& r matches Some(item)
                    &&& item matches Err(e)
                    &&& error_for(form, e)
                    &&& !final(self).healthy()
                },
            }),
    {
        proof {
            use_type_invariant(&*self);
        }
        if !self.valid_state {
            return None;
        }
        let mut p = self.pos;
        let parsed = WarcRecord::parse(self.data.as_slice(), &mut p);
        match parsed {
            Ok(rec) => {
                self.pos = p;
                Some(Ok(rec))
            },
            Err(e) => {
                match e {
                    WarcError::EOF => None,
                    other => {
                        self.valid_state = false;
                        Some(Err(other))
                    },
                }
            },
        }
    }
}

} // verus!
