//! One WARC record, and the framing of one record out of a byte stream.
//!
//! The wire grammar of a record is
//!
//! ```text
//! record       = version-line CRLF header-block CRLF content CRLF CRLF
//! version-line = "WARC/1." digit { digit }
//! header-block = *( field-name ":" [ SP ] field-value CRLF )
//! content      = exactly Content-Length octets
//! ```
//!
//! with a bare LF tolerated in place of CRLF inside the version line and
//! the header block, while the four bytes after the content must be
//! literally CR LF CR LF. The spec functions here state that grammar over
//! a byte sequence and a cursor; [`WarcRecord::parse`] is the verified
//! parser for it.

use vstd::prelude::*;

use crate::ascii::{
    dec_value, digits_part, fold_seq, is_dec_usize, lemma_dec_value_nonneg, parse_dec_usize, rtrim,
    rtrim_seq, trim, trim_seq,
};
use crate::case_string::CaseString;
use crate::error::WarcError;
use crate::header::HeaderMap;

verus! {

/// The index just past the line that starts at `pos`: past the first LF
/// at or after `pos`, or the end of the input when no LF follows.
pub open spec fn line_end(data: Seq<u8>, pos: int) -> int
    recommends
        0 <= pos <= data.len(),
    decreases data.len() - pos,
{
    if pos >= data.len() {
        pos
    } else if data[pos] == 10 {
        pos + 1
    } else {
        line_end(data, pos + 1)
    }
}

/// A line starting inside the input ends after it starts and no later
/// than the input does.
pub proof fn lemma_line_end_bounds(data: Seq<u8>, pos: int)
    requires
        0 <= pos <= data.len(),
    ensures
        pos <= line_end(data, pos) <= data.len(),
        pos < data.len() ==> pos < line_end(data, pos),
    decreases data.len() - pos,
{
    if pos < data.len() && data[pos] != 10 {
        lemma_line_end_bounds(data, pos + 1);
    }
}

/// The index of the first colon of `s` at or after `i`, or `s.len()` when
/// there is none.
pub open spec fn colon_from(s: Seq<u8>, i: int) -> int
    recommends
        0 <= i <= s.len(),
    decreases s.len() - i,
{
    if i < 0 || i >= s.len() {
        s.len() as int
    } else if s[i] == 58 {
        i
    } else {
        colon_from(s, i + 1)
    }
}

/// The index of the first colon of `s`, or `s.len()` when there is none.
pub open spec fn first_colon(s: Seq<u8>) -> int {
    colon_from(s, 0)
}

/// A line with this raw form ends the header block: an empty line as
/// either CRLF or a bare LF.
pub open spec fn is_blank_line(raw: Seq<u8>) -> bool {
    ||| raw.len() == 1 && raw[0] == 10
    ||| raw.len() == 2 && raw[0] == 13 && raw[1] == 10
}

/// The outcome of framing a header block.
pub enum HeaderBlock {
    /// The block ended with a blank line; `fields` maps each case-folded
    /// name to its last value, and `end` is the index just past the blank
    /// line.
    Fields { fields: Map<Seq<u8>, Seq<u8>>, end: int },
    /// A line without a colon, or an input exhausted before the blank
    /// line.
    Bad,
}

/// Frame the header block that starts at `pos`, with the fields read so
/// far in `acc`.
///
/// Each line up to the blank line must hold a colon; the name is the part
/// left of the first colon with trailing whitespace dropped and ASCII
/// case folded, the value is the part right of it trimmed on both sides.
/// A later line with the same folded name overrides an earlier one.
pub open spec fn parse_header_block(data: Seq<u8>, pos: int, acc: Map<Seq<u8>, Seq<u8>>) -> HeaderBlock
    decreases data.len() - pos,
        when 0 <= pos <= data.len()
        via parse_header_block_decreases
{
    if pos >= data.len() {
        HeaderBlock::Bad
    } else {
        let e = line_end(data, pos);
        let raw = data.subrange(pos, e);
        if is_blank_line(raw) {
            HeaderBlock::Fields { fields: acc, end: e }
        } else {
            let line = rtrim_seq(raw);
            let c = first_colon(line);
            if c == line.len() {
                HeaderBlock::Bad
            } else {
                let name = fold_seq(rtrim_seq(line.take(c)));
                let value = trim_seq(line.subrange(c + 1, line.len() as int));
                parse_header_block(data, e, acc.insert(name, value))
            }
        }
    }
}

#[via_fn]
proof fn parse_header_block_decreases(data: Seq<u8>, pos: int, acc: Map<Seq<u8>, Seq<u8>>) {
    if 0 <= pos < data.len() {
        lemma_line_end_bounds(data, pos);
    }
}

/// The version line must begin with this text: `WARC/1.`
pub open spec fn has_warc_version(s: Seq<u8>) -> bool {
    &&& s.len() >= 7
    &&& s[0] == 87  // W
    &&& s[1] == 65  // A
    &&& s[2] == 82  // R
    &&& s[3] == 67  // C
    &&& s[4] == 47  // /
    &&& s[5] == 49  // 1
    &&& s[6] == 46  // .
}

/// The case-folded name of the mandatory length header: `content-length`.
pub open spec fn content_length_key() -> Seq<u8> {
    seq![99u8, 111u8, 110u8, 116u8, 101u8, 110u8, 116u8, 45u8, 108u8, 101u8, 110u8, 103u8, 116u8, 104u8]
}

/// The outcome of framing one record at a cursor.
pub enum RecordForm {
    /// A complete record; `end` is the index just past its trailing
    /// separator.
    Rec { version: Seq<u8>, header: Map<Seq<u8>, Seq<u8>>, content: Seq<u8>, end: int },
    /// The cursor stands at the end of the input: a clean record
    /// boundary.
    Eof,
    /// The version line does not begin with `WARC/1.`
    BadVersion,
    /// A header line without a colon, or an input exhausted inside the
    /// header block.
    BadHeader,
    /// The header block holds no `Content-Length` field.
    MissingLength,
    /// The `Content-Length` value is not a decimal number that fits the
    /// machine.
    BadLength,
    /// The four bytes after the content are not CR LF CR LF.
    BadSeparator,
    /// The input ends before the declared content and separator do.
    Truncated,
}

/// Frame one record at `pos`: version line, header block, content of
/// exactly the declared length, and the four-byte separator.
pub open spec fn parse_record_at(data: Seq<u8>, pos: int) -> RecordForm
    recommends
        0 <= pos <= data.len(),
{
    if pos >= data.len() {
        RecordForm::Eof
    } else {
        let ve = line_end(data, pos);
        let version = rtrim_seq(data.subrange(pos, ve));
        if !has_warc_version(version) {
            RecordForm::BadVersion
        } else {
            match parse_header_block(data, ve, Map::empty()) {
                HeaderBlock::Bad => RecordForm::BadHeader,
                HeaderBlock::Fields { fields, end } => {
                    if !fields.dom().contains(content_length_key()) {
                        RecordForm::MissingLength
                    } else if !is_dec_usize(fields[content_length_key()]) {
                        RecordForm::BadLength
                    } else {
                        let len = dec_value(digits_part(fields[content_length_key()]));
                        if end + len + 4 > data.len() {
                            RecordForm::Truncated
                        } else if !(data[end + len] == 13 && data[end + len + 1] == 10
                            && data[end + len + 2] == 13 && data[end + len + 3] == 10) {
                            RecordForm::BadSeparator
                        } else {
                            RecordForm::Rec {
                                version,
                                header: fields,
                                content: data.subrange(end, end + len),
                                end: end + len + 4,
                            }
                        }
                    }
                },
            }
        }
    }
}

/// A header block that frames successfully ends past its first line and
/// within the input.
pub proof fn lemma_header_block_extent(data: Seq<u8>, pos: int, acc: Map<Seq<u8>, Seq<u8>>)
    requires
        0 <= pos <= data.len(),
        parse_header_block(data, pos, acc) matches HeaderBlock::Fields { .. },
    ensures
        parse_header_block(data, pos, acc) matches HeaderBlock::Fields { end, .. } && pos < end
            <= data.len(),
    decreases data.len() - pos,
{
    lemma_line_end_bounds(data, pos);
    let e = line_end(data, pos);
    let raw = data.subrange(pos, e);
    if !is_blank_line(raw) {
        lemma_header_block_extent(data, e, parse_header_block_step_map(data, pos, acc));
    }
}

/// The accumulator that one non-blank header line leaves behind.
spec fn parse_header_block_step_map(data: Seq<u8>, pos: int, acc: Map<Seq<u8>, Seq<u8>>) -> Map<
    Seq<u8>,
    Seq<u8>,
> {
    let e = line_end(data, pos);
    let line = rtrim_seq(data.subrange(pos, e));
    let c = first_colon(line);
    acc.insert(
        fold_seq(rtrim_seq(line.take(c))),
        trim_seq(line.subrange(c + 1, line.len() as int)),
    )
}

/// Byte-exact content: the content of a complete record is exactly the
/// run of `Content-Length` bytes that follows the blank line ending the
/// header block, and its length is that declared value; the frame ends
/// four separator bytes later.
pub proof fn lemma_content_bytes(data: Seq<u8>, pos: int)
    requires
        0 <= pos <= data.len(),
        parse_record_at(data, pos) matches RecordForm::Rec { .. },
    ensures
        parse_header_block(data, line_end(data, pos), Map::empty()) matches HeaderBlock::Fields {
            fields,
            end,
        } && (parse_record_at(data, pos) matches RecordForm::Rec {
            version,
            header,
            content,
            end: rend,
        } && {
            let declared = dec_value(digits_part(fields[content_length_key()]));
            &&& header == fields
            &&& content == data.subrange(end, end + declared)
            &&& content.len() == declared
            &&& rend == end + declared + 4
        }),
{
    lemma_line_end_bounds(data, pos);
    let ve = line_end(data, pos);
    lemma_header_block_extent(data, ve, Map::empty());
    if let HeaderBlock::Fields { fields, end } = parse_header_block(data, ve, Map::empty()) {
        lemma_dec_value_nonneg(digits_part(fields[content_length_key()]));
    }
}

/// One entry per case-folded name: every key of a framed header block is
/// itself case-folded, so two names that differ only in ASCII case can
/// never hold two entries.
pub proof fn lemma_header_keys_folded(data: Seq<u8>, pos: int, acc: Map<Seq<u8>, Seq<u8>>)
    requires
        0 <= pos <= data.len(),
        forall|k: Seq<u8>| acc.dom().contains(k) ==> fold_seq(k) == k,
        parse_header_block(data, pos, acc) matches HeaderBlock::Fields { .. },
    ensures
        parse_header_block(data, pos, acc) matches HeaderBlock::Fields { fields, .. } && (forall|
            k: Seq<u8>,
        |
            fields.dom().contains(k) ==> fold_seq(k) == k),
    decreases data.len() - pos,
{
    lemma_line_end_bounds(data, pos);
    let e = line_end(data, pos);
    let raw = data.subrange(pos, e);
    if !is_blank_line(raw) {
        let line = rtrim_seq(raw);
        let c = first_colon(line);
        let name = fold_seq(rtrim_seq(line.take(c)));
        let value = trim_seq(line.subrange(c + 1, line.len() as int));
        crate::ascii::lemma_fold_idempotent(rtrim_seq(line.take(c)));
        assert(forall|k: Seq<u8>|
            acc.insert(name, value).dom().contains(k) ==> fold_seq(k) == k);
        lemma_header_keys_folded(data, e, acc.insert(name, value));
    }
}

/// Last write wins: a non-blank header line stores its field into the
/// mapping before the rest of the block is framed, and a mapping
/// insertion overrides any entry under the same key, so of several lines
/// whose names fold to the same key the last one leaves its value.
pub proof fn lemma_header_line_step(data: Seq<u8>, pos: int, acc: Map<Seq<u8>, Seq<u8>>)
    requires
        0 <= pos < data.len(),
        !is_blank_line(data.subrange(pos, line_end(data, pos))),
        first_colon(rtrim_seq(data.subrange(pos, line_end(data, pos)))) < rtrim_seq(
            data.subrange(pos, line_end(data, pos)),
        ).len(),
    ensures
        ({
            let line = rtrim_seq(data.subrange(pos, line_end(data, pos)));
            let c = first_colon(line);
            parse_header_block(data, pos, acc) == parse_header_block(
                data,
                line_end(data, pos),
                acc.insert(
                    fold_seq(rtrim_seq(line.take(c))),
                    trim_seq(line.subrange(c + 1, line.len() as int)),
                ),
            )
        }),
{
    lemma_line_end_bounds(data, pos);
}

/// Which error a framing outcome surfaces as: each malformed outcome
/// carries its fixed message, truncation is an I/O failure, and a clean
/// boundary is the end-of-stream signal. A complete record is no error.
pub open spec fn error_for(form: RecordForm, e: WarcError) -> bool {
    match form {
        RecordForm::Rec { .. } => false,
        RecordForm::Eof => e is EOF,
        RecordForm::BadVersion => e matches WarcError::Malformed(m) && m@
            == "Unknown WARC version"@,
        RecordForm::BadHeader => e matches WarcError::Malformed(m) && m@
            == "Invalid header field"@,
        RecordForm::MissingLength => e matches WarcError::Malformed(m) && m@
            == "Content-Length is missing"@,
        RecordForm::BadLength => e matches WarcError::Malformed(m) && m@
            == "Content-Length is not a number"@,
        RecordForm::BadSeparator => e matches WarcError::Malformed(m) && m@
            == "No double linefeed after record content"@,
        RecordForm::Truncated => e is IO,
    }
}

/// Find the end of the line starting at `pos`: the index just past the
/// first LF at or after `pos`, or the end of the input.
fn find_line_end(data: &[u8], pos: usize) -> (e: usize)
    requires
        pos <= data@.len(),
    ensures
        e == line_end(data@, pos as int),
        pos <= e <= data@.len(),
        pos < data@.len() ==> pos < e,
{
    let n = data.len();
    let mut i = pos;
    loop
        invariant
            pos <= i <= n == data@.len(),
            line_end(data@, pos as int) == line_end(data@, i as int),
        decreases n - i,
    {
        if i == n {
            return n;
        }
        if data[i] == 10 {
            return i + 1;
        }
        i = i + 1;
    }
}

/// Find the first colon of `s`, or `s.len()` when there is none.
fn find_colon(s: &[u8]) -> (c: usize)
    ensures
        c == first_colon(s@),
        c <= s@.len(),
        c < s@.len() ==> s@[c as int] == 58,
{
    let n = s.len();
    let mut i: usize = 0;
    loop
        invariant
            i <= n == s@.len(),
            colon_from(s@, 0) == colon_from(s@, i as int),
        decreases n - i,
    {
        if i == n {
            return n;
        }
        if s[i] == 58 {
            return i;
        }
        i = i + 1;
    }
}

/// One WARC record: the version line, the header fields, and the raw
/// content block.
#[derive(Debug)]
pub struct WarcRecord {
    /// The verbatim version line with trailing whitespace dropped,
    /// e.g. `WARC/1.1`.
    pub version: Vec<u8>,
    /// The header fields, keyed by case-folded name.
    pub header: HeaderMap,
    /// The content block: exactly `Content-Length` bytes.
    pub content: Vec<u8>,
}

impl WarcRecord {
    /// Frame one record out of `data` at the cursor `*pos`.
    ///
    /// On success the cursor is moved just past the record's trailing
    /// separator; on failure its position is unspecified and the caller
    /// must not go on reading.
    pub fn parse(data: &[u8], pos: &mut usize) -> (r: Result<WarcRecord, WarcError>)
        requires
            *old(pos) <= data@.len(),
        ensures
            *final(pos) <= data@.len(),
            (match r {
                Ok(rec) => parse_record_at(data@, *old(pos) as int) matches RecordForm::Rec {
                    version,
                    header,
                    content,
                    end,
                } && rec.version@ == version && rec.header@ == header && rec.content@ == content
                    && *final(pos) == end,
                Err(e) => error_for(parse_record_at(data@, *old(pos) as int), e),
            }),
    {
        let ghost p0 = *pos as int;
        let n = data.len();

        // (a) Version line. Nothing left at the cursor is a clean EOF.
        if *pos == n {
            return Err(WarcError::EOF);
        }
        let ve = find_line_end(data, *pos);
        let mut version = vstd::slice::slice_to_vec(vstd::slice::slice_subrange(data, *pos, ve));
        rtrim(&mut version);
        let v_ok = version.len() >= 7 && version[0] == 87 && version[1] == 65 && version[2] == 82
            && version[3] == 67 && version[4] == 47 && version[5] == 49 && version[6] == 46;
        proof {
            assert(v_ok == has_warc_version(version@));
        }
        if !v_ok {
            return Err(WarcError::Malformed("Unknown WARC version".to_owned()));
        }

        // (b) Header block.
        let mut header = HeaderMap::new();
        let mut cur = ve;
        let mut bad_block = false;
        let mut hend: usize = 0;
        loop
            invariant_except_break
                !bad_block,
            invariant
                cur <= n == data@.len(),
                ve <= data@.len(),
                parse_header_block(data@, ve as int, Map::empty()) == parse_header_block(
                    data@,
                    cur as int,
                    header@,
                ),
            ensures
                bad_block ==> parse_header_block(data@, ve as int, Map::empty())
                    == HeaderBlock::Bad,
                !bad_block ==> hend <= data@.len() && parse_header_block(
                    data@,
                    ve as int,
                    Map::empty(),
                ) == (HeaderBlock::Fields { fields: header@, end: hend as int }),
            decreases n - cur,
        {
            if cur == n {
                bad_block = true;
                break;
            }
            let e = find_line_end(data, cur);
            let raw = vstd::slice::slice_subrange(data, cur, e);
            let rl = raw.len();
            let blank = (rl == 1 && raw[0] == 10) || (rl == 2 && raw[0] == 13 && raw[1] == 10);
            proof {
                assert(blank == is_blank_line(raw@));
            }
            if blank {
                hend = e;
                break;
            }
            let mut line = vstd::slice::slice_to_vec(raw);
            rtrim(&mut line);
            let c = find_colon(line.as_slice());
            if c == line.len() {
                bad_block = true;
                break;
            }
            let mut name = vstd::slice::slice_to_vec(
                vstd::slice::slice_subrange(line.as_slice(), 0, c),
            );
            rtrim(&mut name);
            let key = CaseString::from(name);
            let value = trim(vstd::slice::slice_subrange(line.as_slice(), c + 1, line.len()));
            proof {
                assert(line@.subrange(0, c as int) =~= line@.take(c as int));
                assert(parse_header_block(data@, cur as int, header@) == parse_header_block(
                    data@,
                    e as int,
                    header@.insert(key@, value@),
                ));
            }
            header.insert(key, value);
            cur = e;
        }
        if bad_block {
            return Err(WarcError::Malformed("Invalid header field".to_owned()));
        }

        // (c) Content-Length resolution; the lookup key is the byte text
        // `content-length`, already in folded form.
        let cl_text: Vec<u8> = vec![
            99u8, 111u8, 110u8, 116u8, 101u8, 110u8, 116u8, 45u8, 108u8, 101u8, 110u8, 103u8,
            116u8, 104u8,
        ];
        proof {
            assert(fold_seq(cl_text@) =~= content_length_key());
        }
        let cl_key = CaseString::from(cl_text);
        let parsed_len = match header.get(&cl_key) {
            None => {
                return Err(WarcError::Malformed("Content-Length is missing".to_owned()));
            },
            Some(v) => parse_dec_usize(v.as_slice()),
        };
        let content_len = match parsed_len {
            None => {
                return Err(WarcError::Malformed("Content-Length is not a number".to_owned()));
            },
            Some(len) => len,
        };

        // (d) Content block of exactly the declared length.
        if n - hend < content_len {
            return Err(WarcError::IO);
        }
        let cend = hend + content_len;

        // (e) The trailing separator: literally CR LF CR LF.
        if n - cend < 4 {
            return Err(WarcError::IO);
        }
        let sep_ok = data[cend] == 13 && data[cend + 1] == 10 && data[cend + 2] == 13
            && data[cend + 3] == 10;
        if !sep_ok {
            return Err(WarcError::Malformed("No double linefeed after record content".to_owned()));
        }
        let content = vstd::slice::slice_to_vec(vstd::slice::slice_subrange(data, hend, cend));
        *pos = cend + 4;
        Ok(WarcRecord { version, header, content })
    }
}

} // verus!
