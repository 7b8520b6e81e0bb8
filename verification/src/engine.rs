//! The extraction engine's entry point: one configuration, one input
//! line in, one output line out.

use vstd::prelude::*;
use vstd::utf8::encode_utf8;

use crate::extract::{extract_bytes, extract_chars, extract_fields, select_ranges};
use crate::position::PosRange;
use crate::record::{join_record, join_spec, split_record, split_spec, RecordError};
use crate::text::utf8_lossy;

verus! {

/// Which part of each input line is selected: ranges of raw bytes, of
/// characters, or of delimited fields. Exactly one is active per run.
pub enum Extract {
    Fields(Vec<PosRange>),
    Bytes(Vec<PosRange>),
    Chars(Vec<PosRange>),
}

/// One run's whole configuration: the field delimiter, the addressing
/// mode with its selection, and the input files to process in order.
pub struct Config {
    pub delimiter: u8,
    pub extract: Extract,
    pub files: Vec<String>,
}

/// What field-mode extraction leaves of one record: the record's fields
/// are selected in range order and re-serialised with the same
/// delimiter; a malformed record is an error.
pub open spec fn fields_line_spec(line: Seq<char>, pos: Seq<PosRange>, d: char) -> Result<
    Seq<char>,
    RecordError,
> {
    match split_spec(line, d) {
        Ok(fields) => Ok(join_spec(select_ranges(fields, pos), d)),
        Err(e) => Err(e),
    }
}

/// Applies the configured extraction to one input line. Character and
/// byte selection never fail; field selection fails exactly on a
/// structurally malformed record.
pub fn extract_line(extract: &Extract, delimiter: u8, line: &str) -> (r: Result<
    String,
    RecordError,
>)
    requires
        delimiter < 128,
    ensures
        extract matches Extract::Chars(pos) ==> (r matches Ok(out) && out@ == select_ranges(
            line@,
            pos@,
        )),
        extract matches Extract::Bytes(pos) ==> (r matches Ok(out) && out@ == utf8_lossy(
            select_ranges(encode_utf8(line@), pos@),
        )),
        extract matches Extract::Fields(pos) ==> (match fields_line_spec(
            line@,
            pos@,
            delimiter as char,
        ) {
            Ok(out_line) => r matches Ok(out) && out@ == out_line,
            Err(e) => r matches Err(e2) && e2 == e,
        }),
{
    match extract {
        Extract::Chars(pos) => Ok(extract_chars(line, pos)),
        Extract::Bytes(pos) => Ok(extract_bytes(line, pos)),
        Extract::Fields(pos) => {
            let d = delimiter as char;
            match split_record(line, d) {
                Ok(fields) => {
                    let selected = extract_fields(&fields, pos);
                    Ok(join_record(&selected, d))
                },
                Err(e) => Err(e),
            }
        },
    }
}

} // verus!
