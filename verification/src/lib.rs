//! A verified core for a cut-style line selection utility.
//!
//! The library parses a comma-separated selection specification into a list
//! of half-open index ranges, and applies such a list to a line of input in
//! one of three addressing modes: raw bytes, Unicode characters, or
//! delimited (quote-aware) fields.

pub mod count;
pub mod engine;
pub mod extract;
pub mod numbers;
pub mod parser;
pub mod position;
pub mod record;
pub mod render;
pub mod text;

pub use count::{count, FileInfo};
pub use engine::{extract_line, Config, Extract};
pub use extract::{extract_bytes, extract_chars, extract_fields};
pub use parser::{parse_delim, parse_index, parse_pos, SpecError};
pub use position::PosRange;
pub use record::{join_record, split_record, RecordError};
pub use render::{cat_line, count_line, counted_line, same_trimmed};
