//! Parser for the text lines of a scheduler trace history report.
//!
//! One line describes one scheduling event: a timestamp, a CPU index, a task
//! name with its thread (and optionally process) id, and three durations in
//! milliseconds. The grammar is stated over the bytes of a line in `fields`
//! and `line`; `layout` proves which lines the grammar accepts; `filter` selects
//! records; `text` cuts the fields out of the line.

pub mod bytes;
pub mod fields;
pub mod filter;
pub mod layout;
pub mod line;
pub mod text;

pub use crate::bytes::ByteClass;
pub use crate::fields::{
    parse_cpu, parse_float_value, parse_task_name, parse_tid_pid, ParseError,
};
pub use crate::filter::Filter;
pub use crate::line::{parse_line, ParsedData, Record};
