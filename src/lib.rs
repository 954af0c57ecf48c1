//! Incremental extraction of the rows of a streamed JSON document.
//!
//! The body of a query response arrives as byte chunks cut at arbitrary
//! places. [`scanner`] follows nesting depth and string state one byte at a
//! time, [`json_row_parser`] buffers bytes and cuts out each complete element
//! of the array of interest (and the trailing document after it), and
//! [`json_row_stream`] decides, on each demand, whether to hand out a row,
//! ask the upstream source for bytes, or end the sequence. [`cli`] holds
//! the shell commands that share the session state.
pub mod scanner;
pub mod json_row_parser;
pub mod json_row_stream;
pub mod cli;
