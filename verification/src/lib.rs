//! Comment scrubbing for Rust source text.
//!
//! The core is a resumable lexical scanner that removes line and block
//! comments from a text, line by line, and leaves everything else as it is,
//! comment markers inside string, character and raw-string literals
//! included. Beside it stands a detector for the header of a file: a banner
//! of comments at its start that is to be kept.
//!
//! - [`scrub`]: the scanner, `process_line_streaming`, and its model.
//! - [`file`]: scrubbing a whole text, with or without a header.
//! - [`header`]: finding the header of a file.
//! - [`prompt`]: reading the answer to a yes-or-no question.
//! - [`text`]: characters, white space, trimming, numbers.
//! - [`laws`], [`clean`], [`rescan`], [`idempotence`], [`file_laws`]: what
//!   is proved of the scanner on every input.

pub mod clean;
pub mod file;
pub mod file_laws;
pub mod header;
pub mod idempotence;
pub mod laws;
pub mod prompt;
pub mod rescan;
pub mod scrub;
pub mod text;
