//! Codec for the on-disk history file of a line-oriented shell.
//!
//! The file stores one record per logical line as
//! `": "<start_time>":"<duration>";"<escaped command>"\n"`, where the command
//! bytes are escaped twice: byte-level "metafication" hides bytes that are
//! special to the shell's tokenizer, and a backslash before each newline turns
//! it into a continuation marker so that one record may span several physical
//! lines.
//!
//! * [`meta`] — the stateless byte escaping ("metafication") and its inverse.
//! * [`digits`] — decimal rendering and reading of the timestamp fields.
//! * [`history`] — one record: parsing a logical line into a
//!   [`history::HistoryEntry`] and serializing it back, byte for byte.
//! * [`lines`] — splitting a raw byte stream into logical lines.
//! * [`merge`] — the stable, time-ordered merge of records from many files.
//! * [`roundtrip`] — the proof that a written line decodes back to the same
//!   entry.

pub mod digits;
pub mod history;
pub mod lines;
pub mod merge;
pub mod meta;
pub mod roundtrip;
