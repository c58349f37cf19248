//! Line reading in the style of AWK's `getline`. In particular, it lets you know that
//! there was an error, or that the input has come to its end, only after the read has
//! completed.
//!
//! It also handles reading in chunks, with appropriate handling of UTF-8 characters that
//! cross the boundaries of chunks, and of lines that span several chunks.
//!
//! - [`source`] says where bytes come from, and [`stream`] what a reader makes of them;
//!   [`reader`] is that reader, [`stray`] and [`utf8`] are what it needs for characters
//!   that are cut off.
//! - [`split`] says where lines end and how they fall into fields; [`default_splitter`]
//!   reads lines and splits them on the way, and [`chained`] reads several inputs in turn.
//!   Both are [`line_reader`]s.
//! - [`line`](mod@line) gives access to the fields of a line, which are kept in a
//!   [`lazy_vec`], and notes in [`columns`] which were assigned to. Where a line was not
//!   split yet, that is left to a [`regex_cache`].
//! - [`laws`] states what holds of all this taken together.

pub mod chained;
pub mod columns;
pub mod default_splitter;
pub mod error;
pub mod field_set;
pub mod laws;
pub mod lazy_vec;
pub mod line;
pub mod line_reader;
pub mod reader;
pub mod regex_cache;
pub mod source;
pub mod split;
pub mod str_impl;
pub mod stray;
pub mod stream;
pub mod utf8;

pub use crate::chained::ChainedReader;
pub use crate::default_splitter::DefaultSplitter;
pub use crate::line::{DefaultLine, Line};
pub use crate::line_reader::LineReader;
pub use crate::split::{SimpleSplitter, SplitterImpl, WhiteSpace};
