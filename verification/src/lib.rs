//! Finds a `MAJOR.MINOR.PATCH` version inside a text, bumps one of its
//! segments and writes the result back in place, leaving every byte outside
//! the version untouched.
//!
//! The version to bump is chosen by its position: among all the version
//! patterns of the text ([`replace`]) or among those of one line
//! ([`replace_by_line`]); [`selection`] offers both behind one type, with the
//! numbers counted from one. Finding the patterns is the work of the `regex`
//! crate ([`pattern`]); reading the match, bumping it ([`version`]) and
//! splicing the new text in ([`replace`](mod@replace)) are verified here.
//!
//! Contracts speak of a text as the sequence of its UTF-8 bytes, since the
//! bounds of a match are byte offsets.

pub mod encoding;
pub mod error;
pub mod pattern;
pub mod replace;
pub mod segment;
pub mod selection;
pub mod text;
pub mod version;

pub use replace::{replace, replace_by_line};
pub use segment::Segment;
pub use version::Version;
