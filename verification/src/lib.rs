//! Corrects SubRip subtitle files: parses them, rewrites their text by the
//! rules of a language, shifts and stretches their times, and writes them
//! back.
//!
//! The parser forgives what real files get wrong: blank lines where none
//! should be, white space at the end of lines, a missing last line. The
//! rewriter replaces words by a list of rules and looks at what stands next
//! to a word before it touches it.

pub mod text;
pub mod number;
pub mod time;
pub mod rules;
pub mod txt_rep;
pub mod srt;
pub mod transform;
pub mod encoding;
pub mod roundtrip;
