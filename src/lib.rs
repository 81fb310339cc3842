//! Splits a byte source into text lines, replacing malformed UTF-8 with
//! U+FFFD instead of failing.
//!
//! A line ends at a line-feed byte or at the end of the source. The
//! line-feed is dropped, together with one carriage-return right before
//! it; every other byte is kept. The bytes of each line are decoded as
//! UTF-8 where they are valid, and lossily otherwise.

pub mod lines;
pub mod lossy;
pub mod reader;
pub mod source;

pub use reader::{LinesLossy, LinesLossyExt};
pub use source::{ByteCursor, ByteSource};
