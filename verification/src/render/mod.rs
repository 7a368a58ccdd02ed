//! Text and numbering facts that the Word rendering relies on.
pub mod common;
pub mod contents;
pub mod cover;
pub mod numbering;
pub mod preamble;
pub mod watermark;
