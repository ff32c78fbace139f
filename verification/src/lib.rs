//! A streaming, tag-structured text parser.
//!
//! Given a byte buffer holding XML-like markup that may have been cut off
//! mid-stream, the parser extracts the sequence of top-level tag records,
//! matching nested same-name tags by a counting scan, and reports for each
//! record whether its closing tag was found in the available buffer.

pub mod attrs;
pub mod laws;
pub mod matcher;
pub mod record;
pub mod scanner;
pub mod stability;
pub mod text;

pub use matcher::find_closing_tag;
pub use record::{TagRecord, TagView};
pub use scanner::parse_streamed_tags;
pub use text::find_sub;
