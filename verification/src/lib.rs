//! Pattern highlighting for terminal text.
//!
//! Given a piece of text and a regular expression, the crate cuts the text into
//! styled fragments: every match of the expression carries the highlight style,
//! everything between the matches stays plain.

pub mod fragments;
pub mod line;
pub mod matcher;
pub mod slicing;
pub mod spans;
pub mod text;

pub use crate::line::{assemble_line, highlight_line, try_highlight_line};
pub use crate::matcher::{find_spans, is_valid_pattern};
pub use crate::text::{highlight_text, try_highlight_text};
