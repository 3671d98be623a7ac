//! A line-oriented markup tokenizer: each line of a text becomes one event,
//! classified by a two-character prefix.
pub mod encoding;
pub mod event;
pub mod lines;
pub mod parser;

pub use event::{classify_line, Event};
pub use parser::Parser;
