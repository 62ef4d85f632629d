//! A small C-style line preprocessor.
//!
//! Input text is handled one line at a time: every whole-word occurrence of a
//! defined macro name is replaced by the macro's value, and `#if` / `#elif` /
//! `#else` / `#endif` directive lines open, switch and close conditional
//! blocks that decide which plain lines reach the output.
//!
//! [`Context`] holds the macro table, [`process_str`] transforms a whole text
//! in memory, and [`Processor`] carries the conditional state from one line to
//! the next for callers that feed lines in by hand.

mod chars;
mod error;
mod table;
mod subst;
mod eval;
mod machine;
mod laws;

pub use error::Error;
pub use machine::process_str;
pub use machine::Processor;
pub use machine::State;
pub use table::Context;
