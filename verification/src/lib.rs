//! Inline markup such as `<red>text</red>` parsed into styled fragments and
//! printed with ANSI escape sequences.
//!
//! ```
//! use richparse::{Color, RichString};
//!
//! let doc = RichString::parse("<green><bold>Done</bold></green> in 3s");
//! assert_eq!(doc.spans.len(), 2);
//! assert_eq!(doc.spans[0].style.fg, Color::Green);
//! println!("{}", doc.to_string());
//! ```
//!
//! [`RichString::parse`] reads the markup in one pass and keeps a stack of
//! styles for the tags that are open; every input gives a document.
//! [`RichString::to_string`] prints each fragment with the codes of its
//! style around it and a reset after it. Fragments borrow their text from
//! the markup.
//!
//! The modules:
//! - [`style`]: colors, their escape sequences, and styles;
//! - [`span`]: fragments and how they are printed;
//! - [`tag`]: what a tag does to a style;
//! - [`parser`]: documents, and the grammar of the markup as the function
//!   `scan`;
//! - [`laws`]: what is proved of every document;
//! - [`text`]: the string operations underneath;
//! - [`intl`]: documents as values for Fluent messages.

pub mod intl;
pub mod laws;
pub mod parser;
pub mod span;
pub mod style;
pub mod tag;
pub mod text;

pub use parser::RichString;
pub use span::Span;
pub use style::{Color, Style};
