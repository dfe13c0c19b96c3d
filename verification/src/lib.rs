//! A whitespace-preserving reformatter for a small expression-oriented
//! language (symbols, binary operators, bracketed containers, comma
//! sequences).  Raw text is parsed into a tree, the tree is walked into a
//! flat sequence of render instructions, and the instructions are emitted
//! with normalized spacing, width-driven line breaking and two-space
//! indentation.

pub mod api;
pub mod basic;
pub mod chars;
pub mod engine;
pub mod emit;
pub mod inst;
pub mod layout;
pub mod parse;
pub mod render;
pub mod tree;
pub mod whitespace;

pub use api::{Cursor, ParseCursor, ParseNode, ParseTree};
pub use basic::format_line;
pub use engine::{do_format, silly_format};
pub use inst::R;
pub use parse::parse;
pub use tree::{Kind, Node, Role, Tree};
