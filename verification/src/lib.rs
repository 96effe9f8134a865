//! A validating parser for shopping lists.
//!
//! A shopping list is a text of category headers in brackets and numbered
//! items: `[Produce]` followed by lines such as
//! `1. Apple 4 pcs (Organic) {Nice and fresh}`. [`parse_shopping_list`] reads
//! such a text into its categories, each with its items, or says why the text
//! is no shopping list.
//!
//! The modules, from the ground up:
//!
//! - [`chars`]: character classes, runs of characters, trimming.
//! - [`number`]: reading and writing decimal numbers.
//! - [`tree`]: the parse tree and the syntax error.
//! - [`grammar`]: the rules of the notation, as mathematical functions.
//! - [`shape`]: what the trees that the grammar matches look like.
//! - [`recognizer`]: the executable grammar, [`Grammar::parse`].
//! - [`document`]: categories and items, and the walk over the parse tree
//!   that builds them.
//! - [`parser`]: the entry point and its error.
//! - [`order`]: the document is in the order of the input.
//! - [`layout`]: separators between the tokens of an item change its name only.
//! - [`render`]: a document written out and read again is the same document.

pub mod chars;
pub mod document;
pub mod grammar;
pub mod layout;
pub mod number;
pub mod order;
pub mod parser;
pub mod recognizer;
pub mod render;
pub mod shape;
pub mod tree;

pub use document::{ShoppingCategory, ShoppingItem};
pub use parser::{parse_shopping_list, ParseError};
pub use recognizer::Grammar;
pub use render::write_shopping_list;
pub use tree::{Node, Rule, SyntaxError};
