//! A structural viewer for source text, and a small reindenting tool.
//!
//! The viewer shows the parse tree of a document as an indented outline
//! whose nodes can be folded, narrows the outline to the nodes whose text
//! contains a search term, and keeps a cursor on one of the visible lines.
//! Its modules, leaves first:
//!
//! - [`tree`]: the parse tree;
//! - [`parse`]: building a parse tree with a tree-sitter grammar;
//! - [`fold`]: the set of folded nodes;
//! - [`outline`]: flattening a tree into the lines of an outline;
//! - [`nesting`]: what it means for an outline to be well nested;
//! - [`visibility`]: which nodes an outline shows, and how often;
//! - [`search`]: the search filter;
//! - [`stepping`]: steps to the parent, the children and the next sibling;
//! - [`navigator`]: the state of the viewer and its transitions;
//! - [`text`]: labels of fixed length and the column of the text cursor.
//!
//! The reindenting tool cuts a byte stream at delimiters and writes it out
//! again indented by nesting depth: [`delimiter`] and [`reindent`].

pub mod delimiter;
pub mod fold;
pub mod navigator;
pub mod nesting;
pub mod outline;
pub mod parse;
pub mod reindent;
pub mod search;
pub mod stepping;
pub mod text;
pub mod tree;
pub mod visibility;
