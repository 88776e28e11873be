//! Editing of Nix configuration files by attribute path.
//!
//! The source text is parsed into a lossless syntax tree, the attribute named by
//! a dotted path is located in it, and values are read or the tree is edited and
//! written out again. Everything that an edit does not touch keeps its text.
//!
//! - [`tree`]: the syntax tree and its model, with the operations that replace,
//!   insert and remove children.
//! - [`syntax`]: from text to tree, by way of the `rnix` parser.
//! - [`parse`]: the attribute set of a file, keys, and the resolution of paths.
//! - [`read`]: values, list elements and `with` scopes.
//! - [`write`]: replacing and adding values, lists, and deletion.
//! - [`attrs`]: all attributes of a set as one flat mapping.
//! - [`laws`]: what reading and editing guarantee of each other.
pub mod attrs;
pub mod laws;
pub mod parse;
pub mod read;
pub mod syntax;
pub mod tree;
pub mod write;
