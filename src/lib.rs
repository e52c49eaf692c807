//! A simple and general purpose html/xhtml parser.
//!
//! Markup is read into a tree of tagged spans by a hand-written grammar
//! (`grammar`), the spans are built into a tree of nodes (`builder`), and the
//! tree is classified as a document, a document fragment or an empty tree
//! (`dom`). The tree can be walked without recursion (`iter`) and written
//! back out as markup (`html`).

pub mod ast;
pub mod builder;
pub mod chars;
pub mod dom;
pub mod error;
pub mod grammar;
pub mod html;
pub mod iter;
pub mod node;
pub mod order;
pub mod parser;
pub mod span;

pub use crate::ast::{Ast, AstVariant};
pub use crate::dom::{Dom, DomVariant};
pub use crate::error::{Error, Result};
pub use crate::iter::NodeIntoIterator;
pub use crate::node::{Element, ElementVariant, Node};
pub use crate::parser::HtmlParser;
pub use crate::span::SourceSpan;
