//! A read-only tree for XML 1.0 documents held in memory as UTF-8 text.
//!
//! The root point of the documentation is [`Document::parse`].
//!
//! Every function is verified against a model of the document as bytes:
//!
//! - `strings`, `xmlchar`, `textpos` and `search`: UTF-8 text as bytes, the
//!   character classes of XML, rows and columns, and byte search;
//! - `stream` and `tokenizer`: the cursor over the text, and the grammar of
//!   a document as functions from bytes to tokens; a token is kept by the
//!   spans of its texts, and handed to a consumer with the texts themselves;
//! - `tree`: the arenas of a document and what makes them a tree;
//! - `builder`, `shape` and `parse`: what each token does to the tree, what
//!   holds of the tree while it is built, and the code that builds it;
//! - `document` and `compare`: the navigation over a finished tree;
//! - `laws`: what holds of every tree that parsing gives.

pub mod builder;
pub mod compare;
pub mod document;
pub mod error;
pub mod laws;
pub mod parse;
pub mod search;
pub mod shape;
pub mod stream;
pub mod strings;
pub mod textpos;
pub mod tokenizer;
pub mod tree;
pub mod xmlchar;

pub use crate::document::{
    Attribute, Attributes, AxisIter, Children, Descendants, Document, Edge, ExpandedName,
    Namespace, NamespaceIter, Node, StringStorage, Traverse, PI,
};
pub use crate::error::Error;
pub use crate::parse::ParsingOptions;
pub use crate::stream::{Reference, Span, SpanReference, StrSpan, Stream};
pub use crate::textpos::TextPos;
pub use crate::tokenizer::{ElementEnd, SpanEnd, SpanToken, Token, XmlEvents};
pub use crate::tree::{Axis, NodeId, NodeType, NS_XMLNS_URI, NS_XML_URI};
