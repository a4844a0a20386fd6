//! A streaming XML 1.0 tokenizer with namespace resolution, an escape codec,
//! and a tree builder, all verified.
//!
//! The tokenizer consumes text in fragments of arbitrary size and emits
//! syntactic events (processing instructions, start and end tags, character
//! data, CDATA sections, comments).  A companion builder assembles those
//! events into a tree of elements.

pub mod base;
pub mod codec;
pub mod element;
pub mod element_builder;
pub mod laws;
pub mod parser;
pub mod serialize;
pub mod text;

pub use base::{Attribute, EndTag, Error, Event, StartTag};
pub use codec::{escape, unescape};
pub use element::{Element, Xml};
pub use element_builder::{BuilderError, ElementBuilder};
pub use parser::{parse_qname, Parser};
