//! A parser for a lightweight markup language: documents are made of blocks
//! (divs, headings, code, lists, paragraphs), and blocks of spans (text,
//! strong, emphasis, links, verbatim, hash tags and more), each with optional
//! attributes. Index strings can be derived from the text of spans.
pub mod attrs;
pub mod blocks;
pub mod chars;
pub mod hashtag;
pub mod index;
pub mod lists;
pub mod model;
pub mod spans;

pub use crate::blocks::{document, Document, DocumentError};
pub use crate::hashtag::{contents, hashtags, htindex, HashTag};
pub use crate::model::{
    Align, Attrs, Block, Enumerator, HLevel, Index, ListItem, Span,
};
pub use crate::spans::span_with_attributes;
