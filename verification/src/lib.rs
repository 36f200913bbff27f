//! A verified serializer for the PDF file syntax: it renders an in-memory
//! object graph to canonical bytes, builds the cross-reference index over the
//! emitted objects, and records the byte span of every dictionary value stored
//! under the key `Contents`, so that a later signing stage can compute byte
//! ranges without re-parsing.

pub mod content;
pub mod document;
pub mod object;
pub mod ser;
pub mod writer;
pub mod xref;

pub use content::{Content, Operation};
pub use document::Document;
pub use object::{Dictionary, Object, ObjectId, Stream, StringFormat};
pub use writer::{ContentsMap, CountingWrite, Writer};
pub use xref::{Xref, XrefEntry};
