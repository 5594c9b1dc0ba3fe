//! A document tree that a markup parser fills in, and the flat,
//! string-interned form of that tree that is handed to a host.
//!
//! The tree lives in an arena ([`RcDom`]). A parser drives it through the
//! operations of a tree sink: it creates nodes, appends and inserts them,
//! moves children from one node to another and records errors. When the
//! parser is done the tree is flattened ([`serialize_dom`]): every node
//! becomes one record of fixed shape in an array, the records refer to each
//! other by position, and every string is replaced by its id in a table of
//! an [`Interner`]. A tree can also be walked in the order of its markup
//! ([`SerializableHandle`]).
//!
//! The parsers themselves, and the bindings to the host, are not part of
//! this crate.

pub mod encode;
pub mod flatten;
pub mod interner;
pub mod layout;
pub mod mime;
pub mod names;
pub mod options;
pub mod quirks_mode;
pub mod rcdom;
pub mod serialize;
pub mod text;
pub mod tree;
pub mod wire;

pub use flatten::{collect, serialize_dom};
pub use interner::Interner;
pub use mime::{default_mime_type, is_html_mime, normalized_mime};
pub use names::{Attribute, QualName};
pub use options::{FragmentParseOptions, ParseOptions};
pub use quirks_mode::QuirksMode;
pub use rcdom::{Appendable, ElementFlags, Node, NodeData, NodeOrText, ParentNode, RcDom};
pub use serialize::{SerializableHandle, SerializeEvent, TraversalScope};
pub use tree::Handle;
pub use wire::{WireAttr, WireDoc, WireNode, WireNodeType};
