//! The flat form of a document: a table of strings and an array of
//! fixed-shape node records that refer to each other and to the strings by
//! index.

use vstd::prelude::*;
use vstd::string::*;

use crate::interner::string_views;

verus! {

/// The largest id that a record or a string can have.
pub open spec fn max_id() -> nat {
    u32::MAX as nat
}

/// The kind of a node, numbered as in the DOM.
#[derive(Clone, Copy, Debug, PartialEq, Eq, Hash, Structural)]
pub enum WireNodeType {
    Element,
    Attribute,
    Text,
    CData,
    EntityReference,
    Entity,
    ProcessingInstruction,
    Comment,
    Document,
    DocumentType,
    DocumentFragment,
    Notation,
}

impl WireNodeType {
    /// The DOM's number for the kind, from 1 to 12.
    pub open spec fn spec_code(self) -> u8 {
        match self {
            WireNodeType::Element => 1,
            WireNodeType::Attribute => 2,
            WireNodeType::Text => 3,
            WireNodeType::CData => 4,
            WireNodeType::EntityReference => 5,
            WireNodeType::Entity => 6,
            WireNodeType::ProcessingInstruction => 7,
            WireNodeType::Comment => 8,
            WireNodeType::Document => 9,
            WireNodeType::DocumentType => 10,
            WireNodeType::DocumentFragment => 11,
            WireNodeType::Notation => 12,
        }
    }

    /// The DOM's number for the kind, from 1 to 12.
    #[verifier::when_used_as_spec(spec_code)]
    pub fn code(self) -> (r: u8)
        ensures
            r == self.spec_code(),
            1 <= r <= 12,
    {
        match self {
            WireNodeType::Element => 1,
            WireNodeType::Attribute => 2,
            WireNodeType::Text => 3,
            WireNodeType::CData => 4,
            WireNodeType::EntityReference => 5,
            WireNodeType::Entity => 6,
            WireNodeType::ProcessingInstruction => 7,
            WireNodeType::Comment => 8,
            WireNodeType::Document => 9,
            WireNodeType::DocumentType => 10,
            WireNodeType::DocumentFragment => 11,
            WireNodeType::Notation => 12,
        }
    }

    /// The kind with the given number, if there is one.
    pub fn from_code(code: u8) -> (r: Option<WireNodeType>)
        ensures
            r matches Some(kind) ==> kind.spec_code() == code,
            r is Some <==> 1 <= code <= 12,
    {
        match code {
            1 => Some(WireNodeType::Element),
            2 => Some(WireNodeType::Attribute),
            3 => Some(WireNodeType::Text),
            4 => Some(WireNodeType::CData),
            5 => Some(WireNodeType::EntityReference),
            6 => Some(WireNodeType::Entity),
            7 => Some(WireNodeType::ProcessingInstruction),
            8 => Some(WireNodeType::Comment),
            9 => Some(WireNodeType::Document),
            10 => Some(WireNodeType::DocumentType),
            11 => Some(WireNodeType::DocumentFragment),
            12 => Some(WireNodeType::Notation),
            _ => None,
        }
    }
}

impl Default for WireNodeType {
    fn default() -> (r: WireNodeType)
        ensures
            r == WireNodeType::Element,
    {
        WireNodeType::Element
    }
}

/// One attribute of an element: ids into the string table.
#[derive(Clone, Copy, Debug, PartialEq, Eq, Hash, Structural)]
pub struct WireAttr {
    /// The namespace URI, absent when the attribute has none.
    pub ns: Option<u32>,
    pub name: u32,
    pub value: u32,
}

/// One node of the flat array.
#[derive(Clone, Debug, PartialEq, Eq, Hash)]
pub struct WireNode {
    /// The node's index in the array.
    pub id: u32,
    pub node_type: WireNodeType,
    /// The id of the node's name.
    pub name: Option<u32>,
    /// The id of the node's value.
    pub value: Option<u32>,
    /// The index of the parent, absent for the root.
    pub parent: Option<u32>,
    /// The index of the first child, absent for a node without children.
    pub first_child: Option<u32>,
    /// The index of the sibling that follows, absent for a last child.
    pub next_sibling: Option<u32>,
    pub attrs: Option<Vec<WireAttr>>,
}

/// A [`WireNode`] as a mathematical value.
pub struct WireNodeView {
    pub id: u32,
    pub node_type: WireNodeType,
    pub name: Option<u32>,
    pub value: Option<u32>,
    pub parent: Option<u32>,
    pub first_child: Option<u32>,
    pub next_sibling: Option<u32>,
    pub attrs: Option<Seq<WireAttr>>,
}

impl View for WireNode {
    type V = WireNodeView;

    open spec fn view(&self) -> WireNodeView {
        WireNodeView {
            id: self.id,
            node_type: self.node_type,
            name: self.name,
            value: self.value,
            parent: self.parent,
            first_child: self.first_child,
            next_sibling: self.next_sibling,
            attrs: match self.attrs {
                Some(attrs) => Some(attrs@),
                None => None,
            },
        }
    }
}

/// The view of each node of a sequence.
pub open spec fn wire_node_views(nodes: Seq<WireNode>) -> Seq<WireNodeView> {
    nodes.map_values(|n: WireNode| n@)
}

/// A flattened document.
#[derive(Clone, Debug, PartialEq, Eq, Hash)]
pub struct WireDoc {
    /// One of `text/html`, `application/xhtml+xml`, `image/svg+xml` and
    /// `application/xml`.
    pub content_type: String,
    /// One of `quirks`, `limited-quirks` and `no-quirks`.
    pub quirks_mode: String,
    /// The string table: the string with id `i` is at index `i`.
    pub strings: Vec<String>,
    pub nodes: Vec<WireNode>,
}

/// A [`WireDoc`] as a mathematical value.
pub struct WireDocView {
    pub content_type: Seq<char>,
    pub quirks_mode: Seq<char>,
    pub strings: Seq<Seq<char>>,
    pub nodes: Seq<WireNodeView>,
}

impl View for WireDoc {
    type V = WireDocView;

    open spec fn view(&self) -> WireDocView {
        WireDocView {
            content_type: self.content_type@,
            quirks_mode: self.quirks_mode@,
            strings: string_views(self.strings@),
            nodes: wire_node_views(self.nodes@),
        }
    }
}

} // verus!
