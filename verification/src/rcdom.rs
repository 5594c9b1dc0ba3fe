//! The document tree and the operations with which a parser builds it.
//!
//! Nodes live in an arena and are addressed by [`Handle`]. A node owns its
//! children through its child list and refers to its parent by handle; a node
//! that is taken out of its parent stays in the arena, detached. The
//! operations are those that a tree-construction algorithm asks of its sink:
//! create, append, insert, reparent and query.

use vstd::prelude::*;
use vstd::string::*;

use crate::interner::string_views;
use crate::names::{attribute_views, contains_name, missing_attributes, Attribute, QualName};
use crate::quirks_mode::QuirksMode;
use crate::tree::{
    lemma_remove_unique,
    DomView,
    Handle,
    NodeDataView,
    NodeOrTextView,
    NodeView,
    Ranking,
};

verus! {

/// The different kinds of nodes.
#[derive(Debug)]
#[allow(inconsistent_fields)]
pub enum NodeData {
    /// The root of a document, or of the contents of a template.
    Document,
    /// A `DOCTYPE` with name, public id and system id.
    Doctype { name: String, public_id: String, system_id: String },
    /// A text node.
    Text { contents: String },
    /// A comment.
    Comment { contents: String },
    /// An element with attributes.
    Element {
        name: QualName,
        attrs: Vec<Attribute>,
        /// For a template element, the document that holds its contents.
        template_contents: Option<Handle>,
        /// Whether the node is an HTML integration point.
        mathml_annotation_xml_integration_point: bool,
    },
    /// A processing instruction.
    ProcessingInstruction { target: String, contents: String },
}

impl View for NodeData {
    type V = NodeDataView;

    open spec fn view(&self) -> NodeDataView {
        match self {
            NodeData::Document => NodeDataView::Document,
            NodeData::Doctype { name, public_id, system_id } => NodeDataView::Doctype {
                name: name@,
                public_id: public_id@,
                system_id: system_id@,
            },
            NodeData::Text { contents } => NodeDataView::Text { contents: contents@ },
            NodeData::Comment { contents } => NodeDataView::Comment { contents: contents@ },
            NodeData::Element {
                name,
                attrs,
                template_contents,
                mathml_annotation_xml_integration_point,
            } => NodeDataView::Element {
                name: name@,
                attrs: attribute_views(attrs@),
                template_contents: *template_contents,
                mathml_annotation_xml_integration_point: *mathml_annotation_xml_integration_point,
            },
            NodeData::ProcessingInstruction { target, contents } => {
                NodeDataView::ProcessingInstruction { target: target@, contents: contents@ }
            },
        }
    }
}

/// A node of the tree.
#[derive(Debug)]
pub struct Node {
    /// The parent, if the node is attached.
    pub parent: Option<Handle>,
    /// The children, in document order.
    pub children: Vec<Handle>,
    /// What the node is and carries.
    pub data: NodeData,
}

impl View for Node {
    type V = NodeView;

    open spec fn view(&self) -> NodeView {
        NodeView { parent: self.parent, children: self.children@, data: self.data@ }
    }
}

impl Node {
    /// A node that is attached to nothing.
    pub fn new(data: NodeData) -> (r: Node)
        ensures
            r@ == (NodeView { parent: None, children: Seq::empty(), data: data@ }),
    {
        Node { parent: None, children: Vec::new(), data }
    }
}

/// Something that can be inserted into the tree. Text that lands next to a
/// text node is merged into it.
#[derive(Debug)]
pub enum NodeOrText {
    AppendNode(Handle),
    AppendText(String),
}

impl View for NodeOrText {
    type V = NodeOrTextView;

    open spec fn view(&self) -> NodeOrTextView {
        match self {
            NodeOrText::AppendNode(h) => NodeOrTextView::AppendNode(*h),
            NodeOrText::AppendText(text) => NodeOrTextView::AppendText(text@),
        }
    }
}

/// Special properties of an element that is being created.
#[derive(Clone, Copy, Debug)]
pub struct ElementFlags {
    /// The element is a template: it gets a document for its contents.
    pub template: bool,
    /// Recorded with the element and reported back on request.
    pub mathml_annotation_xml_integration_point: bool,
}

/// The view of each node of a sequence.
pub open spec fn node_views(nodes: Seq<Node>) -> Seq<NodeView> {
    nodes.map_values(|n: Node| n@)
}

/// The tree itself; the result of parsing.
///
/// A tree starts as an empty document and changes only through the
/// operations below. Each of them keeps the tree well formed, so a tree that
/// was built through them always is. The handles that an operation accepts
/// are those that earlier operations have returned; [`RcDom::len`] bounds
/// them. Where an operation does not accept every node, a function whose
/// name starts with `can_` tells whether it accepts the ones at hand.
#[derive(Debug)]
pub struct RcDom {
    nodes: Vec<Node>,
    document: Handle,
    errors: Vec<String>,
    quirks_mode: QuirksMode,
}

impl View for RcDom {
    type V = DomView;

    closed spec fn view(&self) -> DomView {
        DomView {
            nodes: node_views(self.nodes@),
            document: self.document,
            errors: string_views(self.errors@),
            quirks_mode: self.quirks_mode,
        }
    }
}

/// The arena of a new tree: a document node and nothing else.
pub open spec fn empty_dom() -> DomView {
    DomView {
        nodes: seq![NodeView { parent: None, children: Seq::empty(), data: NodeDataView::Document }],
        document: 0,
        errors: Seq::empty(),
        quirks_mode: QuirksMode::NoQuirks,
    }
}

/// A new tree is well formed.
pub proof fn lemma_empty_dom_wf()
    ensures
        empty_dom().wf(),
{
    let d = empty_dom();
    let r = Ranking { heights: seq![0nat], bound: 0 };
    assert(d.links_wf());
    assert(d.ranked_by(r));
}

impl RcDom {
    /// A tree that consists of an empty document, with no errors recorded
    /// and in no-quirks mode.
    pub fn new() -> (r: RcDom)
        ensures
            r@ == empty_dom(),
            r@.wf(),
    {
        let mut nodes: Vec<Node> = Vec::new();
        nodes.push(Node::new(NodeData::Document));
        let r = RcDom { nodes, document: 0, errors: Vec::new(), quirks_mode: QuirksMode::NoQuirks };
        proof {
            assert(r@.nodes =~= empty_dom().nodes);
            assert(r@.errors =~= empty_dom().errors);
            lemma_empty_dom_wf();
        }
        r
    }

    /// The number of nodes that were created, attached or not.
    pub fn len(&self) -> (r: usize)
        ensures
            r == self@.nodes.len(),
    {
        self.nodes.len()
    }

    /// The node behind a handle.
    pub fn node(&self, h: Handle) -> (r: &Node)
        requires
            self@.contains(h),
        ensures
            r@ == self@.nodes[h as int],
    {
        &self.nodes[h]
    }

    /// The parse errors recorded so far, oldest first.
    pub fn errors(&self) -> (r: &Vec<String>)
        ensures
            string_views(r@) == self@.errors,
    {
        &self.errors
    }

    /// The document's quirks mode.
    pub fn quirks_mode(&self) -> (r: QuirksMode)
        ensures
            r == self@.quirks_mode,
    {
        self.quirks_mode
    }

    /// The tree, as the result of parsing.
    pub fn finish(self) -> (r: RcDom)
        ensures
            r == self,
    {
        self
    }

    /// Records a parse error.
    pub fn parse_error(&mut self, msg: String)
        ensures
            final(self)@ == (DomView { errors: old(self)@.errors.push(msg@), ..old(self)@ }),
            final(self)@.wf() == old(self)@.wf(),
    {
        self.errors.push(msg);
        proof {
            assert(self@.errors =~= old(self)@.errors.push(msg@));
            self@.lemma_wf_of_nodes(old(self)@);
        }
    }

    /// The handle of the document node.
    pub fn get_document(&self) -> (r: Handle)
        ensures
            r == self@.document,
    {
        self.document
    }

    /// Records the document's quirks mode.
    pub fn set_quirks_mode(&mut self, mode: QuirksMode)
        ensures
            final(self)@ == (DomView { quirks_mode: mode, ..old(self)@ }),
            final(self)@.wf() == old(self)@.wf(),
    {
        self.quirks_mode = mode;
        proof {
            self@.lemma_wf_of_nodes(old(self)@);
        }
    }

    /// Whether two handles refer to the same node.
    pub fn same_node(&self, x: Handle, y: Handle) -> (r: bool)
        ensures
            r == (x == y),
    {
        x == y
    }

    /// The document that holds the contents of a template element.
    pub fn get_template_contents(&self, target: Handle) -> (r: Handle)
        requires
            self@.contains(target),
            self@.template_of(target) is Some,
        ensures
            Some(r) == self@.template_of(target),
    {
        match &self.nodes[target].data {
            NodeData::Element { template_contents: Some(contents), .. } => *contents,
            _ => vstd::pervasive::unreached(),
        }
    }

    /// The name of an element.
    pub fn elem_name(&self, target: Handle) -> (r: &QualName)
        requires
            self@.contains(target),
            self@.data_of(target) is Element,
        ensures
            (self@.data_of(target) matches NodeDataView::Element { name, .. } && r@ == name),
    {
        match &self.nodes[target].data {
            NodeData::Element { name, .. } => name,
            _ => vstd::pervasive::unreached(),
        }
    }

    /// The integration-point flag that was recorded when the element was
    /// created.
    pub fn is_mathml_annotation_xml_integration_point(&self, target: Handle) -> (r: bool)
        requires
            self@.contains(target),
            self@.data_of(target) is Element,
        ensures
            (self@.data_of(target) matches NodeDataView::Element {
                mathml_annotation_xml_integration_point,
                ..
            } && r == mathml_annotation_xml_integration_point),
    {
        match &self.nodes[target].data {
            NodeData::Element { mathml_annotation_xml_integration_point, .. } => {
                *mathml_annotation_xml_integration_point
            },
            _ => vstd::pervasive::unreached(),
        }
    }

    /// The parent of a node and the node's position among its children.
    pub fn get_parent_and_index(&self, target: Handle) -> (r: Option<(Handle, usize)>)
        requires
            self@.wf(),
            self@.contains(target),
        ensures
            r is None <==> self@.parent_of(target) is None,
            r matches Some((parent, index)) ==> self@.parent_of(target) == Some(parent) && index
                == self@.index_in(parent, target) && index < self@.children_of(parent).len(),
    {
        match self.nodes[target].parent {
            None => None,
            Some(parent) => {
                proof {
                    self@.lemma_child_position(target);
                }
                let children = &self.nodes[parent].children;
                let mut i: usize = 0;
                while children[i] != target
                    invariant
                        children@ == self@.children_of(parent),
                        children@.no_duplicates(),
                        0 <= i <= self@.index_in(parent, target) < children.len(),
                        children@[self@.index_in(parent, target)] == target,
                    decreases children.len() - i,
                {
                    i += 1;
                }
                Some((parent, i))
            },
        }
    }

    /// The element whose template contents `t` is, if there is one.
    fn find_host(&self, t: Handle) -> (r: Option<Handle>)
        requires
            self@.wf(),
            self@.contains(t),
        ensures
            r == self@.host_of(t),
    {
        if t == self.document {
            proof {
                if self@.host_of(t) is Some {
                    let e = choose|e: Handle| self@.hosts(e, t);
                    assert(self@.hosts(e, t));
                }
            }
            None
        } else if let NodeData::Document = &self.nodes[t].data {
            let mut e: usize = 0;
            while e < self.nodes.len()
                invariant
                    e <= self.nodes.len(),
                    self@.wf(),
                    forall|j: Handle| j < e ==> !self@.hosts(j, t),
                decreases self.nodes.len() - e,
            {
                if let NodeData::Element { template_contents: Some(contents), .. } =
                    &self.nodes[e].data {
                    if *contents == t {
                        proof {
                            assert(self@.hosts(e, t));
                            self@.lemma_host_is_owner(e, t);
                        }
                        return Some(e);
                    }
                }
                e += 1;
            }
            None
        } else {
            proof {
                if self@.host_of(t) is Some {
                    let e = choose|e: Handle| self@.hosts(e, t);
                    assert(self@.hosts(e, t));
                }
            }
            None
        }
    }

    /// Whether `a` is `x`, or owns `x` directly or through other nodes: as
    /// the parent of a child, or as the element of template contents.
    pub fn is_inclusive_ancestor(&self, a: Handle, x: Handle) -> (r: bool)
        requires
            self@.wf(),
            self@.contains(x),
        ensures
            r == self@.is_inclusive_ancestor(a, x),
    {
        let mut cur = x;
        loop
            invariant
                self@.wf(),
                self@.contains(cur),
                self@.is_inclusive_ancestor(a, x) == self@.is_inclusive_ancestor(a, cur),
            decreases self@.ranking().bound - self@.height(cur),
        {
            if cur == a {
                return true;
            }
            let owner = match self.nodes[cur].parent {
                Some(p) => Some(p),
                None => self.find_host(cur),
            };
            match owner {
                Some(o) => {
                    proof {
                        self@.lemma_owner(cur);
                    }
                    cur = o;
                },
                None => {
                    return false;
                },
            }
        }
    }
}

impl RcDom {
    /// Adds a node to the arena, attached to nothing.
    fn allocate(&mut self, data: NodeData) -> (h: Handle)
        requires
            old(self)@.wf(),
            data@.template() matches Some(t) ==> old(self)@.contains(t) && old(self)@.data_of(t) is Document
                && t != old(self)@.document && old(self)@.host_of(t) is None,
        ensures
            h == old(self)@.next_handle(),
            old(self)@.nodes.len() < usize::MAX,
            final(self)@ == old(self)@.created(data@),
            final(self)@.wf(),
    {
        self.nodes.push(Node::new(data));
        let h = self.nodes.len() - 1;
        proof {
            assert(self@.nodes =~= old(self)@.created(data@).nodes);
            old(self)@.lemma_created_wf(data@);
        }
        h
    }

    /// Makes the parentless node `child` the child of `parent` at `index`.
    fn link(&mut self, parent: Handle, index: usize, child: Handle)
        requires
            old(self)@.wf(),
            old(self)@.can_adopt(parent, child),
            old(self)@.parent_of(child) is None,
            index <= old(self)@.children_of(parent).len(),
        ensures
            final(self)@ == old(self)@.linked(parent, index as int, child),
            final(self)@.wf(),
    {
        proof {
            old(self)@.lemma_ancestor_self(parent);
        }
        self.nodes[child].parent = Some(parent);
        self.nodes[parent].children.insert(index, child);
        proof {
            assert(self@.nodes =~= old(self)@.linked(parent, index as int, child).nodes);
            old(self)@.lemma_linked_wf(parent, index as int, child);
        }
    }

    /// Takes `child` out of its parent, if it has one.
    fn unlink(&mut self, child: Handle)
        requires
            old(self)@.wf(),
            old(self)@.contains(child),
        ensures
            final(self)@ == old(self)@.unlinked(child),
            final(self)@.wf(),
    {
        proof {
            old(self)@.lemma_unlinked_wf(child);
        }
        if let Some((parent, index)) = self.get_parent_and_index(child) {
            proof {
                old(self)@.lemma_child_position(child);
            }
            self.nodes[parent].children.remove(index);
            self.nodes[child].parent = None;
            assert(self@.nodes =~= old(self)@.unlinked(child).nodes);
        }
    }

    /// If the node is a text node, adds `text` to the end of it and returns
    /// `true`; otherwise leaves the tree as it is and returns `false`.
    pub fn append_to_existing_text(&mut self, target: Handle, text: &str) -> (r: bool)
        requires
            old(self)@.wf(),
            old(self)@.contains(target),
        ensures
            r == old(self)@.is_text(target),
            r ==> final(self)@ == old(self)@.text_pushed(target, text@),
            !r ==> final(self)@ == old(self)@,
            final(self)@.wf(),
    {
        let is_text = matches!(self.nodes[target].data, NodeData::Text { .. });
        if is_text {
            match &mut self.nodes[target].data {
                NodeData::Text { contents } => {
                    contents.append(text);
                },
                _ => {},
            }
            proof {
                let model = old(self)@.text_pushed(target, text@);
                assert(self@.nodes =~= model.nodes);
                old(self)@.lemma_with_data_wf(target, model.data_of(target));
            }
        }
        is_text
    }

    /// Puts `text` at position `index` among the children of `parent`:
    /// merged into the text node just before that position if there is one,
    /// otherwise as a new text node.
    fn insert_text(&mut self, parent: Handle, index: usize, text: String)
        requires
            old(self)@.wf(),
            old(self)@.contains(parent),
            index <= old(self)@.children_of(parent).len(),
        ensures
            final(self)@ == old(self)@.text_inserted(parent, index as int, text@),
            final(self)@.wf(),
    {
        if index > 0 {
            let previous = self.nodes[parent].children[index - 1];
            assert(previous == old(self)@.children_of(parent)[index - 1]);
            if self.append_to_existing_text(previous, text.as_str()) {
                return ;
            }
        }
        let ghost data = NodeDataView::Text { contents: text@ };
        let node = self.allocate(NodeData::Text { contents: text });
        proof {
            old(self)@.lemma_created_below(data, parent);
        }
        self.link(parent, index, node);
    }

    /// Creates an element. A template element gets a new, empty document
    /// for its contents, created just before the element itself.
    pub fn create_element(&mut self, name: QualName, attrs: Vec<Attribute>, flags: ElementFlags) -> (h:
        Handle)
        requires
            old(self)@.wf(),
        ensures
            final(self)@ == old(self)@.element_created(
                name@,
                attribute_views(attrs@),
                flags.template,
                flags.mathml_annotation_xml_integration_point,
            ),
            h == final(self)@.nodes.len() - 1,
            final(self)@.wf(),
    {
        let template_contents = if flags.template {
            let contents = self.allocate(NodeData::Document);
            proof {
                let mid = old(self)@.created(NodeDataView::Document);
                if mid.host_of(contents) is Some {
                    let e = choose|e: Handle| mid.hosts(e, contents);
                    assert(mid.hosts(e, contents));
                    assert(old(self)@.hosts(e, contents));
                }
            }
            Some(contents)
        } else {
            None
        };
        self.allocate(
            NodeData::Element {
                name,
                attrs,
                template_contents,
                mathml_annotation_xml_integration_point: flags.mathml_annotation_xml_integration_point,
            },
        )
    }

    /// Creates a comment node.
    pub fn create_comment(&mut self, contents: String) -> (h: Handle)
        requires
            old(self)@.wf(),
        ensures
            final(self)@ == old(self)@.created(NodeDataView::Comment { contents: contents@ }),
            h == old(self)@.next_handle(),
            final(self)@.wf(),
    {
        self.allocate(NodeData::Comment { contents })
    }

    /// Creates a processing instruction node.
    pub fn create_pi(&mut self, target: String, contents: String) -> (h: Handle)
        requires
            old(self)@.wf(),
        ensures
            final(self)@ == old(self)@.created(
                NodeDataView::ProcessingInstruction { target: target@, contents: contents@ },
            ),
            h == old(self)@.next_handle(),
            final(self)@.wf(),
    {
        self.allocate(NodeData::ProcessingInstruction { target, contents })
    }

    /// Appends a node or text as the last child of `parent`.
    ///
    /// Text is added to the last child if that is a text node; otherwise it
    /// becomes a new text node. A node must not have a parent.
    pub fn append(&mut self, parent: Handle, child: NodeOrText)
        requires
            old(self)@.wf(),
            old(self)@.can_append(parent, child@),
        ensures
            final(self)@ == old(self)@.appended(parent, child@),
            final(self)@.wf(),
            child matches NodeOrText::AppendNode(c) ==> final(self)@.parent_of(c) == Some(parent)
                && final(self)@.children_of(parent) == old(self)@.children_of(parent).push(c),
    {
        let end = self.nodes[parent].children.len();
        match child {
            NodeOrText::AppendText(text) => self.insert_text(parent, end, text),
            NodeOrText::AppendNode(node) => {
                proof {
                    old(self)@.lemma_linked_wf(parent, end as int, node);
                    assert(old(self)@.children_of(parent).insert(end as int, node) =~= old(
                        self,
                    )@.children_of(parent).push(node));
                }
                self.link(parent, end, node)
            },
        }
    }

    /// Inserts a node or text just before `sibling`, which must have a parent.
    ///
    /// Text is added to the node before `sibling` if that is a text node;
    /// otherwise it becomes a new text node. A node is first taken out of
    /// the parent it has, and then put at the position that `sibling` had
    /// before the call.
    pub fn append_before_sibling(&mut self, sibling: Handle, child: NodeOrText)
        requires
            old(self)@.wf(),
            old(self)@.can_insert_before(sibling, child@),
        ensures
            final(self)@ == old(self)@.inserted_before(sibling, child@),
            final(self)@.wf(),
    {
        proof {
            old(self)@.lemma_child_position(sibling);
        }
        let (parent, index) = match self.get_parent_and_index(sibling) {
            Some(found) => found,
            None => vstd::pervasive::unreached(),
        };
        match child {
            NodeOrText::AppendText(text) => self.insert_text(parent, index, text),
            NodeOrText::AppendNode(node) => {
                proof {
                    old(self)@.lemma_unlinked_wf(node);
                    if old(self)@.unlinked(node).is_inclusive_ancestor(node, parent) {
                        old(self)@.lemma_unlinked_ancestor(node, node, parent);
                    }
                    if old(self)@.parent_of(node) == Some(parent) {
                        old(self)@.lemma_child_position(node);
                    }
                }
                self.unlink(node);
                self.link(parent, index, node);
            },
        }
    }

    /// Inserts before `element` if it has a parent, and appends to
    /// `prev_element` otherwise.
    pub fn append_based_on_parent_node(
        &mut self,
        element: Handle,
        prev_element: Handle,
        child: NodeOrText,
    )
        requires
            old(self)@.wf(),
            old(self)@.contains(element),
            old(self)@.parent_of(element) is Some ==> old(self)@.can_insert_before(element, child@),
            old(self)@.parent_of(element) is None ==> old(self)@.can_append(prev_element, child@),
        ensures
            old(self)@.parent_of(element) is Some ==> final(self)@ == old(self)@.inserted_before(
                element,
                child@,
            ),
            old(self)@.parent_of(element) is None ==> final(self)@ == old(self)@.appended(
                prev_element,
                child@,
            ),
            final(self)@.wf(),
    {
        if self.nodes[element].parent.is_some() {
            self.append_before_sibling(element, child);
        } else {
            self.append(prev_element, child);
        }
    }

    /// Appends a `DOCTYPE` node to the document node.
    pub fn append_doctype_to_document(&mut self, name: String, public_id: String, system_id: String)
        requires
            old(self)@.wf(),
        ensures
            final(self)@ == old(self)@.created(
                NodeDataView::Doctype {
                    name: name@,
                    public_id: public_id@,
                    system_id: system_id@,
                },
            ).linked(
                old(self)@.document,
                old(self)@.children_of(old(self)@.document).len() as int,
                old(self)@.next_handle(),
            ),
            final(self)@.wf(),
    {
        let ghost data = NodeDataView::Doctype {
            name: name@,
            public_id: public_id@,
            system_id: system_id@,
        };
        let document = self.document;
        let end = self.nodes[document].children.len();
        let node = self.allocate(NodeData::Doctype { name, public_id, system_id });
        proof {
            old(self)@.lemma_created_below(data, document);
        }
        self.link(document, end, node);
    }

    /// Takes a node out of its parent's child list and clears its parent
    /// reference. Does nothing to a node without a parent.
    pub fn remove_from_parent(&mut self, target: Handle)
        requires
            old(self)@.wf(),
            old(self)@.contains(target),
        ensures
            final(self)@ == old(self)@.unlinked(target),
            final(self)@.wf(),
            final(self)@.parent_of(target) is None,
            forall|h: Handle|
                old(self)@.contains(h) ==> !(#[trigger] final(self)@.children_of(h)).contains(target),
    {
        proof {
            old(self)@.lemma_unlinked_wf(target);
        }
        self.unlink(target);
    }
}

impl RcDom {
    /// Adds each of `attrs` to an element, except those whose name the
    /// element already had before the call. Existing attributes are never
    /// replaced.
    pub fn add_attrs_if_missing(&mut self, target: Handle, attrs: Vec<Attribute>)
        requires
            old(self)@.wf(),
            old(self)@.contains(target),
            old(self)@.data_of(target) is Element,
        ensures
            final(self)@ == old(self)@.attrs_added(target, attribute_views(attrs@)),
            final(self)@.wf(),
    {
        let ghost incoming = attribute_views(attrs@);
        let ghost existing_view = match old(self)@.data_of(target) {
            NodeDataView::Element { attrs, .. } => attrs,
            _ => Seq::empty(),
        };
        let mut missing: Vec<Attribute> = Vec::new();
        match &self.nodes[target].data {
            NodeData::Element { attrs: existing, .. } => {
                let mut i: usize = 0;
                while i < attrs.len()
                    invariant
                        i <= attrs.len(),
                        incoming == attribute_views(attrs@),
                        existing_view == attribute_views(existing@),
                        attribute_views(missing@) == missing_attributes(
                            existing_view,
                            incoming.take(i as int),
                        ),
                    decreases attrs.len() - i,
                {
                    if !contains_name(existing, &attrs[i].name) {
                        missing.push(attrs[i].clone());
                    }
                    i += 1;
                    proof {
                        let taken = incoming.take(i as int);
                        assert(taken.drop_last() =~= incoming.take(i - 1));
                        assert(taken.last() == incoming[i - 1]);
                        assert(attribute_views(missing@) =~= missing_attributes(
                            existing_view,
                            taken,
                        ));
                    }
                }
                assert(incoming.take(i as int) =~= incoming);
            },
            _ => {},
        }
        match &mut self.nodes[target].data {
            NodeData::Element { attrs: existing, .. } => {
                existing.append(&mut missing);
            },
            _ => {},
        }
        proof {
            let model = old(self)@.attrs_added(target, incoming);
            let added = missing_attributes(existing_view, incoming);
            match self.nodes@[target as int].data {
                NodeData::Element { attrs: existing, .. } => {
                    assert(attribute_views(existing@) =~= existing_view + added);
                },
                _ => {},
            }
            assert(self@.nodes[target as int] == model.nodes[target as int]);
            assert(self@.nodes =~= model.nodes);
            old(self)@.lemma_with_data_wf(target, model.data_of(target));
        }
    }

    /// Moves every child of `node` to the end of the children of
    /// `new_parent`, in order. `node` is left without children.
    pub fn reparent_children(&mut self, node: Handle, new_parent: Handle)
        requires
            old(self)@.wf(),
            old(self)@.can_reparent(node, new_parent),
        ensures
            final(self)@ == old(self)@.reparented(node, new_parent),
            final(self)@.wf(),
            final(self)@.children_of(new_parent) == old(self)@.children_of(new_parent) + old(
                self,
            )@.children_of(node),
            final(self)@.children_of(node) == Seq::<Handle>::empty(),
    {
        let mut moved: Vec<Handle> = Vec::new();
        moved.append(&mut self.nodes[node].children);
        let ghost kids = old(self)@.children_of(node);
        assert(moved@ =~= kids);
        let mut i: usize = 0;
        while i < moved.len()
            invariant
                i <= moved.len(),
                moved@ == kids,
                kids == old(self)@.children_of(node),
                old(self)@.wf(),
                old(self)@.contains(node),
                self@.nodes.len() == old(self)@.nodes.len(),
                self@.document == old(self)@.document,
                self@.errors == old(self)@.errors,
                self@.quirks_mode == old(self)@.quirks_mode,
                forall|h: Handle|
                    old(self)@.contains(h) ==> (#[trigger] self@.nodes[h as int]).data == old(
                        self,
                    )@.data_of(h),
                forall|h: Handle|
                    old(self)@.contains(h) ==> (#[trigger] self@.nodes[h as int]).children == if h
                        == node {
                        Seq::<Handle>::empty()
                    } else {
                        old(self)@.children_of(h)
                    },
                forall|h: Handle|
                    old(self)@.contains(h) ==> (#[trigger] self@.nodes[h as int]).parent == if kids.take(
                        i as int,
                    ).contains(h) {
                        Some(new_parent)
                    } else {
                        old(self)@.parent_of(h)
                    },
            decreases moved.len() - i,
        {
            let child = moved[i];
            assert(old(self)@.children_of(node)[i as int] == child);
            let ghost before = self@;
            self.nodes[child].parent = Some(new_parent);
            i += 1;
            proof {
                assert forall|h: Handle| old(self)@.contains(h) implies #[trigger] self@.nodes[h as int]
                    == if h == child {
                    NodeView { parent: Some(new_parent), ..before.nodes[h as int] }
                } else {
                    before.nodes[h as int]
                } by {}
                let taken = kids.take(i as int);
                assert(taken.drop_last() =~= kids.take(i - 1));
                assert(taken.last() == child);
                assert forall|h: Handle| old(self)@.contains(h) implies (#[trigger] self@.nodes[h as int]).parent
                    == if taken.contains(h) {
                    Some(new_parent)
                } else {
                    old(self)@.parent_of(h)
                } by {
                    if h == child {
                        assert(taken[i - 1] == h);
                    } else {
                        assert(self@.nodes[h as int] == before.nodes[h as int]);
                        let earlier = kids.take(i - 1);
                        if taken.contains(h) {
                            let k = choose|k: int| 0 <= k < taken.len() && taken[k] == h;
                            assert(earlier[k] == h);
                        }
                        if earlier.contains(h) {
                            let k = choose|k: int| 0 <= k < earlier.len() && earlier[k] == h;
                            assert(taken[k] == h);
                        }
                    }
                }
            }
        }
        let ghost mid = self@;
        let size = self.nodes.len();
        self.nodes[new_parent].children.append(&mut moved);
        proof {
            let model = old(self)@.reparented(node, new_parent);
            assert(model.nodes.len() == size);
            assert(kids.take(i as int) =~= kids);
            assert forall|h: int| 0 <= h < model.nodes.len() implies self@.nodes[h]
                =~= model.nodes[h] by {
                let hh = h as Handle;
                assert(old(self)@.contains(hh));
                assert(self@.nodes[hh as int] == if hh == new_parent {
                    NodeView { children: mid.children_of(hh) + kids, ..mid.nodes[hh as int] }
                } else {
                    mid.nodes[hh as int]
                });
                if kids.contains(hh) {
                    let k = choose|k: int| 0 <= k < kids.len() && kids[k] == hh;
                    assert(old(self)@.parent_of(old(self)@.children_of(node)[k]) == Some(node));
                    old(self)@.lemma_ancestor_self(new_parent);
                    assert(!old(self)@.is_inclusive_ancestor(
                        old(self)@.children_of(node)[k],
                        new_parent,
                    ));
                    old(self)@.lemma_owner(hh);
                } else if old(self)@.parent_of(hh) == Some(node) {
                    assert(old(self)@.children_of(node).contains(hh));
                }
            }
            assert(self@.nodes =~= model.nodes);
            old(self)@.lemma_reparented_wf(node, new_parent);
        }
    }

    /// Whether `child` can become a child of `parent`: it is not a document,
    /// and it is not `parent` itself or one of the nodes that own `parent`.
    pub fn can_adopt(&self, parent: Handle, child: Handle) -> (r: bool)
        requires
            self@.wf(),
        ensures
            r == self@.can_adopt(parent, child),
    {
        if parent >= self.nodes.len() || child >= self.nodes.len() {
            return false;
        }
        if let NodeData::Document = &self.nodes[child].data {
            return false;
        }
        !self.is_inclusive_ancestor(child, parent)
    }

    /// Whether [`Self::append`] accepts these arguments.
    pub fn can_append(&self, parent: Handle, child: &NodeOrText) -> (r: bool)
        requires
            self@.wf(),
        ensures
            r == self@.can_append(parent, child@),
    {
        if parent >= self.nodes.len() {
            return false;
        }
        match child {
            NodeOrText::AppendText(_) => true,
            NodeOrText::AppendNode(node) => self.can_adopt(parent, *node)
                && self.nodes[*node].parent.is_none(),
        }
    }

    /// Whether [`Self::append_before_sibling`] accepts these arguments.
    pub fn can_insert_before(&self, sibling: Handle, child: &NodeOrText) -> (r: bool)
        requires
            self@.wf(),
        ensures
            r == self@.can_insert_before(sibling, child@),
    {
        if sibling >= self.nodes.len() {
            return false;
        }
        match self.nodes[sibling].parent {
            None => false,
            Some(parent) => match child {
                NodeOrText::AppendText(_) => true,
                NodeOrText::AppendNode(node) => self.can_adopt(parent, *node),
            },
        }
    }

    /// Whether [`Self::reparent_children`] accepts these arguments.
    pub fn can_reparent(&self, node: Handle, new_parent: Handle) -> (r: bool)
        requires
            self@.wf(),
        ensures
            r == self@.can_reparent(node, new_parent),
    {
        if node >= self.nodes.len() || new_parent >= self.nodes.len() || node == new_parent {
            return false;
        }
        let children = &self.nodes[node].children;
        let mut k: usize = 0;
        while k < children.len()
            invariant
                k <= children.len(),
                self@.wf(),
                self@.contains(node),
                self@.contains(new_parent),
                children@ == self@.children_of(node),
                forall|j: int|
                    0 <= j < k ==> !self@.is_inclusive_ancestor(
                        #[trigger] self@.children_of(node)[j],
                        new_parent,
                    ),
            decreases children.len() - k,
        {
            if self.is_inclusive_ancestor(children[k], new_parent) {
                assert(self@.children_of(node)[k as int] == children[k as int]);
                return false;
            }
            k += 1;
        }
        true
    }
}

/// What a handle can be asked about its place in a tree.
pub trait ParentNode {
    /// The node that is asked.
    spec fn node(&self) -> Handle;

    /// The parent of the node and the node's position among its children.
    fn get_parent_and_index(&self, dom: &RcDom) -> (r: Option<(Handle, usize)>)
        requires
            dom@.wf(),
            dom@.contains(self.node()),
        ensures
            r is None <==> dom@.parent_of(self.node()) is None,
            r matches Some((parent, index)) ==> dom@.parent_of(self.node()) == Some(parent)
                && index == dom@.index_in(parent, self.node()) && index < dom@.children_of(
                parent,
            ).len(),
    ;

    /// Takes the node out of its parent's child list and clears its parent
    /// reference. Does nothing to a node without a parent.
    fn remove_from_parent(&self, dom: &mut RcDom)
        requires
            old(dom)@.wf(),
            old(dom)@.contains(self.node()),
        ensures
            final(dom)@ == old(dom)@.unlinked(self.node()),
            final(dom)@.wf(),
    ;
}

/// What a handle can be asked to take in.
pub trait Appendable: ParentNode {
    /// Makes `child`, which must not have a parent, the last child of the
    /// node.
    fn append(&self, dom: &mut RcDom, child: Handle)
        requires
            old(dom)@.wf(),
            old(dom)@.can_append(self.node(), NodeOrTextView::AppendNode(child)),
        ensures
            final(dom)@ == old(dom)@.appended(self.node(), NodeOrTextView::AppendNode(child)),
            final(dom)@.wf(),
    ;

    /// If the node is a text node, adds `text` to the end of it and returns
    /// `true`; otherwise leaves the tree as it is and returns `false`.
    fn append_to_existing_text(&self, dom: &mut RcDom, text: &str) -> (r: bool)
        requires
            old(dom)@.wf(),
            old(dom)@.contains(self.node()),
        ensures
            r == old(dom)@.is_text(self.node()),
            r ==> final(dom)@ == old(dom)@.text_pushed(self.node(), text@),
            !r ==> final(dom)@ == old(dom)@,
            final(dom)@.wf(),
    ;
}

impl ParentNode for Handle {
    open spec fn node(&self) -> Handle {
        *self
    }

    fn get_parent_and_index(&self, dom: &RcDom) -> (r: Option<(Handle, usize)>) {
        dom.get_parent_and_index(*self)
    }

    fn remove_from_parent(&self, dom: &mut RcDom) {
        dom.remove_from_parent(*self)
    }
}

impl Appendable for Handle {
    fn append(&self, dom: &mut RcDom, child: Handle) {
        dom.append(*self, NodeOrText::AppendNode(child))
    }

    fn append_to_existing_text(&self, dom: &mut RcDom, text: &str) -> (r: bool) {
        dom.append_to_existing_text(*self, text)
    }
}

impl Default for RcDom {
    fn default() -> (r: RcDom)
        ensures
            r@ == empty_dom(),
            r@.wf(),
    {
        RcDom::new()
    }
}

} // verus!
