//! Walking a tree in the order in which its markup is written.
//!
//! The walk does not write markup itself. It yields the events from which a
//! serializer writes it: the start and the end of each element, and each
//! doctype, text, comment and processing instruction, in document order. The
//! walk keeps its own work list, so that its depth does not depend on the
//! depth of the tree.

use vstd::prelude::*;
use vstd::std_specs::convert::FromSpecImpl;

use crate::names::QualName;
use crate::rcdom::{NodeData, RcDom};
use crate::tree::{DomView, Handle, NodeDataView};

verus! {

/// What is written of the node that a walk starts at.
#[derive(Debug)]
pub enum TraversalScope {
    /// The node itself and everything below it.
    IncludeNode,
    /// What is below the node. The name is that of the node as the parent
    /// of what is written; the walk does not use it.
    ChildrenOnly(Option<QualName>),
}

impl TraversalScope {
    /// Whether the node itself is written.
    pub open spec fn includes_node(self) -> bool {
        self is IncludeNode
    }
}

/// One step of writing a tree as markup.
#[derive(Clone, Copy, Debug, PartialEq, Eq, Hash, Structural)]
pub enum SerializeEvent {
    /// The start tag of an element, with its attributes.
    StartElem(Handle),
    /// The end tag of an element.
    EndElem(Handle),
    /// A doctype declaration.
    Doctype(Handle),
    /// The contents of a text node.
    Text(Handle),
    /// A comment.
    Comment(Handle),
    /// A processing instruction.
    ProcessingInstruction(Handle),
}

/// An entry of the work list of a walk.
#[derive(Clone, Copy, Debug, PartialEq, Eq, Hash, Structural)]
pub enum SerializeOp {
    /// A node that is still to be written, with everything below it.
    Open(Handle),
    /// An element whose end tag is still to be written.
    Close(Handle),
}

impl SerializeOp {
    /// The node that the entry is about.
    pub open spec fn handle(self) -> Handle {
        match self {
            SerializeOp::Open(h) => h,
            SerializeOp::Close(h) => h,
        }
    }
}

impl DomView {
    /// The events of the subtree of `h`.
    ///
    /// An element is its start tag, the contents of its template if it has
    /// one, its children, and its end tag. A document is its children. Every
    /// other node is one event.
    pub open spec fn events(self, h: Handle) -> Seq<SerializeEvent>
        decreases self.height(h), self.children_of(h).len() + 1,
        when self.wf() && self.contains(h)
    {
        match self.data_of(h) {
            NodeDataView::Document => self.forest_events(h, 0),
            NodeDataView::Doctype { .. } => seq![SerializeEvent::Doctype(h)],
            NodeDataView::Text { .. } => seq![SerializeEvent::Text(h)],
            NodeDataView::Comment { .. } => seq![SerializeEvent::Comment(h)],
            NodeDataView::ProcessingInstruction { .. } => seq![
                SerializeEvent::ProcessingInstruction(h),
            ],
            NodeDataView::Element { template_contents, .. } => {
                let template = match template_contents {
                    Some(t) => {
                        proof {
                            assert(self.hosts(h, t));
                        }
                        self.forest_events(t, 0)
                    },
                    None => Seq::empty(),
                };
                seq![SerializeEvent::StartElem(h)] + template + self.forest_events(h, 0)
                    + seq![SerializeEvent::EndElem(h)]
            },
        }
    }

    /// The events of the subtrees of the children of `h` from the `k`-th on.
    pub open spec fn forest_events(self, h: Handle, k: nat) -> Seq<SerializeEvent>
        decreases self.height(h), self.children_of(h).len() - k,
        when self.wf() && self.contains(h)
    {
        if k >= self.children_of(h).len() {
            Seq::empty()
        } else {
            self.events(self.children_of(h)[k as int]) + self.forest_events(h, k + 1)
        }
    }

    /// The events of a walk that starts at `h`.
    pub open spec fn serialized(self, h: Handle, include_node: bool) -> Seq<SerializeEvent> {
        if include_node {
            self.events(h)
        } else {
            self.forest_events(h, 0)
        }
    }
}


impl DomView {
    /// The number of steps that a walk takes to write the subtree of `h`:
    /// one for each node below it and itself, and one more for each element.
    pub open spec fn work(self, h: Handle) -> nat
        decreases self.height(h), self.children_of(h).len() + 1,
        when self.wf() && self.contains(h)
    {
        match self.data_of(h) {
            NodeDataView::Document => 1 + self.forest_work(h, 0),
            NodeDataView::Element { template_contents, .. } => {
                let template = match template_contents {
                    Some(t) => {
                        proof {
                            assert(self.hosts(h, t));
                        }
                        self.forest_work(t, 0)
                    },
                    None => 0,
                };
                2 + template + self.forest_work(h, 0)
            },
            _ => 1,
        }
    }

    /// The number of steps that a walk takes to write the subtrees of the
    /// children of `h` from the `k`-th on.
    pub open spec fn forest_work(self, h: Handle, k: nat) -> nat
        decreases self.height(h), self.children_of(h).len() - k,
        when self.wf() && self.contains(h)
    {
        if k >= self.children_of(h).len() {
            0
        } else {
            self.work(self.children_of(h)[k as int]) + self.forest_work(h, k + 1)
        }
    }

    /// The events that an entry of the work list stands for.
    pub open spec fn op_events(self, op: SerializeOp) -> Seq<SerializeEvent> {
        match op {
            SerializeOp::Open(h) => self.events(h),
            SerializeOp::Close(h) => seq![SerializeEvent::EndElem(h)],
        }
    }

    /// The number of steps that an entry of the work list stands for.
    pub open spec fn op_work(self, op: SerializeOp) -> nat {
        match op {
            SerializeOp::Open(h) => self.work(h),
            SerializeOp::Close(h) => 1,
        }
    }

    /// The events that a work list stands for: those of its last entry
    /// first.
    pub open spec fn pending(self, ops: Seq<SerializeOp>) -> Seq<SerializeEvent>
        decreases ops.len(),
    {
        if ops.len() == 0 {
            Seq::empty()
        } else {
            self.op_events(ops.last()) + self.pending(ops.drop_last())
        }
    }

    /// The number of steps that a work list stands for.
    pub open spec fn pending_work(self, ops: Seq<SerializeOp>) -> nat
        decreases ops.len(),
    {
        if ops.len() == 0 {
            0
        } else {
            self.op_work(ops.last()) + self.pending_work(ops.drop_last())
        }
    }

    /// Whether every entry of a work list is about a node of the arena.
    pub open spec fn ops_valid(self, ops: Seq<SerializeOp>) -> bool {
        forall|i: int| 0 <= i < ops.len() ==> self.contains((#[trigger] ops[i]).handle())
    }

    /// Putting an entry on a work list puts its events and its steps before
    /// those of the list.
    pub proof fn lemma_pending_push(self, ops: Seq<SerializeOp>, op: SerializeOp)
        ensures
            self.pending(ops.push(op)) == self.op_events(op) + self.pending(ops),
            self.pending_work(ops.push(op)) == self.op_work(op) + self.pending_work(ops),
    {
        assert(ops.push(op).drop_last() =~= ops);
    }
}

/// Puts the children of `h` on the work list, the last child first, so that
/// they are taken off in document order.
fn push_children(dom: &RcDom, h: Handle, ops: &mut Vec<SerializeOp>)
    requires
        dom@.wf(),
        dom@.contains(h),
        dom@.ops_valid(old(ops)@),
    ensures
        dom@.ops_valid(final(ops)@),
        dom@.pending(final(ops)@) == dom@.forest_events(h, 0) + dom@.pending(old(ops)@),
        dom@.pending_work(final(ops)@) == dom@.forest_work(h, 0) + dom@.pending_work(old(ops)@),
{
    let children = &dom.node(h).children;
    let mut i: usize = children.len();
    while i > 0
        invariant
            i <= children.len(),
            dom@.wf(),
            dom@.contains(h),
            children@ == dom@.children_of(h),
            dom@.ops_valid(ops@),
            dom@.pending(ops@) == dom@.forest_events(h, i as nat) + dom@.pending(old(ops)@),
            dom@.pending_work(ops@) == dom@.forest_work(h, i as nat) + dom@.pending_work(
                old(ops)@,
            ),
        decreases i,
    {
        i -= 1;
        let child = children[i];
        proof {
            dom@.lemma_pending_push(ops@, SerializeOp::Open(child));
            assert(dom@.contains(dom@.children_of(h)[i as int]));
            assert(dom@.forest_events(h, i as nat) == dom@.events(child) + dom@.forest_events(
                h,
                (i + 1) as nat,
            ));
            assert(dom@.events(child) + (dom@.forest_events(h, (i + 1) as nat) + dom@.pending(
                old(ops)@,
            )) =~= dom@.forest_events(h, i as nat) + dom@.pending(old(ops)@));
        }
        ops.push(SerializeOp::Open(child));
    }
}

/// A node that can be written as markup.
#[derive(Clone, Copy, Debug)]
pub struct SerializableHandle(pub Handle);

impl SerializableHandle {
    /// The events from which the markup of the node is written, in order.
    ///
    /// With [`TraversalScope::IncludeNode`] these are the events of the node
    /// and of everything below it; with [`TraversalScope::ChildrenOnly`]
    /// those of what is below it.
    pub fn serialize(&self, dom: &RcDom, traversal_scope: TraversalScope) -> (r: Vec<SerializeEvent>)
        requires
            dom@.wf(),
            dom@.contains(self.0),
        ensures
            r@ == dom@.serialized(self.0, traversal_scope.includes_node()),
    {
        let ghost target = dom@.serialized(self.0, traversal_scope.includes_node());
        let mut ops: Vec<SerializeOp> = Vec::new();
        match traversal_scope {
            TraversalScope::IncludeNode => {
                proof {
                    dom@.lemma_pending_push(ops@, SerializeOp::Open(self.0));
                }
                ops.push(SerializeOp::Open(self.0));
            },
            TraversalScope::ChildrenOnly(_) => {
                push_children(dom, self.0, &mut ops);
            },
        }
        let mut out: Vec<SerializeEvent> = Vec::new();
        assert(out@ + dom@.pending(ops@) =~= target);
        while ops.len() > 0
            invariant
                dom@.wf(),
                dom@.ops_valid(ops@),
                out@ + dom@.pending(ops@) == target,
            decreases dom@.pending_work(ops@),
        {
            let ghost before = ops@;
            let ghost written = out@;
            let op = ops.pop().unwrap();
            proof {
                assert(before.drop_last() =~= ops@);
                assert(before.last() == op);
                assert(dom@.contains(before[before.len() - 1].handle()));
                assert forall|i: int| 0 <= i < ops@.len() implies dom@.contains(
                    (#[trigger] ops@[i]).handle(),
                ) by {
                    assert(ops@[i] == before[i]);
                }
            }
            match op {
                SerializeOp::Close(h) => {
                    out.push(SerializeEvent::EndElem(h));
                },
                SerializeOp::Open(h) => {
                    match &dom.node(h).data {
                        NodeData::Element { template_contents, .. } => {
                            out.push(SerializeEvent::StartElem(h));
                            proof {
                                dom@.lemma_pending_push(ops@, SerializeOp::Close(h));
                            }
                            ops.push(SerializeOp::Close(h));
                            push_children(dom, h, &mut ops);
                            if let Some(contents) = template_contents {
                                assert(dom@.hosts(h, *contents));
                                push_children(dom, *contents, &mut ops);
                            }
                        },
                        NodeData::Doctype { .. } => {
                            out.push(SerializeEvent::Doctype(h));
                        },
                        NodeData::Text { .. } => {
                            out.push(SerializeEvent::Text(h));
                        },
                        NodeData::Comment { .. } => {
                            out.push(SerializeEvent::Comment(h));
                        },
                        NodeData::ProcessingInstruction { .. } => {
                            out.push(SerializeEvent::ProcessingInstruction(h));
                        },
                        NodeData::Document => {
                            push_children(dom, h, &mut ops);
                        },
                    }
                },
            }
            assert(out@ + dom@.pending(ops@) =~= written + dom@.pending(before));
        }
        assert(out@ + dom@.pending(ops@) =~= out@);
        out
    }
}

impl From<Handle> for SerializableHandle {
    fn from(handle: Handle) -> (r: SerializableHandle) {
        SerializableHandle(handle)
    }
}

impl FromSpecImpl<Handle> for SerializableHandle {
    open spec fn obeys_from_spec() -> bool {
        true
    }

    open spec fn from_spec(handle: Handle) -> SerializableHandle {
        SerializableHandle(handle)
    }
}

} // verus!
