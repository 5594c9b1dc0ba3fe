//! The document tree as a mathematical value: an arena of nodes that refer to
//! each other by index, what it means for such an arena to be a well-formed
//! forest, and what each tree operation does to it.

use vstd::prelude::*;

use crate::names::{missing_attributes, AttributeView, QualNameView};
use crate::quirks_mode::QuirksMode;

verus! {

/// A reference to a node: its index in the arena. Two handles denote the same
/// node exactly when they are equal.
pub type Handle = usize;

/// What a node is and what it carries.
#[allow(inconsistent_fields)]
pub enum NodeDataView {
    Document,
    Doctype { name: Seq<char>, public_id: Seq<char>, system_id: Seq<char> },
    Text { contents: Seq<char> },
    Comment { contents: Seq<char> },
    Element {
        name: QualNameView,
        attrs: Seq<AttributeView>,
        template_contents: Option<Handle>,
        mathml_annotation_xml_integration_point: bool,
    },
    ProcessingInstruction { target: Seq<char>, contents: Seq<char> },
}

impl NodeDataView {
    /// The template contents of an element that has them.
    pub open spec fn template(self) -> Option<Handle> {
        match self {
            NodeDataView::Element { template_contents, .. } => template_contents,
            _ => None,
        }
    }
}

/// A node of the arena.
pub struct NodeView {
    pub parent: Option<Handle>,
    pub children: Seq<Handle>,
    pub data: NodeDataView,
}

/// A witness that an arena has no cycles: a height for every node that is
/// below the height of the node's parent, and below the height of the element
/// whose template contents the node is.
pub struct Ranking {
    pub heights: Seq<nat>,
    pub bound: nat,
}

/// A document under construction.
pub struct DomView {
    /// Every node that was ever created, attached or not.
    pub nodes: Seq<NodeView>,
    /// The root of the document.
    pub document: Handle,
    /// The parse errors recorded so far, oldest first.
    pub errors: Seq<Seq<char>>,
    pub quirks_mode: QuirksMode,
}

impl DomView {
    /// Whether `h` is the handle of a node of the arena.
    pub open spec fn contains(self, h: Handle) -> bool {
        h < self.nodes.len()
    }

    /// The parent of a node, if it is attached.
    pub open spec fn parent_of(self, h: Handle) -> Option<Handle> {
        self.nodes[h as int].parent
    }

    /// The children of a node, in document order.
    pub open spec fn children_of(self, h: Handle) -> Seq<Handle> {
        self.nodes[h as int].children
    }

    /// What a node is and carries.
    pub open spec fn data_of(self, h: Handle) -> NodeDataView {
        self.nodes[h as int].data
    }

    /// The document that holds the contents of a template element.
    pub open spec fn template_of(self, h: Handle) -> Option<Handle> {
        self.nodes[h as int].data.template()
    }

    /// Whether `t` is the template contents of the element `e`.
    pub open spec fn hosts(self, e: Handle, t: Handle) -> bool {
        self.contains(e) && self.template_of(e) == Some(t)
    }

    /// The element whose template contents `t` is, if there is one.
    pub open spec fn host_of(self, t: Handle) -> Option<Handle> {
        if exists|e: Handle| self.hosts(e, t) {
            Some(choose|e: Handle| self.hosts(e, t))
        } else {
            None
        }
    }

    /// The node that owns `x`: its parent, or for template contents the
    /// element they belong to.
    pub open spec fn owner_of(self, x: Handle) -> Option<Handle> {
        match self.parent_of(x) {
            Some(p) => Some(p),
            None => self.host_of(x),
        }
    }

    /// The links between the nodes are consistent: child lists and parent
    /// references agree, no node is listed twice, and template contents are
    /// documents of their own.
    pub open spec fn links_wf(self) -> bool {
        &&& self.contains(self.document)
        &&& self.data_of(self.document) is Document
        &&& forall|h: Handle, k: int|
            self.contains(h) && 0 <= k < self.children_of(h).len() ==> {
                let c = #[trigger] self.children_of(h)[k];
                self.contains(c) && self.parent_of(c) == Some(h)
            }
        &&& forall|h: Handle| self.contains(h) ==> #[trigger] self.children_of(h).no_duplicates()
        &&& forall|h: Handle|
            self.contains(h) ==> (#[trigger] self.parent_of(h) matches Some(p) ==> self.contains(p)
                && self.children_of(p).contains(h))
        &&& forall|h: Handle|
            self.contains(h) && #[trigger] self.data_of(h) is Document ==> self.parent_of(h) is None
        &&& forall|e: Handle, t: Handle| #[trigger]
            self.hosts(e, t) ==> self.contains(t) && self.data_of(t) is Document && t
                != self.document
        &&& forall|e1: Handle, e2: Handle, t: Handle|
            #![trigger self.hosts(e1, t), self.hosts(e2, t)]
            self.hosts(e1, t) && self.hosts(e2, t) ==> e1 == e2
    }

    /// Whether `r` gives every node a height below that of its owner.
    pub open spec fn ranked_by(self, r: Ranking) -> bool {
        &&& r.heights.len() == self.nodes.len()
        &&& forall|h: int| 0 <= h < r.heights.len() ==> #[trigger] r.heights[h] <= r.bound
        &&& forall|h: Handle|
            self.contains(h) ==> (#[trigger] self.parent_of(h) matches Some(p) ==> r.heights[h as int]
                < r.heights[p as int])
        &&& forall|e: Handle, t: Handle| #[trigger]
            self.hosts(e, t) ==> r.heights[t as int] < r.heights[e as int]
    }

    /// The arena is a forest: its links are consistent and no node is its own
    /// ancestor, directly or through template contents.
    pub open spec fn wf(self) -> bool {
        &&& self.links_wf()
        &&& exists|r: Ranking| self.ranked_by(r)
    }

    /// Some ranking of a well-formed arena.
    pub open spec fn ranking(self) -> Ranking {
        choose|r: Ranking| self.ranked_by(r)
    }

    /// The height of a node in [`Self::ranking`].
    pub open spec fn height(self, h: Handle) -> nat {
        self.ranking().heights[h as int]
    }

    /// Whether `a` is `x` or owns it, directly or through other nodes.
    pub open spec fn is_inclusive_ancestor(self, a: Handle, x: Handle) -> bool
        decreases self.ranking().bound - self.height(x),
        when self.wf() && self.contains(x)
    {
        if x == a {
            true
        } else {
            match self.owner_of(x) {
                Some(o) => self.is_inclusive_ancestor(a, o),
                None => false,
            }
        }
    }
}

/// Inserting a value that a duplicate-free sequence does not hold leaves it
/// duplicate-free, and adds that value and no other.
pub proof fn lemma_insert_fresh<A>(s: Seq<A>, i: int, a: A)
    requires
        0 <= i <= s.len(),
        s.no_duplicates(),
        !s.contains(a),
    ensures
        s.insert(i, a).no_duplicates(),
        s.insert(i, a).len() == s.len() + 1,
        s.insert(i, a)[i] == a,
        forall|x: A| s.insert(i, a).contains(x) <==> x == a || s.contains(x),
{
    let t = s.insert(i, a);
    s.insert_ensures(i, a);
    assert forall|j: int, k: int| 0 <= j < t.len() && 0 <= k < t.len() && j != k implies t[j]
        != t[k] by {
        let oj = if j < i { j } else { j - 1 };
        let ok = if k < i { k } else { k - 1 };
        if j != i && k != i {
            assert(t[j] == s[oj] && t[k] == s[ok]);
        } else if j == i {
            assert(t[k] == s[ok]);
        } else {
            assert(t[j] == s[oj]);
        }
    }
    assert forall|x: A| t.contains(x) <==> x == a || s.contains(x) by {
        if t.contains(x) {
            let j = choose|j: int| 0 <= j < t.len() && t[j] == x;
            if j != i {
                let oj = if j < i { j } else { j - 1 };
                assert(t[j] == s[oj]);
            }
        }
        if s.contains(x) {
            let j = choose|j: int| 0 <= j < s.len() && s[j] == x;
            if j < i {
                assert(t[j] == x);
            } else {
                assert(t[j + 1] == x);
            }
        }
    }
}

/// Removing an element of a duplicate-free sequence leaves it duplicate-free,
/// and removes that value and no other.
pub proof fn lemma_remove_unique<A>(s: Seq<A>, i: int)
    requires
        0 <= i < s.len(),
        s.no_duplicates(),
    ensures
        s.remove(i).no_duplicates(),
        s.remove(i).len() == s.len() - 1,
        forall|x: A| s.remove(i).contains(x) <==> x != s[i] && s.contains(x),
{
    let t = s.remove(i);
    s.remove_ensures(i);
    assert forall|j: int, k: int| 0 <= j < t.len() && 0 <= k < t.len() && j != k implies t[j]
        != t[k] by {
        let oj = if j < i { j } else { j + 1 };
        let ok = if k < i { k } else { k + 1 };
        assert(t[j] == s[oj] && t[k] == s[ok]);
    }
    assert forall|x: A| t.contains(x) <==> x != s[i] && s.contains(x) by {
        if t.contains(x) {
            let j = choose|j: int| 0 <= j < t.len() && t[j] == x;
            let oj = if j < i { j } else { j + 1 };
            assert(t[j] == s[oj]);
        }
        if x != s[i] && s.contains(x) {
            let j = choose|j: int| 0 <= j < s.len() && s[j] == x;
            if j < i {
                assert(t[j] == x);
            } else {
                assert(t[j - 1] == x);
            }
        }
    }
}

impl DomView {
    /// The arena with one more node, attached to nothing.
    pub open spec fn created(self, data: NodeDataView) -> DomView {
        DomView {
            nodes: self.nodes.push(NodeView { parent: None, children: Seq::empty(), data }),
            ..self
        }
    }

    /// The arena in which the parentless node `child` has become the child of
    /// `parent` at position `index`.
    pub open spec fn linked(self, parent: Handle, index: int, child: Handle) -> DomView {
        let c = self.nodes[child as int];
        let p = self.nodes[parent as int];
        DomView {
            nodes: self.nodes.update(child as int, NodeView { parent: Some(parent), ..c }).update(
                parent as int,
                NodeView { children: p.children.insert(index, child), ..p },
            ),
            ..self
        }
    }

    /// The position of `child` among the children of `parent`.
    pub open spec fn index_in(self, parent: Handle, child: Handle) -> int {
        self.children_of(parent).index_of(child)
    }

    /// The arena in which `child` has been taken out of its parent's child
    /// list: the arena itself if `child` has no parent.
    pub open spec fn unlinked(self, child: Handle) -> DomView {
        match self.parent_of(child) {
            None => self,
            Some(p) => {
                let c = self.nodes[child as int];
                let pn = self.nodes[p as int];
                DomView {
                    nodes: self.nodes.update(
                        p as int,
                        NodeView { children: pn.children.remove(self.index_in(p, child)), ..pn },
                    ).update(child as int, NodeView { parent: None, ..c }),
                    ..self
                }
            },
        }
    }

    /// The arena in which the node `h` carries `data`.
    pub open spec fn with_data(self, h: Handle, data: NodeDataView) -> DomView {
        DomView {
            nodes: self.nodes.update(h as int, NodeView { data, ..self.nodes[h as int] }),
            ..self
        }
    }

    /// Whether an arena is well formed depends on its nodes and on which of
    /// them is the document, and on nothing else.
    pub proof fn lemma_wf_of_nodes(self, other: DomView)
        requires
            self.nodes == other.nodes,
            self.document == other.document,
        ensures
            self.wf() == other.wf(),
    {
        if self.wf() {
            self.lemma_wf_carries(other);
        }
        if other.wf() {
            other.lemma_wf_carries(self);
        }
    }

    /// An arena with the nodes and the document of a well-formed arena is
    /// well formed.
    proof fn lemma_wf_carries(self, other: DomView)
        requires
            self.wf(),
            self.nodes == other.nodes,
            self.document == other.document,
        ensures
            other.wf(),
    {
        let r = self.ranking();
        assert(self.ranked_by(r));
        assert forall|e: Handle, t: Handle| #[trigger] other.hosts(e, t) implies self.hosts(e, t) by {}
        assert forall|h: Handle, k: int|
            other.contains(h) && 0 <= k < other.children_of(h).len() implies {
            let c = #[trigger] other.children_of(h)[k];
            other.contains(c) && other.parent_of(c) == Some(h)
        } by {
            assert(self.parent_of(self.children_of(h)[k]) == Some(h));
        }
        assert forall|h: Handle| other.contains(h) implies #[trigger] other.children_of(
            h,
        ).no_duplicates() by {
            assert(self.children_of(h).no_duplicates());
        }
        assert forall|h: Handle| other.contains(h) implies (#[trigger] other.parent_of(h) matches Some(
            p,
        ) ==> other.contains(p) && other.children_of(p).contains(h)) by {
            assert(self.parent_of(h) == other.parent_of(h));
        }
        assert forall|h: Handle| other.contains(h) && #[trigger] other.data_of(h) is Document implies other.parent_of(
            h,
        ) is None by {
            assert(self.data_of(h) is Document);
        }
        assert forall|e: Handle, t: Handle| #[trigger] other.hosts(e, t) implies other.contains(t)
            && other.data_of(t) is Document && t != other.document by {
            assert(self.hosts(e, t));
        }
        assert forall|e1: Handle, e2: Handle, t: Handle|
            #![trigger other.hosts(e1, t), other.hosts(e2, t)]
            other.hosts(e1, t) && other.hosts(e2, t) implies e1 == e2 by {
            assert(self.hosts(e1, t) && self.hosts(e2, t));
        }
        assert(other.links_wf());
        assert forall|h: Handle| other.contains(h) implies (#[trigger] other.parent_of(h) matches Some(
            p,
        ) ==> r.heights[h as int] < r.heights[p as int]) by {
            assert(self.parent_of(h) == other.parent_of(h));
        }
        assert(other.ranked_by(r));
    }

    /// The owner of a node is in the arena and is higher than the node.
    pub proof fn lemma_owner(self, x: Handle)
        requires
            self.wf(),
            self.contains(x),
            self.owner_of(x) is Some,
        ensures
            self.contains(self.owner_of(x)->0),
            self.height(x) < self.height(self.owner_of(x)->0) <= self.ranking().bound,
    {
        let r = self.ranking();
        assert(self.ranked_by(r));
        match self.parent_of(x) {
            Some(p) => {},
            None => {
                let e = choose|e: Handle| self.hosts(e, x);
                assert(self.hosts(e, x));
            },
        }
    }

    /// The element that has `t` as its template contents is the owner of `t`.
    pub proof fn lemma_host_is_owner(self, e: Handle, t: Handle)
        requires
            self.links_wf(),
            self.hosts(e, t),
        ensures
            self.owner_of(t) == Some(e),
    {
        let e2 = choose|e2: Handle| self.hosts(e2, t);
        assert(self.hosts(e2, t));
    }

    /// Every node is its own inclusive ancestor.
    pub proof fn lemma_ancestor_self(self, x: Handle)
        requires
            self.wf(),
            self.contains(x),
        ensures
            self.is_inclusive_ancestor(x, x),
    {
    }

    /// The owner of an inclusive ancestor of `x` is an inclusive ancestor of `x`.
    pub proof fn lemma_ancestor_closed(self, y: Handle, x: Handle)
        requires
            self.wf(),
            self.contains(x),
            self.contains(y),
            self.is_inclusive_ancestor(y, x),
            self.owner_of(y) is Some,
        ensures
            self.is_inclusive_ancestor(self.owner_of(y)->0, x),
        decreases self.ranking().bound - self.height(x),
    {
        let p = self.owner_of(y)->0;
        if x == y {
            self.lemma_owner(x);
            self.lemma_ancestor_self(p);
        } else {
            self.lemma_owner(x);
            let o = self.owner_of(x)->0;
            self.lemma_ancestor_closed(y, o);
        }
    }

    /// Creating a node keeps the arena well formed, provided that template
    /// contents handed to a new element are a document of their own that no
    /// other element has.
    pub proof fn lemma_created_wf(self, data: NodeDataView)
        requires
            self.wf(),
            data.template() matches Some(t) ==> self.contains(t) && self.data_of(t) is Document
                && t != self.document && self.host_of(t) is None,
            self.nodes.len() < usize::MAX,
        ensures
            self.created(data).wf(),
    {
        let new = self.created(data);
        let n = self.nodes.len() as Handle;
        let r = self.ranking();
        assert(self.ranked_by(r));
        assert forall|h: Handle| self.contains(h) implies new.nodes[h as int]
            == self.nodes[h as int] by {}
        assert forall|e: Handle, t: Handle| #[trigger] new.hosts(e, t) implies (self.hosts(e, t)
            || (e == n && data.template() == Some(t))) by {}
        assert forall|h: Handle, k: int|
            new.contains(h) && 0 <= k < new.children_of(h).len() implies {
            let c = #[trigger] new.children_of(h)[k];
            new.contains(c) && new.parent_of(c) == Some(h)
        } by {
            assert(self.children_of(h)[k] == new.children_of(h)[k]);
        }
        assert forall|h: Handle| new.contains(h) implies (#[trigger] new.parent_of(h) matches Some(
            p,
        ) ==> new.contains(p) && new.children_of(p).contains(h)) by {
            if h != n {
                assert(self.parent_of(h) == new.parent_of(h));
            }
        }
        assert forall|e1: Handle, e2: Handle, t: Handle|
            #![trigger new.hosts(e1, t), new.hosts(e2, t)]
            new.hosts(e1, t) && new.hosts(e2, t) implies e1 == e2 by {
            if e1 != e2 {
                if e1 == n {
                    assert(self.hosts(e2, t));
                } else if e2 == n {
                    assert(self.hosts(e1, t));
                } else {
                    assert(self.hosts(e1, t) && self.hosts(e2, t));
                }
            }
        }
        assert forall|h: Handle| new.contains(h) implies #[trigger] new.children_of(
            h,
        ).no_duplicates() by {
            if h != n {
                assert(self.children_of(h).no_duplicates());
            }
        }
        assert forall|h: Handle| new.contains(h) && #[trigger] new.data_of(h) is Document implies new.parent_of(
            h,
        ) is None by {
            if h != n {
                assert(self.data_of(h) is Document);
            }
        }
        assert(new.links_wf());
        let top: nat = match data.template() {
            Some(t) => r.heights[t as int] + 1,
            None => 0,
        };
        let r2 = Ranking { heights: r.heights.push(top), bound: r.bound + 1 };
        assert forall|h: Handle| new.contains(h) implies (#[trigger] new.parent_of(h) matches Some(
            p,
        ) ==> r2.heights[h as int] < r2.heights[p as int]) by {
            if h != n {
                assert(self.parent_of(h) == new.parent_of(h));
            }
        }
        assert forall|e: Handle, t: Handle| #[trigger] new.hosts(e, t) implies r2.heights[t as int]
            < r2.heights[e as int] by {
            if e != n {
                assert(self.hosts(e, t));
            }
        }
        assert(new.ranked_by(r2));
    }

    /// Changing what a node carries keeps the arena well formed, provided
    /// that the node stays of its kind and keeps its template contents.
    pub proof fn lemma_with_data_wf(self, h: Handle, data: NodeDataView)
        requires
            self.wf(),
            self.contains(h),
            data.template() == self.template_of(h),
            data is Document <==> self.data_of(h) is Document,
        ensures
            self.with_data(h, data).wf(),
    {
        let new = self.with_data(h, data);
        let r = self.ranking();
        assert(self.ranked_by(r));
        assert forall|x: Handle| self.contains(x) implies new.parent_of(x) == self.parent_of(x)
            && new.children_of(x) == self.children_of(x) && new.template_of(x)
            == self.template_of(x) && (new.data_of(x) is Document <==> self.data_of(x) is Document) by {}
        assert forall|e: Handle, t: Handle| #[trigger] new.hosts(e, t) implies self.hosts(e, t) by {}
        assert forall|x: Handle, k: int|
            new.contains(x) && 0 <= k < new.children_of(x).len() implies {
            let c = #[trigger] new.children_of(x)[k];
            new.contains(c) && new.parent_of(c) == Some(x)
        } by {
            assert(self.children_of(x)[k] == new.children_of(x)[k]);
        }
        assert forall|x: Handle| new.contains(x) implies (#[trigger] new.parent_of(x) matches Some(
            p,
        ) ==> new.contains(p) && new.children_of(p).contains(x)) by {
            assert(self.parent_of(x) == new.parent_of(x));
        }
        assert forall|x: Handle| new.contains(x) && #[trigger] new.data_of(x) is Document implies new.parent_of(
            x,
        ) is None by {
            assert(self.data_of(x) is Document);
        }
        assert forall|e1: Handle, e2: Handle, t: Handle|
            #![trigger new.hosts(e1, t), new.hosts(e2, t)]
            new.hosts(e1, t) && new.hosts(e2, t) implies e1 == e2 by {
            assert(self.hosts(e1, t) && self.hosts(e2, t));
        }
        assert forall|e: Handle, t: Handle| #[trigger] new.hosts(e, t) implies new.contains(t)
            && new.data_of(t) is Document && t != new.document by {
            assert(self.hosts(e, t));
        }
        assert(new.links_wf());
        assert forall|x: Handle| new.contains(x) implies (#[trigger] new.parent_of(x) matches Some(
            p,
        ) ==> r.heights[x as int] < r.heights[p as int]) by {
            assert(self.parent_of(x) == new.parent_of(x));
        }
        assert(new.ranked_by(r));
    }
}


impl DomView {
    /// A node with a parent is listed once among that parent's children, and
    /// is neither a document nor its own parent.
    pub proof fn lemma_child_position(self, child: Handle)
        requires
            self.wf(),
            self.contains(child),
            self.parent_of(child) is Some,
        ensures
            self.contains(self.parent_of(child)->0),
            self.parent_of(child)->0 != child,
            0 <= self.index_in(self.parent_of(child)->0, child) < self.children_of(
                self.parent_of(child)->0,
            ).len(),
            self.children_of(self.parent_of(child)->0)[self.index_in(
                self.parent_of(child)->0,
                child,
            )] == child,
            !(self.data_of(child) is Document),
            self.host_of(child) is None,
    {
        let p = self.parent_of(child)->0;
        assert(self.children_of(p).contains(child));
        self.lemma_owner(child);
        if self.host_of(child) is Some {
            let e = choose|e: Handle| self.hosts(e, child);
            assert(self.hosts(e, child));
        }
    }

    /// A node without a parent is in no child list.
    pub proof fn lemma_parentless_unlisted(self, child: Handle)
        requires
            self.links_wf(),
            self.contains(child),
            self.parent_of(child) is None,
        ensures
            forall|h: Handle| self.contains(h) ==> !(#[trigger] self.children_of(h)).contains(child),
    {
        assert forall|h: Handle| self.contains(h) implies !(#[trigger] self.children_of(h)).contains(
            child,
        ) by {
            if self.children_of(h).contains(child) {
                let k = choose|k: int|
                    0 <= k < self.children_of(h).len() && self.children_of(h)[k] == child;
                assert(self.parent_of(self.children_of(h)[k]) == Some(h));
            }
        }
    }

    /// Taking a node out of its parent keeps the arena well formed. The node
    /// then has no parent and is in no child list, and nothing else changes.
    pub proof fn lemma_unlinked_wf(self, child: Handle)
        requires
            self.wf(),
            self.contains(child),
        ensures
            self.unlinked(child).wf(),
            self.unlinked(child).nodes.len() == self.nodes.len(),
            self.unlinked(child).parent_of(child) is None,
            forall|h: Handle|
                self.contains(h) ==> !(#[trigger] self.unlinked(child).children_of(h)).contains(
                    child,
                ),
            forall|h: Handle|
                self.contains(h) ==> #[trigger] self.unlinked(child).data_of(h) == self.data_of(h),
            forall|h: Handle|
                self.contains(h) && h != child ==> #[trigger] self.unlinked(child).parent_of(h)
                    == self.parent_of(h),
            forall|h: Handle|
                self.contains(h) && self.parent_of(child) != Some(h) ==> #[trigger] self.unlinked(
                    child,
                ).children_of(h) == self.children_of(h),
            self.parent_of(child) matches Some(p) ==> self.unlinked(child).children_of(p)
                == self.children_of(p).remove(self.index_in(p, child)),
    {
        let new = self.unlinked(child);
        if self.parent_of(child) is None {
            self.lemma_parentless_unlisted(child);
        } else {
            let p = self.parent_of(child)->0;
            let i = self.index_in(p, child);
            self.lemma_child_position(child);
            lemma_remove_unique(self.children_of(p), i);
            let r = self.ranking();
            assert(self.ranked_by(r));
            assert forall|h: Handle| self.contains(h) implies new.data_of(h) == self.data_of(h) && (h
                != child ==> new.parent_of(h) == self.parent_of(h)) && (h != p ==> new.children_of(h)
                == self.children_of(h)) by {}
            assert forall|e: Handle, t: Handle| #[trigger] new.hosts(e, t) implies self.hosts(e, t) by {}
            assert forall|h: Handle, k: int|
                new.contains(h) && 0 <= k < new.children_of(h).len() implies {
                let c = #[trigger] new.children_of(h)[k];
                new.contains(c) && new.parent_of(c) == Some(h)
            } by {
                let c = new.children_of(h)[k];
                assert(new.children_of(h).contains(c));
                if h == p {
                    assert(self.children_of(p).contains(c));
                    let k0 = choose|k0: int|
                        0 <= k0 < self.children_of(p).len() && self.children_of(p)[k0] == c;
                    assert(self.parent_of(self.children_of(p)[k0]) == Some(p));
                } else {
                    assert(self.parent_of(self.children_of(h)[k]) == Some(h));
                }
            }
            assert forall|h: Handle| new.contains(h) implies #[trigger] new.children_of(
                h,
            ).no_duplicates() by {
                assert(self.children_of(h).no_duplicates());
            }
            assert forall|h: Handle| new.contains(h) implies (#[trigger] new.parent_of(h) matches Some(
                q,
            ) ==> new.contains(q) && new.children_of(q).contains(h)) by {
                if h != child {
                    assert(self.parent_of(h) == new.parent_of(h));
                }
            }
            assert forall|h: Handle| new.contains(h) && #[trigger] new.data_of(h) is Document implies new.parent_of(
                h,
            ) is None by {
                assert(self.data_of(h) is Document);
            }
            assert forall|e: Handle, t: Handle| #[trigger] new.hosts(e, t) implies new.contains(t)
                && new.data_of(t) is Document && t != new.document by {
                assert(self.hosts(e, t));
            }
            assert forall|e1: Handle, e2: Handle, t: Handle|
                #![trigger new.hosts(e1, t), new.hosts(e2, t)]
                new.hosts(e1, t) && new.hosts(e2, t) implies e1 == e2 by {
                assert(self.hosts(e1, t) && self.hosts(e2, t));
            }
            assert(new.links_wf());
            assert forall|h: Handle| new.contains(h) implies (#[trigger] new.parent_of(h) matches Some(
                q,
            ) ==> r.heights[h as int] < r.heights[q as int]) by {
                if h != child {
                    assert(self.parent_of(h) == new.parent_of(h));
                }
            }
            assert(new.ranked_by(r));
            assert forall|h: Handle| self.contains(h) implies !(#[trigger] new.children_of(h)).contains(
                child,
            ) by {
                if h != p && new.children_of(h).contains(child) {
                    let k = choose|k: int|
                        0 <= k < self.children_of(h).len() && self.children_of(h)[k] == child;
                    assert(self.parent_of(self.children_of(h)[k]) == Some(h));
                }
            }
        }
    }

    /// Taking a node out of its parent gives no node a new ancestor.
    pub proof fn lemma_unlinked_ancestor(self, child: Handle, a: Handle, x: Handle)
        requires
            self.wf(),
            self.contains(child),
            self.contains(x),
            self.unlinked(child).is_inclusive_ancestor(a, x),
        ensures
            self.is_inclusive_ancestor(a, x),
        decreases self.unlinked(child).ranking().bound - self.unlinked(child).height(x),
    {
        let new = self.unlinked(child);
        self.lemma_unlinked_wf(child);
        if x != a {
            let o = new.owner_of(x)->0;
            new.lemma_owner(x);
            if self.parent_of(child) is Some {
                self.lemma_child_position(child);
            }
            assert forall|e: Handle| new.hosts(e, x) == self.hosts(e, x) by {}
            assert(new.host_of(x) == self.host_of(x));
            assert(self.owner_of(x) == Some(o));
            self.lemma_unlinked_ancestor(child, a, o);
        }
    }

    /// Making a parentless node the child of a node that it does not own
    /// keeps the arena well formed.
    pub proof fn lemma_linked_wf(self, parent: Handle, index: int, child: Handle)
        requires
            self.wf(),
            self.contains(parent),
            self.contains(child),
            self.parent_of(child) is None,
            !(self.data_of(child) is Document),
            0 <= index <= self.children_of(parent).len(),
            !self.is_inclusive_ancestor(child, parent),
        ensures
            self.linked(parent, index, child).wf(),
            self.linked(parent, index, child).nodes.len() == self.nodes.len(),
            self.linked(parent, index, child).parent_of(child) == Some(parent),
            self.linked(parent, index, child).children_of(parent) == self.children_of(
                parent,
            ).insert(index, child),
            forall|h: Handle|
                self.contains(h) ==> #[trigger] self.linked(parent, index, child).data_of(h)
                    == self.data_of(h),
            forall|h: Handle|
                self.contains(h) && h != child ==> #[trigger] self.linked(
                    parent,
                    index,
                    child,
                ).parent_of(h) == self.parent_of(h),
            forall|h: Handle|
                self.contains(h) && h != parent ==> #[trigger] self.linked(
                    parent,
                    index,
                    child,
                ).children_of(h) == self.children_of(h),
    {
        let new = self.linked(parent, index, child);
        self.lemma_ancestor_self(parent);
        assert(child != parent);
        self.lemma_parentless_unlisted(child);
        lemma_insert_fresh(self.children_of(parent), index, child);
        let r = self.ranking();
        assert(self.ranked_by(r));
        assert forall|h: Handle| self.contains(h) implies new.data_of(h) == self.data_of(h) && (h
            != child ==> new.parent_of(h) == self.parent_of(h)) && (h != parent
            ==> new.children_of(h) == self.children_of(h)) by {}
        assert forall|e: Handle, t: Handle| #[trigger] new.hosts(e, t) implies self.hosts(e, t) by {}
        assert forall|h: Handle, k: int|
            new.contains(h) && 0 <= k < new.children_of(h).len() implies {
            let c = #[trigger] new.children_of(h)[k];
            new.contains(c) && new.parent_of(c) == Some(h)
        } by {
            let c = new.children_of(h)[k];
            assert(new.children_of(h).contains(c));
            if h == parent {
                if c != child {
                    assert(self.children_of(parent).contains(c));
                    let k0 = choose|k0: int|
                        0 <= k0 < self.children_of(parent).len() && self.children_of(parent)[k0]
                            == c;
                    assert(self.parent_of(self.children_of(parent)[k0]) == Some(parent));
                }
            } else {
                assert(self.children_of(h).contains(c));
                assert(self.parent_of(self.children_of(h)[k]) == Some(h));
            }
        }
        assert forall|h: Handle| new.contains(h) implies #[trigger] new.children_of(
            h,
        ).no_duplicates() by {
            assert(self.children_of(h).no_duplicates());
        }
        assert forall|h: Handle| new.contains(h) implies (#[trigger] new.parent_of(h) matches Some(
            q,
        ) ==> new.contains(q) && new.children_of(q).contains(h)) by {
            if h != child {
                assert(self.parent_of(h) == new.parent_of(h));
            }
        }
        assert forall|h: Handle| new.contains(h) && #[trigger] new.data_of(h) is Document implies new.parent_of(
            h,
        ) is None by {
            assert(self.data_of(h) is Document);
        }
        assert forall|e: Handle, t: Handle| #[trigger] new.hosts(e, t) implies new.contains(t)
            && new.data_of(t) is Document && t != new.document by {
            assert(self.hosts(e, t));
        }
        assert forall|e1: Handle, e2: Handle, t: Handle|
            #![trigger new.hosts(e1, t), new.hosts(e2, t)]
            new.hosts(e1, t) && new.hosts(e2, t) implies e1 == e2 by {
            assert(self.hosts(e1, t) && self.hosts(e2, t));
        }
        assert(new.links_wf());
        self.lemma_raised_ranks(parent, r.heights[child as int] + 1);
        let r2 = self.raised(parent, r.heights[child as int] + 1);
        assert forall|h: Handle| new.contains(h) implies (#[trigger] new.parent_of(h) matches Some(
            q,
        ) ==> r2.heights[h as int] < r2.heights[q as int]) by {
            if h != child {
                assert(self.parent_of(h) == new.parent_of(h));
            }
        }
        assert forall|e: Handle, t: Handle| #[trigger] new.hosts(e, t) implies r2.heights[t as int]
            < r2.heights[e as int] by {
            assert(self.hosts(e, t));
        }
        assert(new.ranked_by(r2));
    }

    /// The ranking in which every inclusive ancestor of `x` stands `by`
    /// higher than in [`Self::ranking`].
    pub open spec fn raised(self, x: Handle, by: nat) -> Ranking {
        let r = self.ranking();
        Ranking {
            heights: Seq::new(
                r.heights.len(),
                |i: int|
                    if self.is_inclusive_ancestor(i as Handle, x) {
                        r.heights[i] + by
                    } else {
                        r.heights[i]
                    },
            ),
            bound: r.bound + by,
        }
    }

    /// Raising the inclusive ancestors of a node keeps every node below its
    /// owner, and lifts the node itself by the full amount.
    pub proof fn lemma_raised_ranks(self, x: Handle, by: nat)
        requires
            self.wf(),
            self.contains(x),
        ensures
            self.ranked_by(self.raised(x, by)),
            self.raised(x, by).heights[x as int] == self.height(x) + by,
            forall|h: Handle|
                self.contains(h) && !self.is_inclusive_ancestor(h, x) ==> #[trigger] self.raised(
                    x,
                    by,
                ).heights[h as int] == self.height(h),
    {
        let r = self.ranking();
        let r2 = self.raised(x, by);
        assert(self.ranked_by(r));
        self.lemma_ancestor_self(x);
        assert forall|h: Handle| self.contains(h) implies (#[trigger] self.parent_of(h) matches Some(
            p,
        ) ==> r2.heights[h as int] < r2.heights[p as int]) by {
            if self.parent_of(h) is Some && self.is_inclusive_ancestor(h, x) {
                self.lemma_ancestor_closed(h, x);
            }
        }
        assert forall|e: Handle, t: Handle| #[trigger] self.hosts(e, t) implies r2.heights[t as int]
            < r2.heights[e as int] by {
            self.lemma_host_is_owner(e, t);
            if self.is_inclusive_ancestor(t, x) {
                self.lemma_ancestor_closed(t, x);
            }
        }
    }
}


impl DomView {
    /// The arena in which every child of `node` has been moved to the end of
    /// the children of `new_parent`, in order.
    pub open spec fn reparented(self, node: Handle, new_parent: Handle) -> DomView {
        DomView {
            nodes: Seq::new(
                self.nodes.len(),
                |i: int|
                    {
                        let n = self.nodes[i];
                        if i == node {
                            NodeView { children: Seq::empty(), ..n }
                        } else if i == new_parent {
                            NodeView { children: n.children + self.children_of(node), ..n }
                        } else if n.parent == Some(node) {
                            NodeView { parent: Some(new_parent), ..n }
                        } else {
                            n
                        }
                    },
            ),
            ..self
        }
    }

    /// Whether the children of `node` can be moved under `new_parent`: the
    /// two are different nodes, and no child of `node` is `new_parent` or
    /// owns it.
    pub open spec fn can_reparent(self, node: Handle, new_parent: Handle) -> bool {
        &&& self.contains(node)
        &&& self.contains(new_parent)
        &&& node != new_parent
        &&& forall|k: int|
            0 <= k < self.children_of(node).len() ==> !self.is_inclusive_ancestor(
                #[trigger] self.children_of(node)[k],
                new_parent,
            )
    }

    /// Moving the children of a node keeps the arena well formed.
    pub proof fn lemma_reparented_wf(self, node: Handle, new_parent: Handle)
        requires
            self.wf(),
            self.can_reparent(node, new_parent),
        ensures
            self.reparented(node, new_parent).wf(),
    {
        let new = self.reparented(node, new_parent);
        let kids = self.children_of(node);
        let olds = self.children_of(new_parent);
        let r = self.ranking();
        assert(self.ranked_by(r));
        self.lemma_ancestor_self(new_parent);
        assert forall|k: int| 0 <= k < kids.len() implies self.parent_of(#[trigger] kids[k])
            == Some(node) && self.contains(kids[k]) && kids[k] != new_parent && kids[k] != node
            && r.heights[kids[k] as int] < r.heights[node as int] by {
            assert(self.children_of(node)[k] == kids[k]);
        }
        assert(self.parent_of(new_parent) != Some(node)) by {
            if self.parent_of(new_parent) == Some(node) {
                assert(self.children_of(node).contains(new_parent));
                let k = choose|k: int| 0 <= k < kids.len() && kids[k] == new_parent;
                assert(!self.is_inclusive_ancestor(self.children_of(node)[k], new_parent));
            }
        }
        assert(self.parent_of(node) != Some(node));
        assert forall|h: Handle| self.contains(h) implies new.data_of(h) == self.data_of(h) by {}
        assert forall|e: Handle, t: Handle| #[trigger] new.hosts(e, t) implies self.hosts(e, t) by {}
        assert forall|h: Handle, k: int|
            new.contains(h) && 0 <= k < new.children_of(h).len() implies {
            let c = #[trigger] new.children_of(h)[k];
            new.contains(c) && new.parent_of(c) == Some(h)
        } by {
            if h == new_parent {
                if k < olds.len() {
                    assert(self.parent_of(self.children_of(h)[k]) == Some(h));
                } else {
                    assert(new.children_of(h)[k] == kids[k - olds.len()]);
                }
            } else {
                assert(self.parent_of(self.children_of(h)[k]) == Some(h));
            }
        }
        assert forall|h: Handle| new.contains(h) implies #[trigger] new.children_of(
            h,
        ).no_duplicates() by {
            assert(self.children_of(h).no_duplicates());
            if h == new_parent {
                assert(kids.no_duplicates());
                let both = olds + kids;
                assert forall|i: int, j: int|
                    0 <= i < both.len() && 0 <= j < both.len() && i != j implies both[i]
                    != both[j] by {
                    if i < olds.len() && j >= olds.len() {
                        assert(self.parent_of(self.children_of(h)[i]) == Some(h));
                        assert(both[j] == kids[j - olds.len()]);
                    } else if j < olds.len() && i >= olds.len() {
                        assert(self.parent_of(self.children_of(h)[j]) == Some(h));
                        assert(both[i] == kids[i - olds.len()]);
                    } else if i >= olds.len() {
                        assert(both[i] == kids[i - olds.len()]);
                        assert(both[j] == kids[j - olds.len()]);
                    }
                }
            }
        }
        assert forall|h: Handle| new.contains(h) implies (#[trigger] new.parent_of(h) matches Some(
            q,
        ) ==> new.contains(q) && new.children_of(q).contains(h)) by {
            if self.parent_of(h) is Some {
                let q0 = self.parent_of(h)->0;
                assert(self.children_of(q0).contains(h));
                let k = choose|k: int|
                    0 <= k < self.children_of(q0).len() && self.children_of(q0)[k] == h;
                if q0 == node {
                    assert(kids[k] == h);
                    assert((olds + kids)[olds.len() + k] == h);
                } else if q0 == new_parent {
                    assert((olds + kids)[k] == h);
                }
            }
        }
        assert forall|h: Handle| new.contains(h) && #[trigger] new.data_of(h) is Document implies new.parent_of(
            h,
        ) is None by {
            assert(self.data_of(h) is Document);
        }
        assert forall|e: Handle, t: Handle| #[trigger] new.hosts(e, t) implies new.contains(t)
            && new.data_of(t) is Document && t != new.document by {
            assert(self.hosts(e, t));
        }
        assert forall|e1: Handle, e2: Handle, t: Handle|
            #![trigger new.hosts(e1, t), new.hosts(e2, t)]
            new.hosts(e1, t) && new.hosts(e2, t) implies e1 == e2 by {
            assert(self.hosts(e1, t) && self.hosts(e2, t));
        }
        assert(new.links_wf());
        let by = r.heights[node as int];
        self.lemma_raised_ranks(new_parent, by);
        let r2 = self.raised(new_parent, by);
        assert forall|h: Handle| new.contains(h) implies (#[trigger] new.parent_of(h) matches Some(
            q,
        ) ==> r2.heights[h as int] < r2.heights[q as int]) by {
            if self.parent_of(h) == Some(node) {
                assert(self.children_of(node).contains(h));
                let k = choose|k: int| 0 <= k < kids.len() && kids[k] == h;
                assert(!self.is_inclusive_ancestor(self.children_of(node)[k], new_parent));
            } else {
                assert(self.parent_of(h) == new.parent_of(h));
            }
        }
        assert forall|e: Handle, t: Handle| #[trigger] new.hosts(e, t) implies r2.heights[t as int]
            < r2.heights[e as int] by {
            assert(self.hosts(e, t));
        }
        assert(new.ranked_by(r2));
    }
}


/// What is handed to the tree to be inserted: an existing node, or text that
/// may be merged into a neighbouring text node.
pub enum NodeOrTextView {
    AppendNode(Handle),
    AppendText(Seq<char>),
}

impl DomView {
    /// The handle that the next node to be created receives.
    pub open spec fn next_handle(self) -> Handle {
        self.nodes.len() as Handle
    }

    /// Whether `h` is a text node.
    pub open spec fn is_text(self, h: Handle) -> bool {
        self.data_of(h) is Text
    }

    /// The text of a text node.
    pub open spec fn text_of(self, h: Handle) -> Seq<char> {
        match self.data_of(h) {
            NodeDataView::Text { contents } => contents,
            _ => Seq::empty(),
        }
    }

    /// The arena in which `text` has been added to the end of the text node `h`.
    pub open spec fn text_pushed(self, h: Handle, text: Seq<char>) -> DomView {
        self.with_data(h, NodeDataView::Text { contents: self.text_of(h) + text })
    }

    /// The arena in which `text` has been put at position `index` among the
    /// children of `parent`: merged into the text node just before that
    /// position if there is one, otherwise as a text node of its own.
    pub open spec fn text_inserted(self, parent: Handle, index: int, text: Seq<char>) -> DomView {
        if index > 0 && self.is_text(self.children_of(parent)[index - 1]) {
            self.text_pushed(self.children_of(parent)[index - 1], text)
        } else {
            self.created(NodeDataView::Text { contents: text }).linked(
                parent,
                index,
                self.next_handle(),
            )
        }
    }

    /// Whether `child` can become a child of `parent`: it is not a document,
    /// and it is not `parent` itself or one of the nodes that own `parent`.
    pub open spec fn can_adopt(self, parent: Handle, child: Handle) -> bool {
        &&& self.contains(parent)
        &&& self.contains(child)
        &&& !(self.data_of(child) is Document)
        &&& !self.is_inclusive_ancestor(child, parent)
    }

    /// Whether `child` can be appended to `parent`. A node must be
    /// adoptable and must not have a parent yet; text always can.
    pub open spec fn can_append(self, parent: Handle, child: NodeOrTextView) -> bool {
        &&& self.contains(parent)
        &&& child matches NodeOrTextView::AppendNode(c) ==> self.can_adopt(parent, c)
            && self.parent_of(c) is None
    }

    /// The arena after `child` has been appended to `parent`.
    pub open spec fn appended(self, parent: Handle, child: NodeOrTextView) -> DomView {
        let end = self.children_of(parent).len() as int;
        match child {
            NodeOrTextView::AppendNode(c) => self.linked(parent, end, c),
            NodeOrTextView::AppendText(text) => self.text_inserted(parent, end, text),
        }
    }

    /// Whether `child` can be inserted before `sibling`. The sibling must
    /// have a parent, and a node must be adoptable by that parent.
    pub open spec fn can_insert_before(self, sibling: Handle, child: NodeOrTextView) -> bool {
        &&& self.contains(sibling)
        &&& self.parent_of(sibling) is Some
        &&& child matches NodeOrTextView::AppendNode(c) ==> self.can_adopt(
            self.parent_of(sibling)->0,
            c,
        )
    }

    /// The arena after `child` has been inserted before `sibling`. The
    /// position is that of `sibling` before the call; a node is first taken
    /// out of the parent it has.
    pub open spec fn inserted_before(self, sibling: Handle, child: NodeOrTextView) -> DomView {
        let parent = self.parent_of(sibling)->0;
        let index = self.index_in(parent, sibling);
        match child {
            NodeOrTextView::AppendNode(c) => self.unlinked(c).linked(parent, index, c),
            NodeOrTextView::AppendText(text) => self.text_inserted(parent, index, text),
        }
    }

    /// The arena after an element has been created: with template contents
    /// the new element follows a new, empty document of its own.
    pub open spec fn element_created(
        self,
        name: QualNameView,
        attrs: Seq<AttributeView>,
        template: bool,
        integration_point: bool,
    ) -> DomView {
        if template {
            self.created(NodeDataView::Document).created(
                NodeDataView::Element {
                    name,
                    attrs,
                    template_contents: Some(self.next_handle()),
                    mathml_annotation_xml_integration_point: integration_point,
                },
            )
        } else {
            self.created(
                NodeDataView::Element {
                    name,
                    attrs,
                    template_contents: None,
                    mathml_annotation_xml_integration_point: integration_point,
                },
            )
        }
    }

    /// The arena in which the element `h` has received those of `attrs`
    /// whose name it did not have.
    pub open spec fn attrs_added(self, h: Handle, incoming: Seq<AttributeView>) -> DomView {
        match self.data_of(h) {
            NodeDataView::Element {
                name,
                attrs,
                template_contents,
                mathml_annotation_xml_integration_point,
            } => self.with_data(
                h,
                NodeDataView::Element {
                    name,
                    attrs: attrs + missing_attributes(attrs, incoming),
                    template_contents,
                    mathml_annotation_xml_integration_point,
                },
            ),
            _ => self,
        }
    }

    /// A node that was just created without template contents owns none of
    /// the older nodes.
    pub proof fn lemma_created_below(self, data: NodeDataView, x: Handle)
        requires
            self.wf(),
            self.created(data).wf(),
            self.nodes.len() < usize::MAX,
            self.contains(x),
            data.template() is None,
        ensures
            !self.created(data).is_inclusive_ancestor(self.next_handle(), x),
        decreases self.created(data).ranking().bound - self.created(data).height(x),
    {
        let new = self.created(data);
        if new.owner_of(x) is Some {
            new.lemma_owner(x);
            let o = new.owner_of(x)->0;
            assert(new.parent_of(x) == self.parent_of(x));
            if new.parent_of(x) is None {
                let e = choose|e: Handle| new.hosts(e, x);
                assert(new.hosts(e, x));
            }
            self.lemma_created_below(data, o);
        }
    }
}


impl DomView {
    /// A node is never lower than a node that it is or owns.
    pub proof fn lemma_ancestor_height(self, a: Handle, x: Handle)
        requires
            self.wf(),
            self.contains(x),
            self.is_inclusive_ancestor(a, x),
        ensures
            self.contains(a),
            self.height(a) >= self.height(x),
        decreases self.ranking().bound - self.height(x),
    {
        if x != a {
            self.lemma_owner(x);
            self.lemma_ancestor_height(a, self.owner_of(x)->0);
        }
    }

    /// The tree has no cycles: no node is, or owns, the node that owns it.
    pub proof fn lemma_acyclic(self, x: Handle)
        requires
            self.wf(),
            self.contains(x),
            self.owner_of(x) is Some,
        ensures
            !self.is_inclusive_ancestor(x, self.owner_of(x)->0),
            self.owner_of(x) != Some(x),
    {
        let o = self.owner_of(x)->0;
        self.lemma_owner(x);
        if self.is_inclusive_ancestor(x, o) {
            self.lemma_ancestor_height(x, o);
        }
    }

    /// A node has at most one parent: it is in the child list of its parent,
    /// once, and in no other.
    pub proof fn lemma_single_parent(self, p: Handle, x: Handle)
        requires
            self.wf(),
            self.contains(p),
            self.children_of(p).contains(x),
        ensures
            self.contains(x),
            self.parent_of(x) == Some(p),
            self.children_of(p).no_duplicates(),
    {
        let k = choose|k: int| 0 <= k < self.children_of(p).len() && self.children_of(p)[k] == x;
        assert(self.parent_of(self.children_of(p)[k]) == Some(p));
    }

    /// Text that is appended in two pieces ends up in one text node, as if it
    /// had been appended in one piece.
    pub proof fn lemma_appended_text_joins(self, parent: Handle, first: Seq<char>, second: Seq<char>)
        requires
            self.wf(),
            self.contains(parent),
            self.nodes.len() < usize::MAX,
        ensures
            self.appended(parent, NodeOrTextView::AppendText(first)).appended(
                parent,
                NodeOrTextView::AppendText(second),
            ) == self.appended(parent, NodeOrTextView::AppendText(first + second)),
    {
        let kids = self.children_of(parent);
        let end = kids.len() as int;
        let once = self.appended(parent, NodeOrTextView::AppendText(first));
        let twice = once.appended(parent, NodeOrTextView::AppendText(second));
        let joined = self.appended(parent, NodeOrTextView::AppendText(first + second));
        if end > 0 && self.is_text(kids[end - 1]) {
            let last = kids[end - 1];
            assert(self.contains(self.children_of(parent)[end - 1]));
            assert(once.children_of(parent) == kids);
            assert((self.text_of(last) + first) + second =~= self.text_of(last) + (first + second));
            assert(twice.nodes =~= joined.nodes);
        } else {
            let new = self.next_handle();
            let made = self.created(NodeDataView::Text { contents: first });
            assert(once == made.linked(parent, end, new));
            assert(once.children_of(parent) =~= kids.insert(end, new));
            assert(once.children_of(parent)[end] == new);
            assert(once.is_text(new));
            assert(once.text_of(new) == first);
            assert(twice == once.text_pushed(new, second));
            assert(twice.nodes =~= joined.nodes);
        }
    }
}

} // verus!
