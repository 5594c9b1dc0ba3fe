//! Flattening a tree into its wire form.
//!
//! The nodes below the document are visited depth first, parents before
//! children and children in order. Each node becomes one record whose id is
//! its position in that visit. A record names its parent, its first child
//! and the sibling that follows it by id, and every string it carries by the
//! string's id in the table of an [`Interner`].

use vstd::prelude::*;
use vstd::string::*;

use crate::encode::{
    attr_record,
    attr_records,
    attributes_of,
    attrs_in,
    attrs_of,
    doctype_attrs,
    encode_node,
    id_in,
    ids_fit,
    keeps_ids,
    knows,
    knows_attr,
    lemma_attr_resolves,
    lemma_ids_fit_concat,
    lemma_keeps_ids_interned_all,
    lemma_node_known,
    name_of,
    node_strings,
    node_type_of,
    restated,
    string_of,
    unprefixed,
    value_of,
};
use crate::interner::{
    default_seed,
    interned_all,
    lemma_default_seed_unique,
    lemma_position,
    lemma_interned_all_concat,
    lemma_interned_all_extends,
    lemma_interned_all_unique,
    Interner,
};
use crate::layout::{points_within, sibling_chain, Link};
use crate::names::AttributeView;
use crate::rcdom::{NodeData, RcDom};
use crate::tree::{DomView, Handle, NodeDataView};
use crate::wire::{max_id, wire_node_views, WireDoc, WireDocView, WireNode, WireNodeView};

verus! {

/// An id as it is stored in a record.
pub open spec fn stored(id: Option<nat>) -> Option<u32> {
    match id {
        Some(id) => Some(id as u32),
        None => None,
    }
}

/// An id as it is used in the layout of the records.
pub open spec fn unstored(id: Option<u32>) -> Option<nat> {
    match id {
        Some(id) => Some(id as nat),
        None => None,
    }
}

/// The record of a node, given where it stands and the string table. A
/// document never names a parent.
pub open spec fn wire_of(link: Link, data: NodeDataView, table: Seq<Seq<char>>) -> WireNodeView {
    WireNodeView {
        id: link.id as u32,
        node_type: node_type_of(data),
        name: Some(id_in(table, name_of(data))),
        value: match value_of(data) {
            Some(value) => Some(id_in(table, value)),
            None => None,
        },
        parent: if data is Document {
            None
        } else {
            stored(link.parent)
        },
        first_child: stored(link.first_child),
        next_sibling: stored(link.next_sibling),
        attrs: attrs_of(data, table),
    }
}

/// The positions that are met when the sibling links of flat records are
/// followed from `from` until a record names no sibling, in the order in
/// which they are met.
pub open spec fn wire_sibling_chain(nodes: Seq<WireNodeView>, from: Option<u32>, fuel: nat) -> Seq<
    nat,
>
    decreases fuel,
{
    match from {
        Some(at) => if fuel > 0 && at < nodes.len() {
            seq![at as nat] + wire_sibling_chain(
                nodes,
                nodes[at as int].next_sibling,
                (fuel - 1) as nat,
            )
        } else {
            Seq::empty()
        },
        None => Seq::empty(),
    }
}

impl DomView {
    /// The records of a run of links over the string table `table`.
    pub open spec fn wire_nodes(self, links: Seq<Link>, table: Seq<Seq<char>>) -> Seq<WireNodeView> {
        links.map_values(|l: Link| wire_of(l, self.data_of(l.node), table))
    }

    /// Whether `table` holds every string that the records of `links` refer
    /// to, and every link is that of a node of the arena.
    pub open spec fn knows_all(self, table: Seq<Seq<char>>, links: Seq<Link>) -> bool {
        forall|i: int|
            0 <= i < links.len() ==> self.contains((#[trigger] links[i]).node) && knows(
                table,
                self.data_of(links[i].node),
            )
    }

    /// The strings that are interned for the subtree of `h`, in order: those
    /// of `h`, then those of the subtrees of its children.
    pub open spec fn subtree_strings(self, h: Handle) -> Seq<Seq<char>>
        decreases self.height(h), self.children_of(h).len() + 1,
        when self.wf() && self.contains(h)
    {
        node_strings(self.data_of(h)) + self.forest_strings(h, 0)
    }

    /// The strings that are interned for the subtrees of the children of `h`
    /// from the `k`-th on.
    pub open spec fn forest_strings(self, h: Handle, k: nat) -> Seq<Seq<char>>
        decreases self.height(h), self.children_of(h).len() - k,
        when self.wf() && self.contains(h)
    {
        if k >= self.children_of(h).len() {
            Seq::empty()
        } else {
            self.subtree_strings(self.children_of(h)[k as int]) + self.forest_strings(h, k + 1)
        }
    }

    /// Whether a subtree can be flattened from position `base` on into
    /// `table`: every record and every string receives an id of at most
    /// [`max_id`].
    pub open spec fn fits(self, h: Handle, base: nat, table: Seq<Seq<char>>) -> bool {
        base + self.subtree_size(h) <= max_id() + 1 && ids_fit(table, self.subtree_strings(h))
    }

    /// The string table of the flattened document: the default vocabulary,
    /// followed by the other strings of the document in the order in which
    /// they are first met.
    pub open spec fn string_table(self) -> Seq<Seq<char>> {
        interned_all(default_seed(), self.subtree_strings(self.document))
    }

    /// Whether the document can be flattened: every record and every string
    /// receives an id of at most [`max_id`].
    pub open spec fn flattens(self) -> bool {
        self.fits(self.document, 0, default_seed())
    }

    /// The flattened document.
    pub open spec fn wire_doc(self, content_type: Seq<char>) -> WireDocView {
        WireDocView {
            content_type,
            quirks_mode: self.quirks_mode.label(),
            strings: self.string_table(),
            nodes: self.wire_nodes(self.document_links(), self.string_table()),
        }
    }
}

/// A table that holds the strings of a node gives the node the same record
/// as any table that keeps its ids.
pub proof fn lemma_wire_keeps(
    link: Link,
    data: NodeDataView,
    earlier: Seq<Seq<char>>,
    later: Seq<Seq<char>>,
)
    requires
        knows(earlier, data),
        keeps_ids(earlier, later),
    ensures
        knows(later, data),
        wire_of(link, data, later) == wire_of(link, data, earlier),
{
    match data {
        NodeDataView::Element { attrs, .. } => {
            assert forall|i: int| 0 <= i < attrs.len() implies knows_attr(
                later,
                #[trigger] attrs[i],
            ) && attr_record(attrs[i], later) == attr_record(attrs[i], earlier) by {
                assert(knows_attr(earlier, attrs[i]));
            }
            assert(attr_records(attrs, later) =~= attr_records(attrs, earlier));
        },
        NodeDataView::Doctype { name, public_id, system_id } => {
            assert(earlier.contains(name));
        },
        _ => {},
    }
}

impl DomView {
    /// A table that holds the strings of a run of records gives the same
    /// records as any table that keeps its ids.
    pub proof fn lemma_wire_nodes_keep(
        self,
        links: Seq<Link>,
        earlier: Seq<Seq<char>>,
        later: Seq<Seq<char>>,
    )
        requires
            self.knows_all(earlier, links),
            keeps_ids(earlier, later),
        ensures
            self.knows_all(later, links),
            self.wire_nodes(links, later) == self.wire_nodes(links, earlier),
    {
        assert forall|i: int| 0 <= i < links.len() implies self.contains(
            (#[trigger] links[i]).node,
        ) && knows(later, self.data_of(links[i].node)) && self.wire_nodes(links, later)[i]
            == self.wire_nodes(links, earlier)[i] by {
            lemma_wire_keeps(links[i], self.data_of(links[i].node), earlier, later);
        }
        assert(self.wire_nodes(links, later) =~= self.wire_nodes(links, earlier));
    }
}

/// Flattens the subtree of `handle` onto the end of `nodes`.
///
/// The node goes first, under the id that is its position, followed by the
/// subtrees of its children in order. Every string of the subtree is
/// interned, those of a node before those of its children. Returns the id of
/// `handle`; returns `None`, with `nodes` and `interner` in no particular
/// state, exactly when an id of a record or of a string would not fit in 32
/// bits.
pub fn collect(
    dom: &RcDom,
    handle: Handle,
    parent: Option<u32>,
    interner: &mut Interner,
    nodes: &mut Vec<WireNode>,
) -> (r: Option<u32>)
    requires
        dom@.wf(),
        dom@.contains(handle),
    ensures
        r is Some <==> dom@.fits(handle, old(nodes)@.len(), old(interner)@),
        r matches Some(id) ==> ({
            let links = dom@.links(handle, old(nodes)@.len(), unstored(parent), None);
            &&& id == old(nodes)@.len()
            &&& final(interner)@ == interned_all(old(interner)@, dom@.subtree_strings(handle))
            &&& keeps_ids(old(interner)@, final(interner)@)
            &&& wire_node_views(final(nodes)@) == wire_node_views(old(nodes)@) + dom@.wire_nodes(
                links,
                final(interner)@,
            )
            &&& dom@.knows_all(final(interner)@, links)
        }),
    decreases dom@.height(handle),
{
    let ghost start = interner@;
    let ghost before = wire_node_views(nodes@);
    let ghost base = nodes@.len();
    let ghost target = dom@.links(handle, base, unstored(parent), None);
    let ghost own = node_strings(dom@.data_of(handle));
    proof {
        dom@.lemma_links_len(handle, base, unstored(parent), None);
        lemma_ids_fit_concat(start, own, dom@.forest_strings(handle, 0));
        lemma_interned_all_concat(start, own, dom@.forest_strings(handle, 0));
    }
    let position = nodes.len();
    if position > u32::MAX as usize {
        assert(base + dom@.subtree_size(handle) > max_id() + 1);
        return None;
    }
    assert(dom@.subtree_strings(handle) == own + dom@.forest_strings(handle, 0));
    let id = position as u32;
    let node = dom.node(handle);
    let children = &node.children;
    let encoded = match encode_node(&node.data, interner) {
        Some(encoded) => encoded,
        None => {
            return None;
        },
    };
    let first_child = if children.len() > 0 {
        if id == u32::MAX {
            proof {
                dom@.lemma_child(handle, 0);
                dom@.lemma_links_len(dom@.children_of(handle)[0], 0, None, None);
                assert(dom@.forest_size(handle, 0) >= dom@.subtree_size(
                    dom@.children_of(handle)[0],
                ));
                assert(base + dom@.subtree_size(handle) > max_id() + 1);
            }
            return None;
        }
        Some(id + 1)
    } else {
        None
    };
    let parent_id = match &node.data {
        NodeData::Document => None,
        _ => parent,
    };
    let record = WireNode {
        id,
        node_type: encoded.node_type,
        name: encoded.name,
        value: encoded.value,
        parent: parent_id,
        first_child,
        next_sibling: None,
        attrs: encoded.attrs,
    };
    let ghost done = seq![dom@.link_of(handle, base, unstored(parent), None)];
    proof {
        assert(record@ == wire_of(done[0], dom@.data_of(handle), interner@));
    }
    nodes.push(record);
    proof {
        assert(wire_node_views(nodes@) =~= before + dom@.wire_nodes(done, interner@));
    }
    let mut k: usize = 0;
    while k < children.len()
        invariant
            k <= children.len(),
            dom@.wf(),
            dom@.contains(handle),
            children@ == dom@.children_of(handle),
            start == old(interner)@,
            before == wire_node_views(old(nodes)@),
            base == old(nodes)@.len(),
            id == base,
            target == dom@.links(handle, base, unstored(parent), None),
            nodes@.len() <= max_id() + 1,
            base + dom@.subtree_size(handle) == nodes@.len() + dom@.forest_size(handle, k as nat),
            interned_all(interner@, dom@.forest_strings(handle, k as nat)) == interned_all(
                start,
                dom@.subtree_strings(handle),
            ),
            ids_fit(interner@, dom@.forest_strings(handle, k as nat)) == ids_fit(
                start,
                dom@.subtree_strings(handle),
            ),
            keeps_ids(start, interner@),
            done + dom@.forest_links(handle, k as nat, nodes@.len() as nat, base) == target,
            wire_node_views(nodes@) == before + dom@.wire_nodes(done, interner@),
            dom@.knows_all(interner@, done),
            done.len() == nodes@.len() - base,
        decreases children.len() - k,
    {
        let child = children[k];
        let ghost table = interner@;
        let ghost at = nodes@.len();
        let ghost rest = dom@.forest_strings(handle, (k + 1) as nat);
        let ghost after = at + dom@.subtree_size(child);
        let ghost next = if k + 1 < children.len() {
            Some(after)
        } else {
            None
        };
        proof {
            dom@.lemma_child(handle, k as int);
            dom@.lemma_links_len(child, at, Some(base), None);
            dom@.lemma_links_next(child, at, Some(base), next);
            lemma_ids_fit_concat(table, dom@.subtree_strings(child), rest);
            lemma_interned_all_concat(table, dom@.subtree_strings(child), rest);
            assert(dom@.forest_strings(handle, k as nat) == dom@.subtree_strings(child) + rest);
            assert(dom@.forest_size(handle, k as nat) == dom@.subtree_size(child)
                + dom@.forest_size(handle, (k + 1) as nat));
        }
        let child_id = match collect(dom, child, Some(id), interner, nodes) {
            Some(child_id) => child_id,
            None => {
                assert(!dom@.fits(child, at, table));
                assert(!dom@.fits(handle, base, start));
                return None;
            },
        };
        let ghost child_links = dom@.links(child, at, Some(base), None);
        proof {
            dom@.lemma_wire_nodes_keep(done, table, interner@);
            assert(wire_node_views(nodes@) =~= before + dom@.wire_nodes(
                done + child_links,
                interner@,
            ));
        }
        let ghost grown = wire_node_views(nodes@);
        k += 1;
        if k < children.len() {
            let following = nodes.len();
            if following > u32::MAX as usize {
                proof {
                    dom@.lemma_child(handle, k as int);
                    dom@.lemma_links_len(dom@.children_of(handle)[k as int], 0, None, None);
                    assert(dom@.forest_size(handle, (k - 1) as nat) == dom@.subtree_size(child)
                        + dom@.forest_size(handle, k as nat));
                    assert(dom@.forest_size(handle, k as nat) >= 1);
                    assert(grown.len() == nodes@.len());
                    assert(nodes@.len() == after);
                    assert(base + dom@.subtree_size(handle) > max_id() + 1);
                }
                return None;
            }
            nodes[child_id as usize].next_sibling = Some(following as u32);
            assert(wire_node_views(nodes@) =~= grown.update(
                at as int,
                WireNodeView { next_sibling: Some(following as u32), ..grown[at as int] },
            ));
        }
        proof {
            let linked = dom@.links(child, at, Some(base), next);
            let joined = dom@.wire_nodes(done + linked, interner@);
            let plain = dom@.wire_nodes(done + child_links, interner@);
            assert(grown == before + plain);
            assert(nodes@.len() == after);
            assert(linked.len() == child_links.len());
            assert(linked[0] == dom@.link_of(child, at, Some(base), next));
            assert(child_links[0] == dom@.link_of(child, at, Some(base), None));
            assert forall|i: int| 0 <= i < grown.len() implies #[trigger] wire_node_views(nodes@)[i]
                == (before + joined)[i] by {
                if i == at {
                    assert((done + linked)[i - base] == linked[0]);
                    assert((done + child_links)[i - base] == child_links[0]);
                    assert(grown[i] == plain[i - base]);
                } else if i >= base {
                    assert(wire_node_views(nodes@)[i] == grown[i]);
                    assert(grown[i] == plain[i - base]);
                    if i < at {
                        assert((done + linked)[i - base] == done[i - base]);
                        assert((done + child_links)[i - base] == done[i - base]);
                    } else {
                        assert((done + linked)[i - base] == linked[i - at]);
                        assert((done + child_links)[i - base] == child_links[i - at]);
                    }
                } else {
                    assert(wire_node_views(nodes@)[i] == grown[i]);
                }
            }
            assert(wire_node_views(nodes@) =~= before + joined);
            assert(dom@.knows_all(interner@, done + linked)) by {
                assert forall|i: int| 0 <= i < (done + linked).len() implies dom@.contains(
                    (#[trigger] (done + linked)[i]).node,
                ) && knows(interner@, dom@.data_of((done + linked)[i].node)) by {
                    if i < done.len() {
                        assert((done + linked)[i] == done[i]);
                    } else {
                        assert((done + linked)[i].node == child_links[i - done.len()].node);
                    }
                }
            }
            assert(done + linked + dom@.forest_links(handle, k as nat, nodes@.len() as nat, base)
                =~= done + dom@.forest_links(handle, (k - 1) as nat, at as nat, base));
            done = done + linked;
        }
    }
    Some(id)
}

/// Flattens a document.
///
/// The records are those of the nodes below the document node, the document
/// node first; the string table is that of a default interner into which the
/// strings of the nodes were interned in document order. Returns `None`
/// exactly when the document is too large for ids of 32 bits.
pub fn serialize_dom(dom: &RcDom, content_type: &str) -> (r: Option<WireDoc>)
    requires
        dom@.wf(),
    ensures
        r is Some <==> dom@.flattens(),
        r matches Some(doc) ==> doc@ == dom@.wire_doc(content_type@),
{
    let mut interner = Interner::default();
    let mut nodes: Vec<WireNode> = Vec::new();
    if collect(dom, dom.get_document(), None, &mut interner, &mut nodes).is_none() {
        return None;
    }
    let doc = WireDoc {
        content_type: content_type.to_owned(),
        quirks_mode: dom.quirks_mode().to_string(),
        strings: interner.into_strings(),
        nodes,
    };
    proof {
        assert(doc@.nodes =~= dom@.wire_doc(content_type@).nodes);
    }
    Some(doc)
}

/// In a table that holds the strings of a node, every id of the node's
/// record stands for the string that it was put there for: the name, the
/// value, and the attributes.
pub proof fn lemma_record_resolves(link: Link, data: NodeDataView, table: Seq<Seq<char>>)
    requires
        knows(table, data),
    ensures
        wire_of(link, data, table).name matches Some(id) && string_of(table, id) == name_of(data),
        match value_of(data) {
            Some(value) => wire_of(link, data, table).value matches Some(id) && string_of(table, id)
                == value,
            None => wire_of(link, data, table).value is None,
        },
        match attributes_of(data) {
            Some(attrs) => wire_of(link, data, table).attrs matches Some(records) && attrs_in(
                table,
                records,
            ) == attrs,
            None => wire_of(link, data, table).attrs is None,
        },
{
    lemma_position(table, name_of(data));
    if let Some(value) = value_of(data) {
        lemma_position(table, value);
    }
    match data {
        NodeDataView::Element { attrs, .. } => {
            if attrs.len() > 0 {
                let records = attr_records(attrs, table);
                assert forall|i: int| 0 <= i < attrs.len() implies attrs_in(table, records)[i]
                    == unprefixed(#[trigger] attrs[i]) by {
                    assert(knows_attr(table, attrs[i]));
                    lemma_attr_resolves(table, attrs[i]);
                }
                assert(attrs_in(table, records) =~= attrs.map_values(
                    |a: AttributeView| unprefixed(a),
                ));
            }
        },
        NodeDataView::Doctype { name, public_id, system_id } => {
            let records = doctype_attrs(name, public_id, system_id, table);
            lemma_position(table, "name"@);
            lemma_position(table, name);
            lemma_position(table, "publicId"@);
            lemma_position(table, public_id);
            lemma_position(table, "systemId"@);
            lemma_position(table, system_id);
            assert(attrs_in(table, records) =~= restated(name, public_id, system_id));
        },
        _ => {},
    }
}

impl DomView {
    /// The table into which the strings of a subtree were interned holds
    /// every string that the records of the subtree refer to.
    pub proof fn lemma_subtree_known(
        self,
        h: Handle,
        base: nat,
        parent: Option<nat>,
        next_sibling: Option<nat>,
        table: Seq<Seq<char>>,
    )
        requires
            self.wf(),
            self.contains(h),
            ids_fit(table, self.subtree_strings(h)),
        ensures
            self.knows_all(
                interned_all(table, self.subtree_strings(h)),
                self.links(h, base, parent, next_sibling),
            ),
        decreases self.height(h), self.children_of(h).len() + 1,
    {
        let own = node_strings(self.data_of(h));
        let below = self.forest_strings(h, 0);
        let middle = interned_all(table, own);
        let end = interned_all(table, self.subtree_strings(h));
        let links = self.links(h, base, parent, next_sibling);
        let rest = self.forest_links(h, 0, base + 1, base);
        lemma_ids_fit_concat(table, own, below);
        lemma_interned_all_concat(table, own, below);
        lemma_node_known(table, self.data_of(h));
        lemma_keeps_ids_interned_all(middle, below);
        lemma_wire_keeps(links[0], self.data_of(h), middle, end);
        self.lemma_forest_known(h, 0, base + 1, base, middle);
        assert forall|i: int| 0 <= i < links.len() implies self.contains(
            (#[trigger] links[i]).node,
        ) && knows(end, self.data_of(links[i].node)) by {
            if i > 0 {
                assert(links[i] == rest[i - 1]);
            }
        }
    }

    /// The table into which the strings of a run of subtrees were interned
    /// holds every string that the records of the run refer to.
    pub proof fn lemma_forest_known(
        self,
        h: Handle,
        k: nat,
        base: nat,
        parent: nat,
        table: Seq<Seq<char>>,
    )
        requires
            self.wf(),
            self.contains(h),
            ids_fit(table, self.forest_strings(h, k)),
        ensures
            self.knows_all(
                interned_all(table, self.forest_strings(h, k)),
                self.forest_links(h, k, base, parent),
            ),
        decreases self.height(h), self.children_of(h).len() - k,
    {
        if k < self.children_of(h).len() {
            let child = self.children_of(h)[k as int];
            self.lemma_child(h, k as int);
            let after = base + self.subtree_size(child);
            let next = if k + 1 < self.children_of(h).len() {
                Some(after)
            } else {
                None
            };
            let first = self.links(child, base, Some(parent), next);
            let rest = self.forest_links(h, k + 1, after, parent);
            let run = self.forest_links(h, k, base, parent);
            let strings = self.subtree_strings(child);
            let others = self.forest_strings(h, k + 1);
            let middle = interned_all(table, strings);
            let end = interned_all(table, self.forest_strings(h, k));
            lemma_ids_fit_concat(table, strings, others);
            lemma_interned_all_concat(table, strings, others);
            self.lemma_subtree_known(child, base, Some(parent), next, table);
            self.lemma_forest_known(h, k + 1, after, parent, middle);
            lemma_keeps_ids_interned_all(middle, others);
            self.lemma_wire_nodes_keep(first, middle, end);
            assert forall|i: int| 0 <= i < run.len() implies self.contains(
                (#[trigger] run[i]).node,
            ) && knows(end, self.data_of(run[i].node)) by {
                if i < first.len() {
                    assert(run[i] == first[i]);
                } else {
                    assert(run[i] == rest[i - first.len()]);
                }
            }
        }
    }

    /// In a flattened document, every id of a record stands for the string
    /// that it was put there for: the name of the node, its value and its
    /// attributes can be read back from the string table.
    pub proof fn lemma_wire_doc_resolves(self, content_type: Seq<char>, i: int)
        requires
            self.wf(),
            self.flattens(),
            0 <= i < self.wire_doc(content_type).nodes.len(),
        ensures
            ({
                let doc = self.wire_doc(content_type);
                let data = self.data_of(self.document_links()[i].node);
                &&& doc.nodes[i].node_type == node_type_of(data)
                &&& doc.nodes[i].name matches Some(id) && string_of(doc.strings, id) == name_of(data)
                &&& match value_of(data) {
                    Some(value) => doc.nodes[i].value matches Some(id) && string_of(doc.strings, id)
                        == value,
                    None => doc.nodes[i].value is None,
                }
                &&& match attributes_of(data) {
                    Some(attrs) => doc.nodes[i].attrs matches Some(records) && attrs_in(
                        doc.strings,
                        records,
                    ) == attrs,
                    None => doc.nodes[i].attrs is None,
                }
            }),
    {
        let all = self.document_links();
        self.lemma_subtree_known(self.document, 0, None, None, default_seed());
        lemma_record_resolves(all[i], self.data_of(all[i].node), self.string_table());
    }

    /// The string table of a flattened document starts with the default
    /// vocabulary and holds no string twice.
    pub proof fn lemma_string_table(self)
        ensures
            self.string_table().no_duplicates(),
            default_seed().len() <= self.string_table().len(),
            self.string_table().take(default_seed().len() as int) == default_seed(),
    {
        let strings = self.subtree_strings(self.document);
        lemma_default_seed_unique();
        lemma_interned_all_unique(default_seed(), strings);
        lemma_interned_all_extends(default_seed(), strings);
        assert(self.string_table().take(default_seed().len() as int) =~= default_seed());
    }

    /// Following sibling links through the flat records of a document meets
    /// the same positions as following them through the records' layout.
    pub proof fn lemma_wire_chain(
        self,
        table: Seq<Seq<char>>,
        from: Option<nat>,
        fuel: nat,
    )
        requires
            self.wf(),
            self.subtree_size(self.document) <= max_id() + 1,
            points_within(from, 0, self.subtree_size(self.document)),
        ensures
            wire_sibling_chain(
                self.wire_nodes(self.document_links(), table),
                stored(from),
                fuel,
            ) == sibling_chain(self.document_links(), from, fuel),
        decreases fuel,
    {
        let all = self.document_links();
        self.lemma_links_len(self.document, 0, None, None);
        self.lemma_links_within(self.document, 0, None, None);
        if let Some(at) = from {
            if fuel > 0 {
                self.lemma_wire_chain(table, all[at as int].next_sibling, (fuel - 1) as nat);
            }
        }
    }

    /// In a flattened document, every record stands at the position that is
    /// its id; the first child that a record names has a greater id than the
    /// record; and following the sibling links from the first child of a
    /// node meets exactly the records of that node's children, in their
    /// order, and ends at a record that names no sibling.
    pub proof fn lemma_wire_doc_links(self, content_type: Seq<char>, i: int)
        requires
            self.wf(),
            self.flattens(),
            0 <= i < self.wire_doc(content_type).nodes.len(),
        ensures
            self.wire_doc(content_type).nodes.len() == self.document_links().len(),
            self.wire_doc(content_type).nodes[i].id == i,
            self.wire_doc(content_type).nodes[i].first_child matches Some(first) ==> first
                > self.wire_doc(content_type).nodes[i].id,
            self.lists_children(
                self.document_links(),
                wire_sibling_chain(
                    self.wire_doc(content_type).nodes,
                    self.wire_doc(content_type).nodes[i].first_child,
                    self.wire_doc(content_type).nodes.len(),
                ),
                self.document_links()[i].node,
                0,
                i as nat,
            ),
    {
        let all = self.document_links();
        self.lemma_document_links(i);
        self.lemma_links_len(self.document, 0, None, None);
        self.lemma_links_within(self.document, 0, None, None);
        self.lemma_wire_chain(self.string_table(), all[i].first_child, all.len());
    }
}

} // verus!
