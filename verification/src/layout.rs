//! Where the nodes of a tree stand in the flat array.
//!
//! The nodes below a node are laid out depth first: the node, then the
//! subtrees of its children in order. The position of a node is its id. A
//! record names its parent, its first child and the sibling that follows it
//! by their positions, which is enough to rebuild the tree from the array.

use vstd::prelude::*;

use crate::tree::{DomView, Handle};

verus! {

/// Where a node stands in the flat array and which records it is linked to.
pub struct Link {
    /// The node that the record describes.
    pub node: Handle,
    /// The position of the record.
    pub id: nat,
    /// The position of the parent's record.
    pub parent: Option<nat>,
    /// The position of the first child's record.
    pub first_child: Option<nat>,
    /// The position of the record of the sibling that follows.
    pub next_sibling: Option<nat>,
}

/// The positions that are met when sibling links are followed from `from`
/// until a record names no sibling, in the order in which they are met.
pub open spec fn sibling_chain(links: Seq<Link>, from: Option<nat>, fuel: nat) -> Seq<nat>
    decreases fuel,
{
    match from {
        Some(at) => if fuel > 0 && at < links.len() {
            seq![at] + sibling_chain(links, links[at as int].next_sibling, (fuel - 1) as nat)
        } else {
            Seq::empty()
        },
        None => Seq::empty(),
    }
}

/// Whether a link, if there is one, points between `low` and `high`.
pub open spec fn points_within(link: Option<nat>, low: nat, high: nat) -> bool {
    link matches Some(to) ==> low < to < high
}

impl DomView {
    /// The number of nodes in the subtree of `h`, `h` included.
    pub open spec fn subtree_size(self, h: Handle) -> nat
        decreases self.height(h), self.children_of(h).len() + 1,
        when self.wf() && self.contains(h)
    {
        1 + self.forest_size(h, 0)
    }

    /// The number of nodes in the subtrees of the children of `h` from the
    /// `k`-th on.
    pub open spec fn forest_size(self, h: Handle, k: nat) -> nat
        decreases self.height(h), self.children_of(h).len() - k,
        when self.wf() && self.contains(h)
    {
        if k >= self.children_of(h).len() {
            0
        } else {
            self.subtree_size(self.children_of(h)[k as int]) + self.forest_size(h, k + 1)
        }
    }

    /// The record of `h` when it stands at position `id`.
    pub open spec fn link_of(
        self,
        h: Handle,
        id: nat,
        parent: Option<nat>,
        next_sibling: Option<nat>,
    ) -> Link {
        Link {
            node: h,
            id,
            parent,
            first_child: if self.children_of(h).len() > 0 {
                Some(id + 1)
            } else {
                None
            },
            next_sibling,
        }
    }

    /// The records of the subtree of `h` when `h` stands at position `base`:
    /// `h` first, then the subtrees of its children in order.
    pub open spec fn links(
        self,
        h: Handle,
        base: nat,
        parent: Option<nat>,
        next_sibling: Option<nat>,
    ) -> Seq<Link>
        decreases self.height(h), self.children_of(h).len() + 1,
        when self.wf() && self.contains(h)
    {
        seq![self.link_of(h, base, parent, next_sibling)] + self.forest_links(h, 0, base + 1, base)
    }

    /// The records of the subtrees of the children of `h` from the `k`-th
    /// on, when the `k`-th child stands at position `base` and `h` itself at
    /// position `parent`. Each child names the next one as its sibling; the
    /// last names none.
    pub open spec fn forest_links(self, h: Handle, k: nat, base: nat, parent: nat) -> Seq<Link>
        decreases self.height(h), self.children_of(h).len() - k,
        when self.wf() && self.contains(h)
    {
        if k >= self.children_of(h).len() {
            Seq::empty()
        } else {
            let child = self.children_of(h)[k as int];
            let after = base + self.subtree_size(child);
            let next = if k + 1 < self.children_of(h).len() {
                Some(after)
            } else {
                None
            };
            self.links(child, base, Some(parent), next) + self.forest_links(h, k + 1, after, parent)
        }
    }

    /// The records of the whole document.
    pub open spec fn document_links(self) -> Seq<Link> {
        self.links(self.document, 0, None, None)
    }

    /// Whether `link` is the record of a node of the arena that stands at
    /// position `at`, and names the position after its own as that of its
    /// first child if the node has children.
    pub open spec fn placed(self, link: Link, at: nat) -> bool {
        &&& self.contains(link.node)
        &&& link.id == at
        &&& link.first_child == if self.children_of(link.node).len() > 0 {
            Some(at + 1)
        } else {
            None
        }
    }

    /// Whether the records that stand in `all` at the positions in `chain`
    /// are those of the children of `h` from the `k`-th on, in order, and
    /// each of them names `parent` as the position of its parent.
    pub open spec fn lists_children(
        self,
        all: Seq<Link>,
        chain: Seq<nat>,
        h: Handle,
        k: nat,
        parent: nat,
    ) -> bool {
        &&& chain.len() == self.children_of(h).len() - k
        &&& forall|j: int|
            0 <= j < chain.len() ==> {
                &&& (#[trigger] chain[j]) < all.len()
                &&& all[chain[j] as int].node == self.children_of(h)[k + j]
                &&& all[chain[j] as int].parent == Some(parent)
            }
    }
}

impl DomView {
    /// A child is in the arena and lower than its parent.
    pub proof fn lemma_child(self, h: Handle, k: int)
        requires
            self.wf(),
            self.contains(h),
            0 <= k < self.children_of(h).len(),
        ensures
            self.contains(self.children_of(h)[k]),
            self.parent_of(self.children_of(h)[k]) == Some(h),
            self.height(self.children_of(h)[k]) < self.height(h),
    {
        let c = self.children_of(h)[k];
        assert(self.contains(c) && self.parent_of(c) == Some(h));
        self.lemma_owner(c);
    }

    /// A subtree has as many records as nodes, and at least one.
    pub proof fn lemma_links_len(
        self,
        h: Handle,
        base: nat,
        parent: Option<nat>,
        next_sibling: Option<nat>,
    )
        requires
            self.wf(),
            self.contains(h),
        ensures
            self.links(h, base, parent, next_sibling).len() == self.subtree_size(h),
            self.subtree_size(h) >= 1,
            self.links(h, base, parent, next_sibling)[0] == self.link_of(
                h,
                base,
                parent,
                next_sibling,
            ),
        decreases self.height(h), self.children_of(h).len() + 1,
    {
        self.lemma_forest_links_len(h, 0, base + 1, base);
    }

    /// A run of subtrees has as many records as nodes.
    pub proof fn lemma_forest_links_len(self, h: Handle, k: nat, base: nat, parent: nat)
        requires
            self.wf(),
            self.contains(h),
        ensures
            self.forest_links(h, k, base, parent).len() == self.forest_size(h, k),
        decreases self.height(h), self.children_of(h).len() - k,
    {
        if k < self.children_of(h).len() {
            let child = self.children_of(h)[k as int];
            self.lemma_child(h, k as int);
            let after = base + self.subtree_size(child);
            let next = if k + 1 < self.children_of(h).len() {
                Some(after)
            } else {
                None
            };
            self.lemma_links_len(child, base, Some(parent), next);
            self.lemma_forest_links_len(h, k + 1, after, parent);
        }
    }

    /// A run of subtrees has at least as many nodes as subtrees.
    pub proof fn lemma_forest_size_lower(self, h: Handle, k: nat)
        requires
            self.wf(),
            self.contains(h),
            k <= self.children_of(h).len(),
        ensures
            self.forest_size(h, k) >= self.children_of(h).len() - k,
        decreases self.children_of(h).len() - k,
    {
        if k < self.children_of(h).len() {
            self.lemma_child(h, k as int);
            self.lemma_links_len(self.children_of(h)[k as int], 0, None, None);
            self.lemma_forest_size_lower(h, k + 1);
        }
    }

    /// The sibling that a subtree's root names is the only thing in the
    /// subtree's records that depends on what follows the subtree.
    pub proof fn lemma_links_next(
        self,
        h: Handle,
        base: nat,
        parent: Option<nat>,
        next_sibling: Option<nat>,
    )
        requires
            self.wf(),
            self.contains(h),
        ensures
            self.links(h, base, parent, next_sibling) == self.links(h, base, parent, None).update(
                0,
                self.link_of(h, base, parent, next_sibling),
            ),
    {
        assert(self.links(h, base, parent, next_sibling) =~= self.links(
            h,
            base,
            parent,
            None,
        ).update(0, self.link_of(h, base, parent, next_sibling)));
    }

    /// Every record of a subtree stands at the position that is its id.
    pub proof fn lemma_links_placed(
        self,
        h: Handle,
        base: nat,
        parent: Option<nat>,
        next_sibling: Option<nat>,
    )
        requires
            self.wf(),
            self.contains(h),
        ensures
            forall|i: int|
                0 <= i < self.links(h, base, parent, next_sibling).len() ==> self.placed(
                    #[trigger] self.links(h, base, parent, next_sibling)[i],
                    (base + i) as nat,
                ),
        decreases self.height(h), self.children_of(h).len() + 1,
    {
        self.lemma_forest_links_placed(h, 0, base + 1, base);
        let own = self.links(h, base, parent, next_sibling);
        let below = self.forest_links(h, 0, base + 1, base);
        assert forall|i: int| 0 <= i < own.len() implies self.placed(
            #[trigger] own[i],
            (base + i) as nat,
        ) by {
            if i > 0 {
                assert(own[i] == below[i - 1]);
            }
        }
    }

    /// Every record of a run of subtrees stands at the position that is its id.
    pub proof fn lemma_forest_links_placed(self, h: Handle, k: nat, base: nat, parent: nat)
        requires
            self.wf(),
            self.contains(h),
        ensures
            forall|i: int|
                0 <= i < self.forest_links(h, k, base, parent).len() ==> self.placed(
                    #[trigger] self.forest_links(h, k, base, parent)[i],
                    (base + i) as nat,
                ),
        decreases self.height(h), self.children_of(h).len() - k,
    {
        if k < self.children_of(h).len() {
            let child = self.children_of(h)[k as int];
            self.lemma_child(h, k as int);
            let after = base + self.subtree_size(child);
            let next = if k + 1 < self.children_of(h).len() {
                Some(after)
            } else {
                None
            };
            self.lemma_links_len(child, base, Some(parent), next);
            self.lemma_links_placed(child, base, Some(parent), next);
            self.lemma_forest_links_placed(h, k + 1, after, parent);
            let run = self.forest_links(h, k, base, parent);
            let first = self.links(child, base, Some(parent), next);
            let rest = self.forest_links(h, k + 1, after, parent);
            assert forall|i: int| 0 <= i < run.len() implies self.placed(
                #[trigger] run[i],
                (base + i) as nat,
            ) by {
                if i < first.len() {
                    assert(run[i] == first[i]);
                } else {
                    assert(run[i] == rest[i - first.len()]);
                }
            }
        }
    }

    /// The records of a subtree point only at records of the subtree, except
    /// for the parent and the sibling that the root names.
    pub proof fn lemma_links_within(
        self,
        h: Handle,
        base: nat,
        parent: Option<nat>,
        next_sibling: Option<nat>,
    )
        requires
            self.wf(),
            self.contains(h),
        ensures
            forall|i: int|
                0 <= i < self.links(h, base, parent, next_sibling).len() ==> points_within(
                    (#[trigger] self.links(h, base, parent, next_sibling)[i]).first_child,
                    base,
                    base + self.subtree_size(h),
                ),
            forall|i: int|
                1 <= i < self.links(h, base, parent, next_sibling).len() ==> points_within(
                    (#[trigger] self.links(h, base, parent, next_sibling)[i]).next_sibling,
                    base,
                    base + self.subtree_size(h),
                ),
        decreases self.height(h), self.children_of(h).len() + 1,
    {
        self.lemma_forest_links_within(h, 0, base + 1, base);
        self.lemma_forest_links_len(h, 0, base + 1, base);
        self.lemma_forest_size_lower(h, 0);
        let own = self.links(h, base, parent, next_sibling);
        let below = self.forest_links(h, 0, base + 1, base);
        assert forall|i: int| 0 <= i < own.len() implies points_within(
            (#[trigger] own[i]).first_child,
            base,
            base + self.subtree_size(h),
        ) by {
            if i > 0 {
                assert(own[i] == below[i - 1]);
            }
        }
        assert forall|i: int| 1 <= i < own.len() implies points_within(
            (#[trigger] own[i]).next_sibling,
            base,
            base + self.subtree_size(h),
        ) by {
            assert(own[i] == below[i - 1]);
        }
    }

    /// The records of a run of subtrees point only at records of the run,
    /// except for the parent that the roots name.
    pub proof fn lemma_forest_links_within(self, h: Handle, k: nat, base: nat, parent: nat)
        requires
            self.wf(),
            self.contains(h),
            k <= self.children_of(h).len(),
        ensures
            forall|i: int|
                0 <= i < self.forest_links(h, k, base, parent).len() ==> points_within(
                    (#[trigger] self.forest_links(h, k, base, parent)[i]).first_child,
                    base,
                    base + self.forest_size(h, k),
                ) && points_within(
                    self.forest_links(h, k, base, parent)[i].next_sibling,
                    base,
                    base + self.forest_size(h, k),
                ),
        decreases self.height(h), self.children_of(h).len() - k,
    {
        if k < self.children_of(h).len() {
            let child = self.children_of(h)[k as int];
            self.lemma_child(h, k as int);
            let after = base + self.subtree_size(child);
            let next = if k + 1 < self.children_of(h).len() {
                Some(after)
            } else {
                None
            };
            self.lemma_links_len(child, base, Some(parent), next);
            self.lemma_links_within(child, base, Some(parent), next);
            self.lemma_forest_links_within(h, k + 1, after, parent);
            self.lemma_forest_size_lower(h, k + 1);
            let run = self.forest_links(h, k, base, parent);
            let first = self.links(child, base, Some(parent), next);
            let rest = self.forest_links(h, k + 1, after, parent);
            assert forall|i: int| 0 <= i < run.len() implies points_within(
                (#[trigger] run[i]).first_child,
                base,
                base + self.forest_size(h, k),
            ) && points_within(run[i].next_sibling, base, base + self.forest_size(h, k)) by {
                if i < first.len() {
                    assert(run[i] == first[i]);
                } else {
                    assert(run[i] == rest[i - first.len()]);
                }
            }
        }
    }

    /// Where the records of the children of `h` from the `k`-th on stand in
    /// `all` from position `base` on, following sibling links from `base`
    /// meets the records of exactly those children, in order.
    pub proof fn lemma_chain_forest(
        self,
        all: Seq<Link>,
        h: Handle,
        k: nat,
        base: nat,
        parent: nat,
        fuel: nat,
    )
        requires
            self.wf(),
            self.contains(h),
            k <= self.children_of(h).len(),
            base + self.forest_size(h, k) <= all.len(),
            all.subrange(base as int, (base + self.forest_size(h, k)) as int) == self.forest_links(
                h,
                k,
                base,
                parent,
            ),
            fuel >= self.children_of(h).len() - k,
        ensures
            self.lists_children(
                all,
                sibling_chain(
                    all,
                    if k < self.children_of(h).len() {
                        Some(base)
                    } else {
                        None
                    },
                    fuel,
                ),
                h,
                k,
                parent,
            ),
        decreases self.children_of(h).len() - k,
    {
        if k < self.children_of(h).len() {
            let child = self.children_of(h)[k as int];
            self.lemma_child(h, k as int);
            let after = base + self.subtree_size(child);
            let next = if k + 1 < self.children_of(h).len() {
                Some(after)
            } else {
                None
            };
            let run = self.forest_links(h, k, base, parent);
            let rest = self.forest_links(h, k + 1, after, parent);
            self.lemma_links_len(child, base, Some(parent), next);
            self.lemma_forest_links_len(h, k + 1, after, parent);
            assert(all[base as int] == run[0]);
            assert(all[base as int] == self.link_of(child, base, Some(parent), next));
            assert(all.subrange(after as int, (after + self.forest_size(h, k + 1)) as int) =~= rest) by {
                assert forall|i: int| 0 <= i < rest.len() implies all[after + i] == rest[i] by {
                    assert(all[after + i] == run[after - base + i]);
                }
            }
            self.lemma_chain_forest(all, h, k + 1, after, parent, (fuel - 1) as nat);
            let tail = sibling_chain(all, next, (fuel - 1) as nat);
            let chain = sibling_chain(all, Some(base), fuel);
            assert(chain == seq![base] + tail);
            assert forall|j: int| 0 <= j < chain.len() implies (#[trigger] chain[j]) < all.len()
                && all[chain[j] as int].node == self.children_of(h)[k + j] && all[chain[j] as int].parent
                == Some(parent) by {
                if j > 0 {
                    assert(chain[j] == tail[j - 1]);
                }
            }
        }
    }

    /// Where the records of a subtree stand in `all` from position `base`
    /// on, following sibling links from the first child of any of its nodes
    /// meets the records of exactly that node's children, in order.
    pub proof fn lemma_chain_subtree(
        self,
        all: Seq<Link>,
        h: Handle,
        base: nat,
        parent: Option<nat>,
        next_sibling: Option<nat>,
    )
        requires
            self.wf(),
            self.contains(h),
            base + self.subtree_size(h) <= all.len(),
            all.subrange(base as int, (base + self.subtree_size(h)) as int) == self.links(
                h,
                base,
                parent,
                next_sibling,
            ),
        ensures
            forall|i: int|
                base <= i < base + self.subtree_size(h) ==> self.lists_children(
                    all,
                    sibling_chain(all, (#[trigger] all[i]).first_child, all.len()),
                    all[i].node,
                    0,
                    i as nat,
                ),
        decreases self.height(h), self.children_of(h).len() + 1,
    {
        let own = self.links(h, base, parent, next_sibling);
        let below = self.forest_links(h, 0, base + 1, base);
        self.lemma_forest_links_len(h, 0, base + 1, base);
        self.lemma_forest_size_lower(h, 0);
        assert(all.subrange((base + 1) as int, (base + 1 + self.forest_size(h, 0)) as int) =~= below) by {
            assert forall|i: int| 0 <= i < below.len() implies all[base + 1 + i] == below[i] by {
                assert(all[base + 1 + i] == own[1 + i]);
            }
        }
        assert(all[base as int] == own[0]);
        self.lemma_chain_forest(all, h, 0, base + 1, base, all.len());
        self.lemma_chain_forest_inner(all, h, 0, base + 1, base);
    }

    /// The same, for every node of a run of subtrees.
    pub proof fn lemma_chain_forest_inner(
        self,
        all: Seq<Link>,
        h: Handle,
        k: nat,
        base: nat,
        parent: nat,
    )
        requires
            self.wf(),
            self.contains(h),
            k <= self.children_of(h).len(),
            base + self.forest_size(h, k) <= all.len(),
            all.subrange(base as int, (base + self.forest_size(h, k)) as int) == self.forest_links(
                h,
                k,
                base,
                parent,
            ),
        ensures
            forall|i: int|
                base <= i < base + self.forest_size(h, k) ==> self.lists_children(
                    all,
                    sibling_chain(all, (#[trigger] all[i]).first_child, all.len()),
                    all[i].node,
                    0,
                    i as nat,
                ),
        decreases self.height(h), self.children_of(h).len() - k,
    {
        if k < self.children_of(h).len() {
            let child = self.children_of(h)[k as int];
            self.lemma_child(h, k as int);
            let after = base + self.subtree_size(child);
            let next = if k + 1 < self.children_of(h).len() {
                Some(after)
            } else {
                None
            };
            let run = self.forest_links(h, k, base, parent);
            let first = self.links(child, base, Some(parent), next);
            let rest = self.forest_links(h, k + 1, after, parent);
            self.lemma_links_len(child, base, Some(parent), next);
            self.lemma_forest_links_len(h, k + 1, after, parent);
            assert(all.subrange(base as int, after as int) =~= first) by {
                assert forall|i: int| 0 <= i < first.len() implies all[base + i] == first[i] by {
                    assert(all[base + i] == run[i]);
                }
            }
            assert(all.subrange(after as int, (after + self.forest_size(h, k + 1)) as int) =~= rest) by {
                assert forall|i: int| 0 <= i < rest.len() implies all[after + i] == rest[i] by {
                    assert(all[after + i] == run[after - base + i]);
                }
            }
            self.lemma_chain_subtree(all, child, base, Some(parent), next);
            self.lemma_chain_forest_inner(all, h, k + 1, after, parent);
        }
    }

    /// In the records of a document, every record stands at the position
    /// that is its id; a record that names a first child names the position
    /// after its own; and following the sibling links from the first child
    /// of a node meets exactly the children of that node, in their order,
    /// each naming the node as its parent, and ends at a record that names
    /// no sibling.
    pub proof fn lemma_document_links(self, i: int)
        requires
            self.wf(),
            0 <= i < self.document_links().len(),
        ensures
            self.document_links().len() == self.subtree_size(self.document),
            self.placed(self.document_links()[i], i as nat),
            self.document_links()[i].first_child matches Some(first) ==> first > self.document_links()[i].id,
            self.lists_children(
                self.document_links(),
                sibling_chain(
                    self.document_links(),
                    self.document_links()[i].first_child,
                    self.document_links().len(),
                ),
                self.document_links()[i].node,
                0,
                i as nat,
            ),
    {
        let all = self.document_links();
        self.lemma_links_len(self.document, 0, None, None);
        self.lemma_links_placed(self.document, 0, None, None);
        assert(all.subrange(0, all.len() as int) =~= all);
        self.lemma_chain_subtree(all, self.document, 0, None, None);
    }
}

} // verus!
