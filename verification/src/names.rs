//! Qualified names and attributes.

use vstd::prelude::*;
use vstd::string::*;

use crate::text::str_eq;

verus! {

/// A name with an optional prefix and a namespace, as in `svg:rect`.
#[derive(Debug, PartialEq, Eq, Hash)]
pub struct QualName {
    /// The prefix before the colon, if the name was written with one.
    pub prefix: Option<String>,
    /// The namespace URI; empty for a name in no namespace.
    pub ns: String,
    /// The name after the colon.
    pub local: String,
}

/// A [`QualName`] as a mathematical value.
pub struct QualNameView {
    pub prefix: Option<Seq<char>>,
    pub ns: Seq<char>,
    pub local: Seq<char>,
}

impl View for QualName {
    type V = QualNameView;

    open spec fn view(&self) -> QualNameView {
        QualNameView {
            prefix: match self.prefix {
                Some(p) => Some(p@),
                None => None,
            },
            ns: self.ns@,
            local: self.local@,
        }
    }
}

impl QualName {
    /// A name from its parts.
    pub fn new(prefix: Option<String>, ns: String, local: String) -> (r: QualName)
        ensures
            r.prefix == prefix,
            r.ns == ns,
            r.local == local,
    {
        QualName { prefix, ns, local }
    }

    /// Whether two names agree in prefix, namespace and local name.
    pub fn same_as(&self, other: &QualName) -> (r: bool)
        ensures
            r == (self@ == other@),
    {
        let same_prefix = match (&self.prefix, &other.prefix) {
            (Some(a), Some(b)) => str_eq(a.as_str(), b.as_str()),
            (None, None) => true,
            _ => false,
        };
        same_prefix && str_eq(self.ns.as_str(), other.ns.as_str()) && str_eq(
            self.local.as_str(),
            other.local.as_str(),
        )
    }
}

impl Clone for QualName {
    fn clone(&self) -> (r: QualName)
        ensures
            r@ == self@,
    {
        let prefix = match &self.prefix {
            Some(p) => Some(p.clone()),
            None => None,
        };
        QualName { prefix, ns: self.ns.clone(), local: self.local.clone() }
    }
}

/// An attribute of an element.
#[derive(Debug, PartialEq, Eq, Hash)]
pub struct Attribute {
    pub name: QualName,
    pub value: String,
}

/// An [`Attribute`] as a mathematical value.
pub struct AttributeView {
    pub name: QualNameView,
    pub value: Seq<char>,
}

impl View for Attribute {
    type V = AttributeView;

    open spec fn view(&self) -> AttributeView {
        AttributeView { name: self.name@, value: self.value@ }
    }
}

impl Clone for Attribute {
    fn clone(&self) -> (r: Attribute)
        ensures
            r@ == self@,
    {
        Attribute { name: self.name.clone(), value: self.value.clone() }
    }
}

/// The view of each attribute of a sequence.
pub open spec fn attribute_views(attrs: Seq<Attribute>) -> Seq<AttributeView> {
    attrs.map_values(|a: Attribute| a@)
}

/// Whether one of `attrs` has the given name.
pub open spec fn has_name(attrs: Seq<AttributeView>, name: QualNameView) -> bool {
    exists|i: int| 0 <= i < attrs.len() && (#[trigger] attrs[i]).name == name
}

/// Those of `incoming`, in order, whose name none of `existing` has.
pub open spec fn missing_attributes(
    existing: Seq<AttributeView>,
    incoming: Seq<AttributeView>,
) -> Seq<AttributeView>
    decreases incoming.len(),
{
    if incoming.len() == 0 {
        Seq::empty()
    } else {
        let before = missing_attributes(existing, incoming.drop_last());
        if has_name(existing, incoming.last().name) {
            before
        } else {
            before.push(incoming.last())
        }
    }
}

/// Whether no two of `attrs` have the same name.
pub open spec fn unique_names(attrs: Seq<AttributeView>) -> bool {
    forall|i: int, j: int|
        0 <= i < j < attrs.len() ==> (#[trigger] attrs[i]).name != (#[trigger] attrs[j]).name
}

/// The attributes that are missing are attributes of `incoming`, in the
/// order of `incoming`, and none of their names is a name of `existing`.
pub proof fn lemma_missing_attributes(existing: Seq<AttributeView>, incoming: Seq<AttributeView>)
    ensures
        missing_attributes(existing, incoming).len() <= incoming.len(),
        forall|k: int|
            0 <= k < missing_attributes(existing, incoming).len() ==> !has_name(
                existing,
                (#[trigger] missing_attributes(existing, incoming)[k]).name,
            ),
        forall|k: int|
            0 <= k < missing_attributes(existing, incoming).len() ==> exists|i: int|
                k <= i < incoming.len() && incoming[i] == #[trigger] missing_attributes(
                    existing,
                    incoming,
                )[k],
        unique_names(incoming) ==> unique_names(missing_attributes(existing, incoming)),
    decreases incoming.len(),
{
    if incoming.len() > 0 {
        let before = incoming.drop_last();
        let last = incoming.last();
        let found = missing_attributes(existing, incoming);
        let earlier = missing_attributes(existing, before);
        lemma_missing_attributes(existing, before);
        assert forall|k: int| 0 <= k < found.len() implies exists|i: int|
            k <= i < incoming.len() && incoming[i] == #[trigger] found[k] by {
            if k < earlier.len() {
                let i = choose|i: int| k <= i < before.len() && before[i] == earlier[k];
                assert(incoming[i] == found[k]);
            } else {
                assert(incoming[incoming.len() - 1] == found[k]);
            }
        }
        if unique_names(incoming) {
            assert forall|i: int, j: int| 0 <= i < j < before.len() implies (#[trigger] before[i]).name
                != (#[trigger] before[j]).name by {
                assert(before[i] == incoming[i] && before[j] == incoming[j]);
            }
            assert forall|i: int, j: int| 0 <= i < j < found.len() implies (#[trigger] found[i]).name
                != (#[trigger] found[j]).name by {
                if j == earlier.len() {
                    let at = choose|at: int| i <= at < before.len() && before[at] == earlier[i];
                    assert(incoming[at] == found[i]);
                    assert(incoming[incoming.len() - 1] == found[j]);
                }
            }
        }
    }
}

/// Attributes are only ever added behind those that are there, and an
/// element whose attribute names are all different keeps them all different
/// when it is given attributes whose names are all different.
pub proof fn lemma_added_attributes_unique(
    existing: Seq<AttributeView>,
    incoming: Seq<AttributeView>,
)
    requires
        unique_names(existing),
        unique_names(incoming),
    ensures
        unique_names(existing + missing_attributes(existing, incoming)),
        (existing + missing_attributes(existing, incoming)).take(existing.len() as int) == existing,
{
    let added = missing_attributes(existing, incoming);
    let all = existing + added;
    lemma_missing_attributes(existing, incoming);
    assert forall|i: int, j: int| 0 <= i < j < all.len() implies (#[trigger] all[i]).name
        != (#[trigger] all[j]).name by {
        if j >= existing.len() {
            assert(all[j] == added[j - existing.len()]);
            if i < existing.len() {
                assert(existing[i].name == all[i].name);
            } else {
                assert(all[i] == added[i - existing.len()]);
            }
        }
    }
    assert(all.take(existing.len() as int) =~= existing);
}

/// Whether one of `attrs` has the given name.
pub fn contains_name(attrs: &Vec<Attribute>, name: &QualName) -> (r: bool)
    ensures
        r == has_name(attribute_views(attrs@), name@),
{
    let mut i: usize = 0;
    while i < attrs.len()
        invariant
            i <= attrs.len(),
            forall|j: int| 0 <= j < i ==> (#[trigger] attribute_views(attrs@)[j]).name != name@,
        decreases attrs.len() - i,
    {
        if attrs[i].name.same_as(name) {
            assert(attribute_views(attrs@)[i as int].name == name@);
            return true;
        }
        i += 1;
    }
    false
}

} // verus!
