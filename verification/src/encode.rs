//! What a node contributes to its record: its kind, and the ids of its
//! strings in the table of an interner.
//!
//! Every string of a node is interned, in a fixed order, and only its id
//! goes into the record. The ids are positions in the table as it stands at
//! the end; since interning never moves a string, they are the ids that were
//! handed out along the way.

use vstd::prelude::*;
use vstd::string::*;

use crate::interner::{
    interned,
    interned_all,
    lemma_interned,
    lemma_interned_all_concat,
    lemma_interned_all_keeps,
    lemma_interned_keeps,
    lemma_position,
    position,
    Interner,
};
use crate::names::{attribute_views, Attribute, AttributeView, QualName, QualNameView};
use crate::rcdom::NodeData;
use crate::text::{trim, trimmed};
use crate::tree::NodeDataView;
use crate::wire::{max_id, WireAttr, WireNodeType};

verus! {

/// Whether every string of a run receives an id of at most [`max_id`] when
/// the run is interned into `table`.
pub open spec fn ids_fit(table: Seq<Seq<char>>, strings: Seq<Seq<char>>) -> bool
    decreases strings.len(),
{
    strings.len() == 0 || (position(table, strings[0]) <= max_id() && ids_fit(
        interned(table, strings[0]),
        strings.drop_first(),
    ))
}

/// Whether `later` holds every string of `earlier` at the same id.
pub open spec fn keeps_ids(earlier: Seq<Seq<char>>, later: Seq<Seq<char>>) -> bool {
    forall|s: Seq<char>| #[trigger]
        earlier.contains(s) ==> later.contains(s) && position(later, s) == position(earlier, s)
}

/// The id under which `table` holds `s`.
pub open spec fn id_in(table: Seq<Seq<char>>, s: Seq<char>) -> u32 {
    position(table, s) as u32
}

/// Whether `table` holds `s` under an id of at most [`max_id`].
pub open spec fn holds(table: Seq<Seq<char>>, s: Seq<char>) -> bool {
    table.contains(s) && position(table, s) <= max_id()
}

/// The prefix of a name, empty if the name has none.
pub open spec fn prefix_of(name: QualNameView) -> Seq<char> {
    match name.prefix {
        Some(prefix) => prefix,
        None => Seq::empty(),
    }
}

/// A name as it is written: `prefix:local`, or the local name alone when
/// there is no prefix.
pub open spec fn written_name(name: QualNameView) -> Seq<char> {
    if prefix_of(name).len() > 0 {
        prefix_of(name) + seq![':'] + name.local
    } else {
        name.local
    }
}

/// The strings that are interned for the name of an element, in order: the
/// namespace if there is one, the local name, and the prefixed name if there
/// is a prefix.
pub open spec fn name_strings(name: QualNameView) -> Seq<Seq<char>> {
    let ns = if name.ns.len() > 0 {
        seq![name.ns]
    } else {
        Seq::empty()
    };
    let prefixed = if prefix_of(name).len() > 0 {
        seq![written_name(name)]
    } else {
        Seq::empty()
    };
    ns + seq![name.local] + prefixed
}

/// The strings that are interned for one attribute, in order: the namespace
/// if there is one, the local name and the value.
pub open spec fn attr_strings(attr: AttributeView) -> Seq<Seq<char>> {
    let ns = if attr.name.ns.len() > 0 {
        seq![attr.name.ns]
    } else {
        Seq::empty()
    };
    ns + seq![attr.name.local, attr.value]
}

/// The strings that are interned for the attributes of an element, in order.
pub open spec fn attrs_strings(attrs: Seq<AttributeView>) -> Seq<Seq<char>>
    decreases attrs.len(),
{
    if attrs.len() == 0 {
        Seq::empty()
    } else {
        attrs_strings(attrs.drop_last()) + attr_strings(attrs.last())
    }
}

/// The record of one attribute. The name is the local name alone.
pub open spec fn attr_record(attr: AttributeView, table: Seq<Seq<char>>) -> WireAttr {
    WireAttr {
        ns: if attr.name.ns.len() > 0 {
            Some(id_in(table, attr.name.ns))
        } else {
            None
        },
        name: id_in(table, attr.name.local),
        value: id_in(table, attr.value),
    }
}

/// The records of the attributes of an element.
pub open spec fn attr_records(attrs: Seq<AttributeView>, table: Seq<Seq<char>>) -> Seq<WireAttr> {
    attrs.map_values(|a: AttributeView| attr_record(a, table))
}

/// One identifier of a doctype as it is written in the doctype's text: the
/// opening, the identifier and a closing quote, or nothing for an empty
/// identifier.
pub open spec fn doctype_part(opening: Seq<char>, id: Seq<char>) -> Seq<char> {
    if id.len() > 0 {
        opening + id + "\""@
    } else {
        Seq::empty()
    }
}

/// The text of a doctype: its name, followed by ` PUBLIC "..."` and
/// ` SYSTEM "..."` for the identifiers that are not empty, the whole trimmed.
pub open spec fn doctype_text(name: Seq<char>, public_id: Seq<char>, system_id: Seq<char>) -> Seq<
    char,
> {
    trimmed(name + doctype_part(" PUBLIC \""@, public_id) + doctype_part(" SYSTEM \""@, system_id))
}

/// The attribute that stands for one identifier of a doctype: none for an
/// empty identifier.
pub open spec fn doctype_attr(key: Seq<char>, id: Seq<char>, table: Seq<Seq<char>>) -> Seq<
    WireAttr,
> {
    if id.len() > 0 {
        seq![WireAttr { ns: None, name: id_in(table, key), value: id_in(table, id) }]
    } else {
        Seq::empty()
    }
}

/// The attributes that restate a doctype: always its name, and the public
/// and the system identifier where they are not empty.
pub open spec fn doctype_attrs(
    name: Seq<char>,
    public_id: Seq<char>,
    system_id: Seq<char>,
    table: Seq<Seq<char>>,
) -> Seq<WireAttr> {
    seq![WireAttr { ns: None, name: id_in(table, "name"@), value: id_in(table, name) }]
        + doctype_attr("publicId"@, public_id, table) + doctype_attr(
        "systemId"@,
        system_id,
        table,
    )
}

/// The strings that are interned for one identifier of a doctype.
pub open spec fn doctype_id_strings(key: Seq<char>, id: Seq<char>) -> Seq<Seq<char>> {
    if id.len() > 0 {
        seq![key, id]
    } else {
        Seq::empty()
    }
}

/// The strings that are interned for a doctype, in order.
pub open spec fn doctype_strings(name: Seq<char>, public_id: Seq<char>, system_id: Seq<char>) -> Seq<
    Seq<char>,
> {
    seq![name, "name"@, name] + doctype_id_strings("publicId"@, public_id) + doctype_id_strings(
        "systemId"@,
        system_id,
    ) + seq![doctype_text(name, public_id, system_id)]
}

/// The strings that are interned for a node, in order.
pub open spec fn node_strings(data: NodeDataView) -> Seq<Seq<char>> {
    match data {
        NodeDataView::Document => seq!["#document"@],
        NodeDataView::Doctype { name, public_id, system_id } => doctype_strings(
            name,
            public_id,
            system_id,
        ),
        NodeDataView::Text { contents } => seq!["#text"@, contents],
        NodeDataView::Comment { contents } => seq!["#comment"@, contents],
        NodeDataView::ProcessingInstruction { target, contents } => seq![target, contents],
        NodeDataView::Element { name, attrs, .. } => name_strings(name) + attrs_strings(attrs),
    }
}

/// The kind under which a node is recorded.
pub open spec fn node_type_of(data: NodeDataView) -> WireNodeType {
    match data {
        NodeDataView::Document => WireNodeType::Document,
        NodeDataView::Doctype { .. } => WireNodeType::DocumentType,
        NodeDataView::Text { .. } => WireNodeType::Text,
        NodeDataView::Comment { .. } => WireNodeType::Comment,
        NodeDataView::ProcessingInstruction { .. } => WireNodeType::ProcessingInstruction,
        NodeDataView::Element { .. } => WireNodeType::Element,
    }
}

/// The string that a node is named by.
pub open spec fn name_of(data: NodeDataView) -> Seq<char> {
    match data {
        NodeDataView::Document => "#document"@,
        NodeDataView::Doctype { name, .. } => name,
        NodeDataView::Text { .. } => "#text"@,
        NodeDataView::Comment { .. } => "#comment"@,
        NodeDataView::ProcessingInstruction { target, .. } => target,
        NodeDataView::Element { name, .. } => written_name(name),
    }
}

/// The string that a node has as its value, if it has one.
pub open spec fn value_of(data: NodeDataView) -> Option<Seq<char>> {
    match data {
        NodeDataView::Document => None,
        NodeDataView::Doctype { name, public_id, system_id } => Some(
            doctype_text(name, public_id, system_id),
        ),
        NodeDataView::Text { contents } => Some(contents),
        NodeDataView::Comment { contents } => Some(contents),
        NodeDataView::ProcessingInstruction { contents, .. } => Some(contents),
        NodeDataView::Element { .. } => None,
    }
}

/// The attribute records of a node: those of an element that has
/// attributes, and those that restate a doctype.
pub open spec fn attrs_of(data: NodeDataView, table: Seq<Seq<char>>) -> Option<Seq<WireAttr>> {
    match data {
        NodeDataView::Doctype { name, public_id, system_id } => Some(
            doctype_attrs(name, public_id, system_id, table),
        ),
        NodeDataView::Element { attrs, .. } => if attrs.len() > 0 {
            Some(attr_records(attrs, table))
        } else {
            None
        },
        _ => None,
    }
}

/// Whether `table` holds every string that the record of an attribute
/// refers to.
pub open spec fn knows_attr(table: Seq<Seq<char>>, attr: AttributeView) -> bool {
    &&& holds(table, attr.name.local)
    &&& holds(table, attr.value)
    &&& attr.name.ns.len() > 0 ==> holds(table, attr.name.ns)
}

/// Whether `table` holds every string that the records of `attrs` refer to.
pub open spec fn knows_attrs(table: Seq<Seq<char>>, attrs: Seq<AttributeView>) -> bool {
    forall|i: int| 0 <= i < attrs.len() ==> knows_attr(table, #[trigger] attrs[i])
}

/// Whether `table` holds every string that the record of a node refers to.
pub open spec fn knows(table: Seq<Seq<char>>, data: NodeDataView) -> bool {
    &&& holds(table, name_of(data))
    &&& value_of(data) matches Some(value) ==> holds(table, value)
    &&& match data {
        NodeDataView::Doctype { name, public_id, system_id } => {
            &&& holds(table, "name"@)
            &&& public_id.len() > 0 ==> holds(table, "publicId"@) && holds(table, public_id)
            &&& system_id.len() > 0 ==> holds(table, "systemId"@) && holds(table, system_id)
        },
        NodeDataView::Element { attrs, .. } => knows_attrs(table, attrs),
        _ => true,
    }
}

/// The string that an id stands for.
pub open spec fn string_of(table: Seq<Seq<char>>, id: u32) -> Seq<char> {
    table[id as int]
}

/// The attribute that a record stands for. A record keeps no prefix.
pub open spec fn attr_of(table: Seq<Seq<char>>, record: WireAttr) -> AttributeView {
    AttributeView {
        name: QualNameView {
            prefix: None,
            ns: match record.ns {
                Some(ns) => string_of(table, ns),
                None => Seq::empty(),
            },
            local: string_of(table, record.name),
        },
        value: string_of(table, record.value),
    }
}

/// The attributes that a run of records stands for.
pub open spec fn attrs_in(table: Seq<Seq<char>>, records: Seq<WireAttr>) -> Seq<AttributeView> {
    records.map_values(|r: WireAttr| attr_of(table, r))
}

/// An attribute without its prefix: what a record keeps of it.
pub open spec fn unprefixed(attr: AttributeView) -> AttributeView {
    AttributeView {
        name: QualNameView { prefix: None, ns: attr.name.ns, local: attr.name.local },
        value: attr.value,
    }
}

/// An attribute in no namespace.
pub open spec fn plain_attr(key: Seq<char>, value: Seq<char>) -> AttributeView {
    AttributeView {
        name: QualNameView { prefix: None, ns: Seq::empty(), local: key },
        value,
    }
}

/// The attribute under which an identifier of a doctype is restated: none
/// for an empty identifier.
pub open spec fn restated_id(key: Seq<char>, id: Seq<char>) -> Seq<AttributeView> {
    if id.len() > 0 {
        seq![plain_attr(key, id)]
    } else {
        Seq::empty()
    }
}

/// The attributes under which a doctype is restated.
pub open spec fn restated(name: Seq<char>, public_id: Seq<char>, system_id: Seq<char>) -> Seq<
    AttributeView,
> {
    seq![plain_attr("name"@, name)] + restated_id("publicId"@, public_id) + restated_id(
        "systemId"@,
        system_id,
    )
}

/// The attributes that the record of a node stands for, if the record has
/// attributes: those of an element that has any, without their prefixes, and
/// those under which a doctype is restated.
pub open spec fn attributes_of(data: NodeDataView) -> Option<Seq<AttributeView>> {
    match data {
        NodeDataView::Doctype { name, public_id, system_id } => Some(
            restated(name, public_id, system_id),
        ),
        NodeDataView::Element { attrs, .. } => if attrs.len() > 0 {
            Some(attrs.map_values(|a: AttributeView| unprefixed(a)))
        } else {
            None
        },
        _ => None,
    }
}

/// What a node contributes to its record besides its place in the array.
pub struct Encoded {
    pub node_type: WireNodeType,
    pub name: Option<u32>,
    pub value: Option<u32>,
    pub attrs: Option<Vec<WireAttr>>,
}

impl Encoded {
    /// Whether this is what `data` contributes to its record over `table`.
    pub open spec fn encodes(self, data: NodeDataView, table: Seq<Seq<char>>) -> bool {
        &&& self.node_type == node_type_of(data)
        &&& self.name == Some(id_in(table, name_of(data)))
        &&& self.value == match value_of(data) {
            Some(value) => Some(id_in(table, value)),
            None => None,
        }
        &&& match self.attrs {
            Some(attrs) => attrs_of(data, table) == Some(attrs@),
            None => attrs_of(data, table) is None,
        }
    }
}

/// Interning keeps the ids of the strings that the table holds.
pub proof fn lemma_keeps_ids_interned(table: Seq<Seq<char>>, s: Seq<char>)
    ensures
        keeps_ids(table, interned(table, s)),
        interned(table, s).contains(s),
{
    assert forall|x: Seq<char>| #[trigger] table.contains(x) implies interned(table, s).contains(x)
        && position(interned(table, s), x) == position(table, x) by {
        lemma_interned_keeps(table, x, s);
    }
    lemma_interned(table, s);
    lemma_position(interned(table, s), s);
}

/// Interning a run keeps the ids of the strings that the table holds.
pub proof fn lemma_keeps_ids_interned_all(table: Seq<Seq<char>>, strings: Seq<Seq<char>>)
    ensures
        keeps_ids(table, interned_all(table, strings)),
{
    assert forall|x: Seq<char>| #[trigger] table.contains(x) implies interned_all(
        table,
        strings,
    ).contains(x) && position(interned_all(table, strings), x) == position(table, x) by {
        lemma_interned_all_keeps(table, strings, x);
    }
}

/// The ids of two runs fit exactly when those of the first fit and, after
/// it, those of the second.
pub proof fn lemma_ids_fit_concat(
    table: Seq<Seq<char>>,
    first: Seq<Seq<char>>,
    second: Seq<Seq<char>>,
)
    ensures
        ids_fit(table, first + second) <==> ids_fit(table, first) && ids_fit(
            interned_all(table, first),
            second,
        ),
    decreases first.len(),
{
    if first.len() == 0 {
        assert(first + second =~= second);
    } else {
        assert((first + second)[0] == first[0]);
        assert((first + second).drop_first() =~= first.drop_first() + second);
        lemma_ids_fit_concat(interned(table, first[0]), first.drop_first(), second);
    }
}

/// Interning a run of one string is interning that string.
pub proof fn lemma_run_of_one(table: Seq<Seq<char>>, s: Seq<char>)
    ensures
        interned_all(table, seq![s]) == interned(table, s),
        ids_fit(table, seq![s]) <==> position(table, s) <= max_id(),
{
    let run = seq![s];
    assert(run[0] == s);
    assert(run.drop_first() =~= Seq::<Seq<char>>::empty());
    assert(interned_all(interned(table, s), run.drop_first()) == interned(table, s));
    assert(ids_fit(interned(table, s), run.drop_first()));
}

/// A table holds every string of a run that was interned into it, under an
/// id that fits if the ids of the run fit.
pub proof fn lemma_run_holds(table: Seq<Seq<char>>, strings: Seq<Seq<char>>, i: int)
    requires
        ids_fit(table, strings),
        0 <= i < strings.len(),
    ensures
        holds(interned_all(table, strings), strings[i]),
    decreases strings.len(),
{
    let next = interned(table, strings[0]);
    let rest = strings.drop_first();
    if i == 0 {
        lemma_keeps_ids_interned(table, strings[0]);
        lemma_interned(table, strings[0]);
        lemma_keeps_ids_interned_all(next, rest);
        assert(next.contains(strings[0]));
    } else {
        assert(rest[i - 1] == strings[i]);
        lemma_run_holds(next, rest, i - 1);
    }
}

/// A table holds the strings of the attributes that were interned into it.
pub proof fn lemma_attrs_known(table: Seq<Seq<char>>, attrs: Seq<AttributeView>)
    requires
        ids_fit(table, attrs_strings(attrs)),
    ensures
        knows_attrs(interned_all(table, attrs_strings(attrs)), attrs),
    decreases attrs.len(),
{
    if attrs.len() > 0 {
        let front = attrs.drop_last();
        let last = attrs.last();
        let middle = interned_all(table, attrs_strings(front));
        let end = interned_all(table, attrs_strings(attrs));
        lemma_ids_fit_concat(table, attrs_strings(front), attr_strings(last));
        lemma_interned_all_concat(table, attrs_strings(front), attr_strings(last));
        lemma_attrs_known(table, front);
        lemma_keeps_ids_interned_all(middle, attr_strings(last));
        let run = attr_strings(last);
        if last.name.ns.len() > 0 {
            assert(run =~= seq![last.name.ns, last.name.local, last.value]);
            lemma_run_holds(middle, run, 0);
            lemma_run_holds(middle, run, 1);
            lemma_run_holds(middle, run, 2);
        } else {
            assert(run =~= seq![last.name.local, last.value]);
            lemma_run_holds(middle, run, 0);
            lemma_run_holds(middle, run, 1);
        }
        assert forall|i: int| 0 <= i < attrs.len() implies knows_attr(end, #[trigger] attrs[i]) by {
            if i < front.len() {
                assert(knows_attr(middle, front[i]));
                assert(attrs[i] == front[i]);
            }
        }
    }
}

/// A table holds the strings of the name of an element that were interned
/// into it.
pub proof fn lemma_name_known(table: Seq<Seq<char>>, name: QualNameView)
    requires
        ids_fit(table, name_strings(name)),
    ensures
        holds(interned_all(table, name_strings(name)), written_name(name)),
{
    let run = name_strings(name);
    let first: int = if name.ns.len() > 0 {
        1
    } else {
        0
    };
    if prefix_of(name).len() > 0 {
        assert(run[first + 1] == written_name(name));
        lemma_run_holds(table, run, first + 1);
    } else {
        assert(run[first] == written_name(name));
        lemma_run_holds(table, run, first);
    }
}

/// A table holds the strings of a doctype that were interned into it.
pub proof fn lemma_doctype_known(
    table: Seq<Seq<char>>,
    name: Seq<char>,
    public_id: Seq<char>,
    system_id: Seq<char>,
)
    requires
        ids_fit(table, doctype_strings(name, public_id, system_id)),
    ensures
        knows(
            interned_all(table, doctype_strings(name, public_id, system_id)),
            NodeDataView::Doctype { name, public_id, system_id },
        ),
{
    let run = doctype_strings(name, public_id, system_id);
    let publics = doctype_id_strings("publicId"@, public_id);
    let systems = doctype_id_strings("systemId"@, system_id);
    assert(run.len() == 4 + publics.len() + systems.len());
    assert(run[0] == name);
    assert(run[1] == "name"@);
    assert(run[run.len() - 1] == doctype_text(name, public_id, system_id));
    lemma_run_holds(table, run, 0);
    lemma_run_holds(table, run, 1);
    lemma_run_holds(table, run, run.len() - 1);
    if public_id.len() > 0 {
        assert(run[3] == "publicId"@);
        assert(run[4] == public_id);
        lemma_run_holds(table, run, 3);
        lemma_run_holds(table, run, 4);
    }
    if system_id.len() > 0 {
        let at: int = 3 + publics.len() as int;
        assert(run[at] == "systemId"@);
        assert(run[at + 1] == system_id);
        lemma_run_holds(table, run, at);
        lemma_run_holds(table, run, at + 1);
    }
}

/// A table holds the strings of a node that were interned into it: every
/// string that the node's record refers to, under an id that fits.
pub proof fn lemma_node_known(table: Seq<Seq<char>>, data: NodeDataView)
    requires
        ids_fit(table, node_strings(data)),
    ensures
        knows(interned_all(table, node_strings(data)), data),
{
    let run = node_strings(data);
    match data {
        NodeDataView::Document => {
            lemma_run_holds(table, run, 0);
        },
        NodeDataView::Doctype { name, public_id, system_id } => {
            lemma_doctype_known(table, name, public_id, system_id);
        },
        NodeDataView::Element { name, attrs, .. } => {
            let middle = interned_all(table, name_strings(name));
            lemma_ids_fit_concat(table, name_strings(name), attrs_strings(attrs));
            lemma_interned_all_concat(table, name_strings(name), attrs_strings(attrs));
            lemma_name_known(table, name);
            lemma_attrs_known(middle, attrs);
            lemma_keeps_ids_interned_all(middle, attrs_strings(attrs));
        },
        _ => {
            lemma_run_holds(table, run, 0);
            lemma_run_holds(table, run, 1);
        },
    }
}

/// In a table that holds the strings of a node, the ids of an attribute's
/// record stand for the attribute.
pub proof fn lemma_attr_resolves(table: Seq<Seq<char>>, attr: AttributeView)
    requires
        knows_attr(table, attr),
    ensures
        attr_of(table, attr_record(attr, table)) == unprefixed(attr),
{
    lemma_position(table, attr.name.local);
    lemma_position(table, attr.value);
    lemma_position(table, attr.name.ns);
    if attr.name.ns.len() == 0 {
        assert(attr.name.ns =~= Seq::<char>::empty());
    }
}

/// One step of interning a run: what holds of `done + step` follows from
/// what holds of `done` and, after it, of `step`; and if the ids of a longer
/// run fit, so do those of `done + step`.
proof fn lemma_run_step(
    start: Seq<Seq<char>>,
    done: Seq<Seq<char>>,
    step: Seq<Seq<char>>,
    rest: Seq<Seq<char>>,
)
    ensures
        interned_all(start, done + step) == interned_all(interned_all(start, done), step),
        ids_fit(start, done + step) <==> ids_fit(start, done) && ids_fit(
            interned_all(start, done),
            step,
        ),
        ids_fit(start, done + step + rest) ==> ids_fit(start, done + step),
        keeps_ids(interned_all(start, done), interned_all(start, done + step)),
{
    lemma_interned_all_concat(start, done, step);
    lemma_ids_fit_concat(start, done, step);
    lemma_ids_fit_concat(start, done + step, rest);
    lemma_keeps_ids_interned_all(interned_all(start, done), step);
}

/// The strings of the first `n` attributes are a prefix of the strings of
/// all of them.
proof fn lemma_attrs_strings_prefix(attrs: Seq<AttributeView>, n: int)
    requires
        0 <= n <= attrs.len(),
    ensures
        attrs_strings(attrs.take(n)).len() <= attrs_strings(attrs).len(),
        attrs_strings(attrs) == attrs_strings(attrs.take(n)) + attrs_strings(attrs).skip(
            attrs_strings(attrs.take(n)).len() as int,
        ),
    decreases attrs.len() - n,
{
    if n == attrs.len() {
        assert(attrs.take(n) =~= attrs);
        assert(attrs_strings(attrs) =~= attrs_strings(attrs) + attrs_strings(attrs).skip(
            attrs_strings(attrs).len() as int,
        ));
    } else {
        lemma_attrs_strings_prefix(attrs, n + 1);
        let more = attrs.take(n + 1);
        assert(more.drop_last() =~= attrs.take(n));
        assert(attrs_strings(more) == attrs_strings(attrs.take(n)) + attr_strings(more.last()));
        assert(attrs_strings(attrs) =~= attrs_strings(attrs.take(n)) + attrs_strings(attrs).skip(
            attrs_strings(attrs.take(n)).len() as int,
        ));
    }
}

/// Interns one string.
fn intern_one(interner: &mut Interner, s: &str) -> (r: Option<u32>)
    ensures
        r is Some <==> ids_fit(old(interner)@, seq![s@]),
        r matches Some(id) ==> ({
            &&& final(interner)@ == interned_all(old(interner)@, seq![s@])
            &&& holds(final(interner)@, s@)
            &&& id == id_in(final(interner)@, s@)
            &&& keeps_ids(old(interner)@, final(interner)@)
        }),
{
    proof {
        lemma_run_of_one(interner@, s@);
        lemma_keeps_ids_interned(interner@, s@);
        lemma_interned(interner@, s@);
    }
    interner.try_intern(s)
}

/// Interns two strings, one after the other.
fn intern_pair(interner: &mut Interner, first: &str, second: &str) -> (r: Option<(u32, u32)>)
    ensures
        r is Some <==> ids_fit(old(interner)@, seq![first@, second@]),
        r matches Some((a, b)) ==> ({
            &&& final(interner)@ == interned_all(old(interner)@, seq![first@, second@])
            &&& holds(final(interner)@, first@)
            &&& holds(final(interner)@, second@)
            &&& a == id_in(final(interner)@, first@)
            &&& b == id_in(final(interner)@, second@)
            &&& keeps_ids(old(interner)@, final(interner)@)
        }),
{
    proof {
        assert(seq![first@, second@] =~= seq![first@] + seq![second@]);
        lemma_ids_fit_concat(interner@, seq![first@], seq![second@]);
        lemma_interned_all_concat(interner@, seq![first@], seq![second@]);
    }
    let a = match intern_one(interner, first) {
        Some(a) => a,
        None => {
            return None;
        },
    };
    let b = match intern_one(interner, second) {
        Some(b) => b,
        None => {
            return None;
        },
    };
    Some((a, b))
}

/// Interns the name of an element and returns the id of the name as it is
/// written.
///
/// The namespace, if the name has one, is interned first, so that it has a
/// place in the table although no record of an unprefixed element refers to
/// it. The local name follows, and for a name with a prefix the prefixed name.
fn intern_qual(q: &QualName, interner: &mut Interner) -> (r: Option<u32>)
    ensures
        r is Some <==> ids_fit(old(interner)@, name_strings(q@)),
        r matches Some(id) ==> ({
            &&& final(interner)@ == interned_all(old(interner)@, name_strings(q@))
            &&& holds(final(interner)@, written_name(q@))
            &&& id == id_in(final(interner)@, written_name(q@))
            &&& keeps_ids(old(interner)@, final(interner)@)
        }),
{
    let ghost start = interner@;
    let ghost ns_run = if q@.ns.len() > 0 {
        seq![q@.ns]
    } else {
        Seq::empty()
    };
    let ghost local_run = seq![q@.local];
    let ghost prefixed_run = if prefix_of(q@).len() > 0 {
        seq![written_name(q@)]
    } else {
        Seq::empty()
    };
    let ghost none = Seq::<Seq<char>>::empty();
    proof {
        assert(name_strings(q@) == ns_run + local_run + prefixed_run);
        assert(none + ns_run =~= ns_run);
        assert(none + ns_run + (local_run + prefixed_run) =~= name_strings(q@));
        lemma_run_step(start, none, ns_run, local_run + prefixed_run);
        lemma_run_step(start, ns_run, local_run, prefixed_run);
        lemma_run_step(start, ns_run + local_run, prefixed_run, none);
        assert(ns_run + local_run + prefixed_run + none =~= name_strings(q@));
    }
    if !q.ns.as_str().is_empty() {
        if intern_one(interner, q.ns.as_str()).is_none() {
            return None;
        }
    }
    assert(interner@ == interned_all(start, ns_run));
    let local_id = match intern_one(interner, q.local.as_str()) {
        Some(id) => id,
        None => {
            return None;
        },
    };
    let prefix: &str = match &q.prefix {
        Some(p) => p.as_str(),
        None => "",
    };
    proof {
        reveal_strlit("");
        assert(prefix@ =~= prefix_of(q@));
    }
    if !prefix.is_empty() {
        let mut written = prefix.to_owned();
        written.append(":");
        written.append(q.local.as_str());
        proof {
            reveal_strlit(":");
            assert(":"@ =~= seq![':']);
            assert(written@ =~= written_name(q@));
        }
        intern_one(interner, written.as_str())
    } else {
        assert(ns_run + local_run + prefixed_run =~= ns_run + local_run);
        Some(local_id)
    }
}

/// Interns the local name of a name and returns its id.
fn intern_qual_local(q: &QualName, interner: &mut Interner) -> (r: Option<u32>)
    ensures
        r is Some <==> ids_fit(old(interner)@, seq![q@.local]),
        r matches Some(id) ==> ({
            &&& final(interner)@ == interned_all(old(interner)@, seq![q@.local])
            &&& holds(final(interner)@, q@.local)
            &&& id == id_in(final(interner)@, q@.local)
            &&& keeps_ids(old(interner)@, final(interner)@)
        }),
{
    intern_one(interner, q.local.as_str())
}

/// Interns the strings of one attribute and returns its record.
fn intern_attribute(attr: &Attribute, interner: &mut Interner) -> (r: Option<WireAttr>)
    ensures
        r is Some <==> ids_fit(old(interner)@, attr_strings(attr@)),
        r matches Some(record) ==> ({
            &&& final(interner)@ == interned_all(old(interner)@, attr_strings(attr@))
            &&& knows_attr(final(interner)@, attr@)
            &&& record == attr_record(attr@, final(interner)@)
            &&& keeps_ids(old(interner)@, final(interner)@)
        }),
{
    let ghost start = interner@;
    let ghost ns_run = if attr@.name.ns.len() > 0 {
        seq![attr@.name.ns]
    } else {
        Seq::empty()
    };
    let ghost local_run = seq![attr@.name.local];
    let ghost value_run = seq![attr@.value];
    let ghost none = Seq::<Seq<char>>::empty();
    proof {
        assert(attr_strings(attr@) =~= ns_run + local_run + value_run);
        assert(none + ns_run =~= ns_run);
        assert(none + ns_run + (local_run + value_run) =~= attr_strings(attr@));
        lemma_run_step(start, none, ns_run, local_run + value_run);
        lemma_run_step(start, ns_run, local_run, value_run);
        lemma_run_step(start, ns_run + local_run, value_run, none);
    }
    let ns = if attr.name.ns.as_str().is_empty() {
        None
    } else {
        match intern_one(interner, attr.name.ns.as_str()) {
            Some(id) => Some(id),
            None => {
                return None;
            },
        }
    };
    assert(interner@ == interned_all(start, ns_run));
    let name = match intern_qual_local(&attr.name, interner) {
        Some(id) => id,
        None => {
            return None;
        },
    };
    let value = match intern_one(interner, attr.value.as_str()) {
        Some(id) => id,
        None => {
            return None;
        },
    };
    Some(WireAttr { ns, name, value })
}

/// Interns the strings of the attributes of an element, in order, and
/// returns their records.
fn intern_attributes(attrs: &Vec<Attribute>, interner: &mut Interner) -> (r: Option<Vec<WireAttr>>)
    ensures
        r is Some <==> ids_fit(old(interner)@, attrs_strings(attribute_views(attrs@))),
        r matches Some(records) ==> ({
            &&& final(interner)@ == interned_all(
                old(interner)@,
                attrs_strings(attribute_views(attrs@)),
            )
            &&& knows_attrs(final(interner)@, attribute_views(attrs@))
            &&& records@ == attr_records(attribute_views(attrs@), final(interner)@)
            &&& keeps_ids(old(interner)@, final(interner)@)
        }),
{
    let ghost start = interner@;
    let ghost all = attribute_views(attrs@);
    let mut records: Vec<WireAttr> = Vec::new();
    let mut i: usize = 0;
    while i < attrs.len()
        invariant
            i <= attrs.len(),
            start == old(interner)@,
            all == attribute_views(attrs@),
            interner@ == interned_all(start, attrs_strings(all.take(i as int))),
            ids_fit(start, attrs_strings(all.take(i as int))),
            knows_attrs(interner@, all.take(i as int)),
            records@ == attr_records(all.take(i as int), interner@),
            keeps_ids(start, interner@),
        decreases attrs.len() - i,
    {
        let ghost before = interner@;
        let ghost done = all.take(i as int);
        let ghost next = all.take(i + 1);
        proof {
            assert(next.drop_last() =~= done);
            assert(next.last() == all[i as int]);
            assert(all[i as int] == attrs[i as int]@);
            lemma_attrs_strings_prefix(all, i + 1);
            assert(attrs_strings(next) == attrs_strings(done) + attr_strings(all[i as int]));
            lemma_run_step(
                start,
                attrs_strings(done),
                attr_strings(all[i as int]),
                attrs_strings(all).skip(attrs_strings(next).len() as int),
            );
        }
        let record = match intern_attribute(&attrs[i], interner) {
            Some(record) => record,
            None => {
                return None;
            },
        };
        records.push(record);
        i += 1;
        proof {
            assert forall|j: int| 0 <= j < next.len() implies knows_attr(
                interner@,
                #[trigger] next[j],
            ) && records@[j] == attr_record(next[j], interner@) by {
                if j < done.len() {
                    assert(knows_attr(before, done[j]));
                    assert(next[j] == done[j]);
                }
            }
            assert(records@ =~= attr_records(next, interner@));
        }
    }
    proof {
        assert(all.take(i as int) =~= all);
    }
    Some(records)
}

/// The text of a doctype before it is trimmed.
fn compose_doctype(name: &str, public_id: &str, system_id: &str) -> (r: String)
    ensures
        r@ == name@ + doctype_part(" PUBLIC \""@, public_id@) + doctype_part(
            " SYSTEM \""@,
            system_id@,
        ),
{
    let mut text = name.to_owned();
    if !public_id.is_empty() {
        text.append(" PUBLIC \"");
        text.append(public_id);
        text.append("\"");
    }
    let ghost middle = text@;
    assert(middle =~= name@ + doctype_part(" PUBLIC \""@, public_id@));
    if !system_id.is_empty() {
        text.append(" SYSTEM \"");
        text.append(system_id);
        text.append("\"");
    }
    assert(text@ =~= middle + doctype_part(" SYSTEM \""@, system_id@));
    text
}

/// Interns one identifier of a doctype under its key and adds the attribute
/// that stands for it, unless the identifier is empty.
fn intern_doctype_id(key: &str, id: &str, interner: &mut Interner, attrs: &mut Vec<WireAttr>) -> (r:
    bool)
    ensures
        r <==> ids_fit(old(interner)@, doctype_id_strings(key@, id@)),
        r ==> ({
            &&& final(interner)@ == interned_all(old(interner)@, doctype_id_strings(key@, id@))
            &&& final(attrs)@ == old(attrs)@ + doctype_attr(key@, id@, final(interner)@)
            &&& id@.len() > 0 ==> holds(final(interner)@, key@) && holds(final(interner)@, id@)
            &&& keeps_ids(old(interner)@, final(interner)@)
        }),
{
    if id.is_empty() {
        assert(attrs@ =~= attrs@ + doctype_attr(key@, id@, interner@));
        return true;
    }
    match intern_pair(interner, key, id) {
        Some((name, value)) => {
            attrs.push(WireAttr { ns: None, name, value });
            assert(attrs@ =~= old(attrs)@ + doctype_attr(key@, id@, interner@));
            true
        },
        None => false,
    }
}

/// Interns the strings of a doctype and returns what it contributes to its
/// record: its name, its text as the value, and the attributes that restate
/// its name and identifiers.
fn encode_doctype(name: &str, public_id: &str, system_id: &str, interner: &mut Interner) -> (r:
    Option<Encoded>)
    ensures
        r is Some <==> ids_fit(old(interner)@, doctype_strings(name@, public_id@, system_id@)),
        r matches Some(e) ==> ({
            let data = NodeDataView::Doctype {
                name: name@,
                public_id: public_id@,
                system_id: system_id@,
            };
            &&& final(interner)@ == interned_all(
                old(interner)@,
                doctype_strings(name@, public_id@, system_id@),
            )
            &&& knows(final(interner)@, data)
            &&& e.encodes(data, final(interner)@)
            &&& keeps_ids(old(interner)@, final(interner)@)
        }),
{
    let ghost start = interner@;
    let ghost head = seq![name@, "name"@, name@];
    let ghost public_run = doctype_id_strings("publicId"@, public_id@);
    let ghost system_run = doctype_id_strings("systemId"@, system_id@);
    let ghost text_run = seq![doctype_text(name@, public_id@, system_id@)];
    let ghost none = Seq::<Seq<char>>::empty();
    proof {
        assert(head =~= seq![name@] + seq!["name"@, name@]);
        assert(none + seq![name@] =~= seq![name@]);
        assert(none + seq![name@] + (seq!["name"@, name@] + public_run + system_run + text_run)
            =~= doctype_strings(name@, public_id@, system_id@));
        assert(head + (public_run + system_run + text_run) =~= doctype_strings(
            name@,
            public_id@,
            system_id@,
        ));
        assert(head + public_run + (system_run + text_run) =~= doctype_strings(
            name@,
            public_id@,
            system_id@,
        ));
        lemma_run_step(
            start,
            none,
            seq![name@],
            seq!["name"@, name@] + public_run + system_run + text_run,
        );
        lemma_run_step(
            start,
            seq![name@],
            seq!["name"@, name@],
            public_run + system_run + text_run,
        );
        lemma_run_step(start, head, public_run, system_run + text_run);
        lemma_run_step(start, head + public_run, system_run, text_run);
        lemma_run_step(start, head + public_run + system_run, text_run, none);
        assert(head + public_run + system_run + text_run + none =~= doctype_strings(
            name@,
            public_id@,
            system_id@,
        ));
    }
    let name_id = match intern_one(interner, name) {
        Some(id) => id,
        None => {
            return None;
        },
    };
    let mut attrs: Vec<WireAttr> = Vec::new();
    match intern_pair(interner, "name", name) {
        Some((key, value)) => {
            attrs.push(WireAttr { ns: None, name: key, value });
        },
        None => {
            return None;
        },
    }
    assert(interner@ == interned_all(start, head));
    if !intern_doctype_id("publicId", public_id, interner, &mut attrs) {
        return None;
    }
    if !intern_doctype_id("systemId", system_id, interner, &mut attrs) {
        return None;
    }
    let text = compose_doctype(name, public_id, system_id);
    let value = match intern_one(interner, trim(text.as_str())) {
        Some(id) => id,
        None => {
            return None;
        },
    };
    proof {
        assert(attrs@ =~= doctype_attrs(name@, public_id@, system_id@, interner@));
    }
    Some(
        Encoded {
            node_type: WireNodeType::DocumentType,
            name: Some(name_id),
            value: Some(value),
            attrs: Some(attrs),
        },
    )
}

/// Interns the strings of a node, in order, and returns what the node
/// contributes to its record.
pub(crate) fn encode_node(data: &NodeData, interner: &mut Interner) -> (r: Option<Encoded>)
    ensures
        r is Some <==> ids_fit(old(interner)@, node_strings(data@)),
        r matches Some(e) ==> ({
            &&& final(interner)@ == interned_all(old(interner)@, node_strings(data@))
            &&& knows(final(interner)@, data@)
            &&& e.encodes(data@, final(interner)@)
            &&& keeps_ids(old(interner)@, final(interner)@)
        }),
{
    match data {
        NodeData::Document => {
            match intern_one(interner, "#document") {
                Some(name) => Some(
                    Encoded {
                        node_type: WireNodeType::Document,
                        name: Some(name),
                        value: None,
                        attrs: None,
                    },
                ),
                None => None,
            }
        },
        NodeData::Doctype { name, public_id, system_id } => encode_doctype(
            name.as_str(),
            public_id.as_str(),
            system_id.as_str(),
            interner,
        ),
        NodeData::Text { contents } => {
            match intern_pair(interner, "#text", contents.as_str()) {
                Some((name, value)) => Some(
                    Encoded {
                        node_type: WireNodeType::Text,
                        name: Some(name),
                        value: Some(value),
                        attrs: None,
                    },
                ),
                None => None,
            }
        },
        NodeData::Comment { contents } => {
            match intern_pair(interner, "#comment", contents.as_str()) {
                Some((name, value)) => Some(
                    Encoded {
                        node_type: WireNodeType::Comment,
                        name: Some(name),
                        value: Some(value),
                        attrs: None,
                    },
                ),
                None => None,
            }
        },
        NodeData::ProcessingInstruction { target, contents } => {
            match intern_pair(interner, target.as_str(), contents.as_str()) {
                Some((name, value)) => Some(
                    Encoded {
                        node_type: WireNodeType::ProcessingInstruction,
                        name: Some(name),
                        value: Some(value),
                        attrs: None,
                    },
                ),
                None => None,
            }
        },
        NodeData::Element { name, attrs, .. } => {
            let ghost start = interner@;
            let ghost views = attribute_views(attrs@);
            proof {
                let none = Seq::<Seq<char>>::empty();
                assert(none + name_strings(name@) =~= name_strings(name@));
                lemma_run_step(start, none, name_strings(name@), attrs_strings(views));
                lemma_run_step(start, name_strings(name@), attrs_strings(views), none);
            }
            let name_id = match intern_qual(name, interner) {
                Some(id) => id,
                None => {
                    return None;
                },
            };
            let records = match intern_attributes(attrs, interner) {
                Some(records) => records,
                None => {
                    return None;
                },
            };
            let attrs = if records.len() > 0 {
                Some(records)
            } else {
                None
            };
            Some(Encoded { node_type: WireNodeType::Element, name: Some(name_id), value: None, attrs })
        },
    }
}

} // verus!
