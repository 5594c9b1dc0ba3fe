use dawm::rcdom::{Appendable, ElementFlags, NodeData, NodeOrText, ParentNode, RcDom};
use dawm::tree::Handle;
use dawm::{Attribute, QualName, QuirksMode};

fn plain() -> ElementFlags {
    ElementFlags { template: false, mathml_annotation_xml_integration_point: false }
}

fn name(local: &str) -> QualName {
    QualName::new(None, "http://www.w3.org/1999/xhtml".to_string(), local.to_string())
}

fn attr(local: &str, value: &str) -> Attribute {
    Attribute {
        name: QualName::new(None, String::new(), local.to_string()),
        value: value.to_string(),
    }
}

fn element(dom: &mut RcDom, local: &str) -> Handle {
    dom.create_element(name(local), Vec::new(), plain())
}

fn text(dom: &RcDom, handle: Handle) -> String {
    match &dom.node(handle).data {
        NodeData::Text { contents } => contents.clone(),
        other => panic!("not a text node: {:?}", other),
    }
}

fn attrs(dom: &RcDom, handle: Handle) -> Vec<(String, String)> {
    match &dom.node(handle).data {
        NodeData::Element { attrs, .. } => attrs
            .iter()
            .map(|a| (a.name.local.clone(), a.value.clone()))
            .collect(),
        other => panic!("not an element: {:?}", other),
    }
}

#[test]
fn new_tree_is_an_empty_document() {
    let dom = RcDom::default();
    assert_eq!(dom.len(), 1);
    let root = dom.get_document();
    assert_eq!(root, 0);
    assert!(matches!(dom.node(root).data, NodeData::Document));
    assert_eq!(dom.node(root).parent, None);
    assert!(dom.node(root).children.is_empty());
    assert!(dom.errors().is_empty());
    assert_eq!(dom.quirks_mode(), QuirksMode::NoQuirks);
}

#[test]
fn created_nodes_are_unattached() {
    let mut dom = RcDom::default();
    let div = element(&mut dom, "div");
    let comment = dom.create_comment("c".to_string());
    let pi = dom.create_pi("target".to_string(), "data".to_string());
    assert_eq!((div, comment, pi), (1, 2, 3));
    assert_eq!(dom.len(), 4);
    for h in [div, comment, pi] {
        assert_eq!(dom.node(h).parent, None);
        assert!(dom.node(h).children.is_empty());
    }
    assert!(dom.node(dom.get_document()).children.is_empty());
    assert!(matches!(&dom.node(comment).data, NodeData::Comment { contents } if contents == "c"));
    assert!(matches!(
        &dom.node(pi).data,
        NodeData::ProcessingInstruction { target, contents } if target == "target" && contents == "data"
    ));
    assert_eq!(dom.elem_name(div).local, "div");
    assert!(!dom.is_mathml_annotation_xml_integration_point(div));
}

#[test]
fn appended_node_is_the_last_child() {
    let mut dom = RcDom::default();
    let root = dom.get_document();
    let a = element(&mut dom, "a");
    let b = element(&mut dom, "b");
    dom.append(root, NodeOrText::AppendNode(a));
    dom.append(root, NodeOrText::AppendNode(b));
    assert_eq!(dom.node(b).parent, Some(root));
    assert_eq!(dom.node(root).children, vec![a, b]);
    assert_eq!(dom.node(root).children.last(), Some(&b));
    assert_eq!(dom.get_parent_and_index(a), Some((root, 0)));
    assert_eq!(dom.get_parent_and_index(b), Some((root, 1)));
    assert_eq!(dom.get_parent_and_index(root), None);
}

#[test]
fn appended_text_joins_the_last_text_node() {
    let mut dom = RcDom::default();
    let root = dom.get_document();
    dom.append(root, NodeOrText::AppendText("foo".to_string()));
    dom.append(root, NodeOrText::AppendText("bar".to_string()));
    assert_eq!(dom.node(root).children.len(), 1);
    let node = dom.node(root).children[0];
    assert_eq!(text(&dom, node), "foobar");
    assert_eq!(dom.node(node).parent, Some(root));
    assert_eq!(dom.len(), 2);
}

#[test]
fn appended_text_after_an_element_is_a_new_node() {
    let mut dom = RcDom::default();
    let root = dom.get_document();
    dom.append(root, NodeOrText::AppendText("a".to_string()));
    let br = element(&mut dom, "br");
    dom.append(root, NodeOrText::AppendNode(br));
    dom.append(root, NodeOrText::AppendText("b".to_string()));
    let children = dom.node(root).children.clone();
    assert_eq!(children.len(), 3);
    assert_eq!(text(&dom, children[0]), "a");
    assert_eq!(children[1], br);
    assert_eq!(text(&dom, children[2]), "b");
}

#[test]
fn node_is_inserted_before_its_sibling() {
    let mut dom = RcDom::default();
    let root = dom.get_document();
    let a = element(&mut dom, "a");
    let b = element(&mut dom, "b");
    let c = element(&mut dom, "c");
    dom.append(root, NodeOrText::AppendNode(a));
    dom.append(root, NodeOrText::AppendNode(c));
    dom.append_before_sibling(c, NodeOrText::AppendNode(b));
    assert_eq!(dom.node(root).children, vec![a, b, c]);
    assert_eq!(dom.node(b).parent, Some(root));
}

#[test]
fn inserted_node_leaves_its_old_parent() {
    let mut dom = RcDom::default();
    let root = dom.get_document();
    let a = element(&mut dom, "a");
    let b = element(&mut dom, "b");
    let moved = element(&mut dom, "i");
    dom.append(root, NodeOrText::AppendNode(a));
    dom.append(root, NodeOrText::AppendNode(b));
    dom.append(a, NodeOrText::AppendNode(moved));
    dom.append_before_sibling(b, NodeOrText::AppendNode(moved));
    assert!(dom.node(a).children.is_empty());
    assert_eq!(dom.node(root).children, vec![a, moved, b]);
    assert_eq!(dom.node(moved).parent, Some(root));
}

#[test]
fn insertion_uses_the_position_from_before_the_move() {
    let mut dom = RcDom::default();
    let root = dom.get_document();
    let a = element(&mut dom, "a");
    let b = element(&mut dom, "b");
    let c = element(&mut dom, "c");
    for h in [a, b, c] {
        dom.append(root, NodeOrText::AppendNode(h));
    }
    // `a` stands before `c`; `c` is at position 2 when the call is made.
    dom.append_before_sibling(c, NodeOrText::AppendNode(a));
    assert_eq!(dom.node(root).children, vec![b, c, a]);
    // A node inserted before itself stays where it is.
    dom.append_before_sibling(c, NodeOrText::AppendNode(c));
    assert_eq!(dom.node(root).children, vec![b, c, a]);
    // A later sibling moves in front.
    dom.append_before_sibling(b, NodeOrText::AppendNode(a));
    assert_eq!(dom.node(root).children, vec![a, b, c]);
}

#[test]
fn inserted_text_joins_the_text_before_the_sibling() {
    let mut dom = RcDom::default();
    let root = dom.get_document();
    dom.append(root, NodeOrText::AppendText("a".to_string()));
    let table = element(&mut dom, "table");
    dom.append(root, NodeOrText::AppendNode(table));
    dom.append_before_sibling(table, NodeOrText::AppendText("b".to_string()));
    let children = dom.node(root).children.clone();
    assert_eq!(children.len(), 2);
    assert_eq!(text(&dom, children[0]), "ab");
    assert_eq!(children[1], table);
}

#[test]
fn inserted_text_at_the_front_is_a_new_node() {
    let mut dom = RcDom::default();
    let root = dom.get_document();
    dom.append(root, NodeOrText::AppendText("tail".to_string()));
    let first = dom.node(root).children[0];
    dom.append_before_sibling(first, NodeOrText::AppendText("head".to_string()));
    let children = dom.node(root).children.clone();
    assert_eq!(children.len(), 2);
    assert_eq!(text(&dom, children[0]), "head");
    assert_eq!(text(&dom, children[1]), "tail");
    assert_eq!(children[1], first);
}

#[test]
fn inserted_text_after_an_element_is_a_new_node() {
    let mut dom = RcDom::default();
    let root = dom.get_document();
    let a = element(&mut dom, "a");
    let b = element(&mut dom, "b");
    dom.append(root, NodeOrText::AppendNode(a));
    dom.append(root, NodeOrText::AppendNode(b));
    dom.append_before_sibling(b, NodeOrText::AppendText("t".to_string()));
    let children = dom.node(root).children.clone();
    assert_eq!(children.len(), 3);
    assert_eq!(children[0], a);
    assert_eq!(text(&dom, children[1]), "t");
    assert_eq!(children[2], b);
}

#[test]
fn parent_decides_where_a_child_goes() {
    let mut dom = RcDom::default();
    let root = dom.get_document();
    let table = element(&mut dom, "table");
    let before = element(&mut dom, "p");
    let fallback = element(&mut dom, "div");
    dom.append(root, NodeOrText::AppendNode(fallback));
    // Without a parent the child goes to the end of the other element.
    dom.append_based_on_parent_node(table, fallback, NodeOrText::AppendNode(before));
    assert_eq!(dom.node(fallback).children, vec![before]);
    assert_eq!(dom.node(table).parent, None);
    // With a parent the child goes before the element.
    dom.append(root, NodeOrText::AppendNode(table));
    let other = element(&mut dom, "span");
    dom.append_based_on_parent_node(table, fallback, NodeOrText::AppendNode(other));
    assert_eq!(dom.node(root).children, vec![fallback, other, table]);
    assert_eq!(dom.node(fallback).children, vec![before]);
}

#[test]
fn doctype_is_appended_to_the_document() {
    let mut dom = RcDom::default();
    let root = dom.get_document();
    dom.append_doctype_to_document("html".to_string(), "p".to_string(), "s".to_string());
    let children = dom.node(root).children.clone();
    assert_eq!(children.len(), 1);
    assert_eq!(dom.node(children[0]).parent, Some(root));
    assert!(matches!(
        &dom.node(children[0]).data,
        NodeData::Doctype { name, public_id, system_id }
            if name == "html" && public_id == "p" && system_id == "s"
    ));
}

#[test]
fn removed_node_has_no_parent() {
    let mut dom = RcDom::default();
    let root = dom.get_document();
    let a = element(&mut dom, "a");
    let b = element(&mut dom, "b");
    let inner = element(&mut dom, "i");
    dom.append(root, NodeOrText::AppendNode(a));
    dom.append(root, NodeOrText::AppendNode(b));
    dom.append(a, NodeOrText::AppendNode(inner));
    dom.remove_from_parent(a);
    assert_eq!(dom.node(a).parent, None);
    assert_eq!(dom.node(root).children, vec![b]);
    assert!(!dom.node(root).children.contains(&a));
    assert_eq!(dom.node(a).children, vec![inner]);
    assert_eq!(dom.node(inner).parent, Some(a));
    // Removing a detached node changes nothing.
    dom.remove_from_parent(a);
    assert_eq!(dom.node(a).parent, None);
    assert_eq!(dom.node(root).children, vec![b]);
    assert_eq!(dom.len(), 4);
}

#[test]
fn children_are_reparented_in_order() {
    let mut dom = RcDom::default();
    let root = dom.get_document();
    let from = element(&mut dom, "from");
    let to = element(&mut dom, "to");
    let kept = element(&mut dom, "kept");
    let x = element(&mut dom, "x");
    let y = element(&mut dom, "y");
    let z = dom.create_comment("z".to_string());
    dom.append(root, NodeOrText::AppendNode(from));
    dom.append(root, NodeOrText::AppendNode(to));
    dom.append(to, NodeOrText::AppendNode(kept));
    for h in [x, y, z] {
        dom.append(from, NodeOrText::AppendNode(h));
    }
    dom.reparent_children(from, to);
    assert!(dom.node(from).children.is_empty());
    assert_eq!(dom.node(to).children, vec![kept, x, y, z]);
    for h in [kept, x, y, z] {
        assert_eq!(dom.node(h).parent, Some(to));
    }
    assert_eq!(dom.node(root).children, vec![from, to]);
}

#[test]
fn children_can_move_to_their_grandparent() {
    let mut dom = RcDom::default();
    let root = dom.get_document();
    let outer = element(&mut dom, "outer");
    let inner = element(&mut dom, "inner");
    let leaf = element(&mut dom, "leaf");
    dom.append(root, NodeOrText::AppendNode(outer));
    dom.append(outer, NodeOrText::AppendNode(inner));
    dom.append(inner, NodeOrText::AppendNode(leaf));
    assert!(dom.can_reparent(inner, outer));
    dom.reparent_children(inner, outer);
    assert_eq!(dom.node(outer).children, vec![inner, leaf]);
    assert!(dom.node(inner).children.is_empty());
    assert_eq!(dom.node(leaf).parent, Some(outer));
}

#[test]
fn missing_attributes_are_added() {
    let mut dom = RcDom::default();
    let div = dom.create_element(name("div"), vec![attr("id", "a"), attr("class", "b")], plain());
    dom.add_attrs_if_missing(
        div,
        vec![attr("class", "other"), attr("title", "t"), attr("id", "z"), attr("lang", "en")],
    );
    assert_eq!(
        attrs(&dom, div),
        vec![
            ("id".to_string(), "a".to_string()),
            ("class".to_string(), "b".to_string()),
            ("title".to_string(), "t".to_string()),
            ("lang".to_string(), "en".to_string()),
        ]
    );
}

#[test]
fn attributes_are_compared_by_their_whole_name() {
    let mut dom = RcDom::default();
    let div = dom.create_element(name("div"), vec![attr("href", "a")], plain());
    let xlink = Attribute {
        name: QualName::new(
            Some("xlink".to_string()),
            "http://www.w3.org/1999/xlink".to_string(),
            "href".to_string(),
        ),
        value: "b".to_string(),
    };
    dom.add_attrs_if_missing(div, vec![xlink]);
    assert_eq!(
        attrs(&dom, div),
        vec![("href".to_string(), "a".to_string()), ("href".to_string(), "b".to_string())]
    );
}

#[test]
fn incoming_attributes_are_checked_against_the_old_ones_only() {
    let mut dom = RcDom::default();
    let div = dom.create_element(name("div"), Vec::new(), plain());
    dom.add_attrs_if_missing(div, vec![attr("a", "1"), attr("a", "2")]);
    assert_eq!(
        attrs(&dom, div),
        vec![("a".to_string(), "1".to_string()), ("a".to_string(), "2".to_string())]
    );
    dom.add_attrs_if_missing(div, Vec::new());
    assert_eq!(attrs(&dom, div).len(), 2);
}

#[test]
fn template_gets_a_document_for_its_contents() {
    let mut dom = RcDom::default();
    let template = dom.create_element(
        name("template"),
        Vec::new(),
        ElementFlags { template: true, mathml_annotation_xml_integration_point: false },
    );
    let contents = dom.get_template_contents(template);
    assert_eq!(dom.len(), 3);
    assert_eq!((contents, template), (1, 2));
    assert!(matches!(dom.node(contents).data, NodeData::Document));
    assert_eq!(dom.node(contents).parent, None);
    assert_ne!(contents, dom.get_document());
    let other = dom.create_element(
        name("template"),
        Vec::new(),
        ElementFlags { template: true, mathml_annotation_xml_integration_point: false },
    );
    assert_ne!(dom.get_template_contents(other), contents);
}

#[test]
fn integration_point_flag_is_recorded() {
    let mut dom = RcDom::default();
    let flagged = dom.create_element(
        name("annotation-xml"),
        Vec::new(),
        ElementFlags { template: false, mathml_annotation_xml_integration_point: true },
    );
    let other = element(&mut dom, "mi");
    assert!(dom.is_mathml_annotation_xml_integration_point(flagged));
    assert!(!dom.is_mathml_annotation_xml_integration_point(other));
}

#[test]
fn handles_are_compared_by_identity() {
    let mut dom = RcDom::default();
    let a = element(&mut dom, "p");
    let b = element(&mut dom, "p");
    assert!(dom.same_node(a, a));
    assert!(!dom.same_node(a, b));
}

#[test]
fn errors_and_quirks_mode_are_recorded() {
    let mut dom = RcDom::default();
    dom.parse_error("first".to_string());
    dom.parse_error("second".to_string());
    dom.set_quirks_mode(QuirksMode::LimitedQuirks);
    assert_eq!(dom.errors(), &vec!["first".to_string(), "second".to_string()]);
    assert_eq!(dom.quirks_mode(), QuirksMode::LimitedQuirks);
    assert_eq!(dom.len(), 1);
    let dom = dom.finish();
    assert_eq!(dom.errors().len(), 2);
}

#[test]
fn ancestors_include_the_node_itself() {
    let mut dom = RcDom::default();
    let root = dom.get_document();
    let a = element(&mut dom, "a");
    let b = element(&mut dom, "b");
    let c = element(&mut dom, "c");
    dom.append(root, NodeOrText::AppendNode(a));
    dom.append(a, NodeOrText::AppendNode(b));
    assert!(dom.is_inclusive_ancestor(a, a));
    assert!(dom.is_inclusive_ancestor(a, b));
    assert!(dom.is_inclusive_ancestor(root, b));
    assert!(!dom.is_inclusive_ancestor(b, a));
    assert!(!dom.is_inclusive_ancestor(c, b));
    assert!(!dom.is_inclusive_ancestor(b, c));
}

#[test]
fn template_owns_what_is_in_its_contents() {
    let mut dom = RcDom::default();
    let root = dom.get_document();
    let template = dom.create_element(
        name("template"),
        Vec::new(),
        ElementFlags { template: true, mathml_annotation_xml_integration_point: false },
    );
    let contents = dom.get_template_contents(template);
    let inside = element(&mut dom, "b");
    dom.append(root, NodeOrText::AppendNode(template));
    dom.append(contents, NodeOrText::AppendNode(inside));
    assert!(dom.is_inclusive_ancestor(template, inside));
    assert!(dom.is_inclusive_ancestor(contents, inside));
    assert!(dom.is_inclusive_ancestor(root, inside));
    assert!(!dom.is_inclusive_ancestor(inside, template));
    // The template cannot be put into its own contents.
    dom.remove_from_parent(template);
    assert!(!dom.can_append(inside, &NodeOrText::AppendNode(template)));
    assert!(!dom.can_append(contents, &NodeOrText::AppendNode(template)));
}

#[test]
fn append_is_refused_where_it_would_break_the_tree() {
    let mut dom = RcDom::default();
    let root = dom.get_document();
    let a = element(&mut dom, "a");
    let b = element(&mut dom, "b");
    let c = element(&mut dom, "c");
    dom.append(a, NodeOrText::AppendNode(b));
    assert!(dom.can_append(root, &NodeOrText::AppendNode(a)));
    assert!(dom.can_append(b, &NodeOrText::AppendNode(c)));
    assert!(dom.can_append(root, &NodeOrText::AppendText("t".to_string())));
    // A node that has a parent.
    assert!(!dom.can_append(root, &NodeOrText::AppendNode(b)));
    // A node below itself.
    assert!(!dom.can_append(a, &NodeOrText::AppendNode(a)));
    assert!(!dom.can_append(b, &NodeOrText::AppendNode(a)));
    // A document.
    assert!(!dom.can_append(a, &NodeOrText::AppendNode(root)));
    // Unknown nodes.
    assert!(!dom.can_append(99, &NodeOrText::AppendNode(c)));
    assert!(!dom.can_append(root, &NodeOrText::AppendNode(99)));
    assert!(!dom.can_append(99, &NodeOrText::AppendText("t".to_string())));
    assert!(dom.can_adopt(root, b));
    assert!(!dom.can_adopt(b, a));
}

#[test]
fn insertion_is_refused_where_it_would_break_the_tree() {
    let mut dom = RcDom::default();
    let root = dom.get_document();
    let a = element(&mut dom, "a");
    let b = element(&mut dom, "b");
    let c = element(&mut dom, "c");
    dom.append(root, NodeOrText::AppendNode(a));
    dom.append(a, NodeOrText::AppendNode(b));
    // A sibling without a parent.
    assert!(!dom.can_insert_before(c, &NodeOrText::AppendNode(a)));
    assert!(!dom.can_insert_before(c, &NodeOrText::AppendText("t".to_string())));
    assert!(!dom.can_insert_before(root, &NodeOrText::AppendNode(c)));
    // A node before its own child.
    assert!(!dom.can_insert_before(b, &NodeOrText::AppendNode(a)));
    assert!(dom.can_insert_before(b, &NodeOrText::AppendNode(c)));
    assert!(dom.can_insert_before(b, &NodeOrText::AppendNode(b)));
    assert!(dom.can_insert_before(a, &NodeOrText::AppendNode(b)));
    assert!(dom.can_insert_before(b, &NodeOrText::AppendText("t".to_string())));
    assert!(!dom.can_insert_before(99, &NodeOrText::AppendNode(c)));
}

#[test]
fn reparenting_is_refused_where_it_would_break_the_tree() {
    let mut dom = RcDom::default();
    let root = dom.get_document();
    let a = element(&mut dom, "a");
    let b = element(&mut dom, "b");
    let c = element(&mut dom, "c");
    dom.append(root, NodeOrText::AppendNode(a));
    dom.append(a, NodeOrText::AppendNode(b));
    dom.append(b, NodeOrText::AppendNode(c));
    assert!(!dom.can_reparent(a, a));
    assert!(!dom.can_reparent(a, b));
    assert!(!dom.can_reparent(a, c));
    assert!(dom.can_reparent(b, a));
    assert!(dom.can_reparent(c, a));
    assert!(dom.can_reparent(b, root));
    assert!(!dom.can_reparent(root, c));
    assert!(!dom.can_reparent(99, a));
    assert!(!dom.can_reparent(a, 99));
}

#[test]
fn handles_answer_for_their_nodes() {
    let mut dom = RcDom::default();
    let root = dom.get_document();
    let a = element(&mut dom, "a");
    let b = dom.create_comment("b".to_string());
    Appendable::append(&root, &mut dom, a);
    Appendable::append(&root, &mut dom, b);
    assert_eq!(ParentNode::get_parent_and_index(&b, &dom), Some((root, 1)));
    assert!(!Appendable::append_to_existing_text(&a, &mut dom, "x"));
    dom.append(a, NodeOrText::AppendText("x".to_string()));
    let t = dom.node(a).children[0];
    assert!(Appendable::append_to_existing_text(&t, &mut dom, "y"));
    assert_eq!(text(&dom, t), "xy");
    ParentNode::remove_from_parent(&a, &mut dom);
    assert_eq!(ParentNode::get_parent_and_index(&a, &dom), None);
    assert_eq!(dom.node(root).children, vec![b]);
}
