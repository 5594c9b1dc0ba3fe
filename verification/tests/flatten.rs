use dawm::flatten::{collect, serialize_dom};
use dawm::rcdom::{ElementFlags, NodeOrText, RcDom};
use dawm::tree::Handle;
use dawm::{Attribute, Interner, QualName, QuirksMode, WireAttr, WireDoc, WireNode, WireNodeType};

const XHTML: &str = "http://www.w3.org/1999/xhtml";

fn element(dom: &mut RcDom, ns: &str, local: &str, attrs: Vec<Attribute>) -> Handle {
    dom.create_element(
        QualName::new(None, ns.to_string(), local.to_string()),
        attrs,
        ElementFlags { template: false, mathml_annotation_xml_integration_point: false },
    )
}

fn string(doc: &WireDoc, id: Option<u32>) -> &str {
    doc.strings[id.unwrap() as usize].as_str()
}

/// The ids that are met when sibling links are followed from the first
/// child of `node`.
fn children(doc: &WireDoc, node: &WireNode) -> Vec<u32> {
    let mut found = Vec::new();
    let mut next = node.first_child;
    while let Some(id) = next {
        found.push(id);
        next = doc.nodes[id as usize].next_sibling;
    }
    found
}

#[test]
fn empty_document_flattens_to_one_node() {
    let dom = RcDom::default();
    let doc = serialize_dom(&dom, "text/html").unwrap();
    assert_eq!(doc.content_type, "text/html");
    assert_eq!(doc.quirks_mode, "no-quirks");
    assert_eq!(doc.strings.len(), 25);
    assert_eq!(doc.strings[0], "");
    assert_eq!(doc.strings[24], "#document");
    assert_eq!(
        doc.nodes,
        vec![WireNode {
            id: 0,
            node_type: WireNodeType::Document,
            name: Some(24),
            value: None,
            parent: None,
            first_child: None,
            next_sibling: None,
            attrs: None,
        }]
    );
}

#[test]
fn quirks_mode_and_content_type_are_labels() {
    let mut dom = RcDom::default();
    dom.set_quirks_mode(QuirksMode::LimitedQuirks);
    let doc = serialize_dom(&dom, "image/svg+xml").unwrap();
    assert_eq!(doc.content_type, "image/svg+xml");
    assert_eq!(doc.quirks_mode, "limited-quirks");
    assert!(!doc.strings.iter().any(|s| s == "limited-quirks" || s == "image/svg+xml"));
    dom.set_quirks_mode(QuirksMode::Quirks);
    assert_eq!(serialize_dom(&dom, "application/xml").unwrap().quirks_mode, "quirks");
}

#[test]
fn doctype_flattens_to_name_and_one_attribute() {
    let mut dom = RcDom::default();
    dom.append_doctype_to_document("html".to_string(), String::new(), String::new());
    let doc = serialize_dom(&dom, "text/html").unwrap();
    assert_eq!(doc.nodes.len(), 2);
    let doctype = &doc.nodes[1];
    assert_eq!(doctype.node_type, WireNodeType::DocumentType);
    assert_eq!(string(&doc, doctype.name), "html");
    assert_eq!(string(&doc, doctype.value), "html");
    let attrs = doctype.attrs.as_ref().unwrap();
    assert_eq!(attrs.len(), 1);
    assert_eq!(doc.strings[attrs[0].name as usize], "name");
    assert_eq!(doc.strings[attrs[0].value as usize], "html");
    assert_eq!(attrs[0].ns, None);
    // "html" is in the default vocabulary; "#document" and "name" are new.
    assert_eq!(doctype.name, Some(1));
    assert_eq!(attrs[0], WireAttr { ns: None, name: 25, value: 1 });
    assert_eq!(doc.strings.len(), 26);
}

#[test]
fn doctype_identifiers_are_quoted_in_its_text() {
    let mut dom = RcDom::default();
    dom.append_doctype_to_document(
        "html".to_string(),
        "-//W3C//DTD HTML 4.01//EN".to_string(),
        "http://www.w3.org/TR/html4/strict.dtd".to_string(),
    );
    let doc = serialize_dom(&dom, "text/html").unwrap();
    let doctype = &doc.nodes[1];
    assert_eq!(
        string(&doc, doctype.value),
        "html PUBLIC \"-//W3C//DTD HTML 4.01//EN\" SYSTEM \"http://www.w3.org/TR/html4/strict.dtd\""
    );
    let attrs = doctype.attrs.as_ref().unwrap();
    let pairs: Vec<(&str, &str)> = attrs
        .iter()
        .map(|a| (doc.strings[a.name as usize].as_str(), doc.strings[a.value as usize].as_str()))
        .collect();
    assert_eq!(
        pairs,
        vec![
            ("name", "html"),
            ("publicId", "-//W3C//DTD HTML 4.01//EN"),
            ("systemId", "http://www.w3.org/TR/html4/strict.dtd"),
        ]
    );
    assert!(attrs.iter().all(|a| a.ns.is_none()));
}

#[test]
fn doctype_text_is_trimmed() {
    let mut dom = RcDom::default();
    dom.append_doctype_to_document(String::new(), String::new(), "about:legacy-compat".to_string());
    dom.append_doctype_to_document(" x ".to_string(), String::new(), String::new());
    let doc = serialize_dom(&dom, "text/html").unwrap();
    assert_eq!(string(&doc, doc.nodes[1].value), "SYSTEM \"about:legacy-compat\"");
    assert_eq!(string(&doc, doc.nodes[1].name), "");
    let attrs = doc.nodes[1].attrs.as_ref().unwrap();
    assert_eq!(attrs.len(), 2);
    assert_eq!(doc.strings[attrs[1].name as usize], "systemId");
    assert_eq!(string(&doc, doc.nodes[2].value), "x");
    assert_eq!(string(&doc, doc.nodes[2].name), " x ");
}

#[test]
fn adjacent_text_is_merged() {
    let mut dom = RcDom::default();
    let root = dom.get_document();
    dom.append(root, NodeOrText::AppendText("foo".to_string()));
    dom.append(root, NodeOrText::AppendText("bar".to_string()));
    assert_eq!(dom.node(root).children.len(), 1);
    let doc = serialize_dom(&dom, "text/html").unwrap();
    assert_eq!(doc.nodes.len(), 2);
    assert_eq!(doc.nodes[1].node_type, WireNodeType::Text);
    assert_eq!(string(&doc, doc.nodes[1].name), "#text");
    assert_eq!(string(&doc, doc.nodes[1].value), "foobar");
    assert_eq!(doc.nodes[1].attrs, None);
}

#[test]
fn every_kind_of_node_is_encoded() {
    let mut dom = RcDom::default();
    let root = dom.get_document();
    let comment = dom.create_comment("note".to_string());
    let pi = dom.create_pi("xml-stylesheet".to_string(), "href=\"a\"".to_string());
    let div = element(&mut dom, "", "div", Vec::new());
    dom.append(root, NodeOrText::AppendNode(comment));
    dom.append(root, NodeOrText::AppendNode(pi));
    dom.append(root, NodeOrText::AppendNode(div));
    let doc = serialize_dom(&dom, "application/xml").unwrap();
    let kinds: Vec<u8> = doc.nodes.iter().map(|n| n.node_type.code()).collect();
    assert_eq!(kinds, vec![9, 8, 7, 1]);
    assert_eq!(string(&doc, doc.nodes[1].name), "#comment");
    assert_eq!(string(&doc, doc.nodes[1].value), "note");
    assert_eq!(string(&doc, doc.nodes[2].name), "xml-stylesheet");
    assert_eq!(string(&doc, doc.nodes[2].value), "href=\"a\"");
    assert_eq!(string(&doc, doc.nodes[3].name), "div");
    assert_eq!(doc.nodes[3].value, None);
    assert_eq!(doc.nodes[3].attrs, None);
    assert_eq!(doc.nodes[3].name, Some(4));
}

#[test]
fn namespace_is_interned_even_where_no_record_names_it() {
    let mut dom = RcDom::default();
    let root = dom.get_document();
    let div = element(&mut dom, XHTML, "section", Vec::new());
    dom.append(root, NodeOrText::AppendNode(div));
    let doc = serialize_dom(&dom, "text/html").unwrap();
    assert_eq!(&doc.strings[24..], ["#document", XHTML, "section"]);
    assert_eq!(doc.nodes[1].name, Some(26));
    assert_eq!(doc.nodes[1].value, None);
}

#[test]
fn prefixed_name_is_written_with_its_prefix() {
    let mut dom = RcDom::default();
    let root = dom.get_document();
    let rect = dom.create_element(
        QualName::new(
            Some("svg".to_string()),
            "http://www.w3.org/2000/svg".to_string(),
            "rect".to_string(),
        ),
        Vec::new(),
        ElementFlags { template: false, mathml_annotation_xml_integration_point: false },
    );
    let plain = dom.create_element(
        QualName::new(Some(String::new()), String::new(), "rect".to_string()),
        Vec::new(),
        ElementFlags { template: false, mathml_annotation_xml_integration_point: false },
    );
    dom.append(root, NodeOrText::AppendNode(rect));
    dom.append(root, NodeOrText::AppendNode(plain));
    let doc = serialize_dom(&dom, "image/svg+xml").unwrap();
    assert_eq!(
        &doc.strings[24..],
        ["#document", "http://www.w3.org/2000/svg", "rect", "svg:rect"]
    );
    assert_eq!(string(&doc, doc.nodes[1].name), "svg:rect");
    // An empty prefix counts as none.
    assert_eq!(string(&doc, doc.nodes[2].name), "rect");
}

#[test]
fn attributes_are_encoded_by_local_name() {
    let mut dom = RcDom::default();
    let root = dom.get_document();
    let a = element(
        &mut dom,
        "",
        "a",
        vec![
            Attribute {
                name: QualName::new(None, String::new(), "href".to_string()),
                value: "#top".to_string(),
            },
            Attribute {
                name: QualName::new(
                    Some("xlink".to_string()),
                    "http://www.w3.org/1999/xlink".to_string(),
                    "title".to_string(),
                ),
                value: "href".to_string(),
            },
        ],
    );
    dom.append(root, NodeOrText::AppendNode(a));
    let doc = serialize_dom(&dom, "text/html").unwrap();
    let attrs = doc.nodes[1].attrs.as_ref().unwrap();
    assert_eq!(attrs.len(), 2);
    // "a", "href" and "title" are in the default vocabulary.
    assert_eq!(doc.nodes[1].name, Some(8));
    assert_eq!(attrs[0], WireAttr { ns: None, name: 19, value: 25 });
    assert_eq!(attrs[1], WireAttr { ns: Some(26), name: 21, value: 19 });
    assert_eq!(&doc.strings[24..], ["#document", "#top", "http://www.w3.org/1999/xlink"]);
}

#[test]
fn strings_are_interned_in_document_order() {
    let mut dom = RcDom::default();
    let root = dom.get_document();
    let ul = element(&mut dom, "", "ul", Vec::new());
    let first = element(&mut dom, "", "li", Vec::new());
    let second = element(&mut dom, "", "li", Vec::new());
    dom.append(root, NodeOrText::AppendNode(ul));
    dom.append(ul, NodeOrText::AppendNode(first));
    dom.append(ul, NodeOrText::AppendNode(second));
    dom.append(first, NodeOrText::AppendText("one".to_string()));
    dom.append(second, NodeOrText::AppendText("two".to_string()));
    dom.append(root, NodeOrText::AppendText("one".to_string()));
    let doc = serialize_dom(&dom, "text/html").unwrap();
    assert_eq!(&doc.strings[24..], ["#document", "ul", "li", "#text", "one", "two"]);
    let names: Vec<u32> = doc.nodes.iter().map(|n| n.name.unwrap()).collect();
    assert_eq!(names, vec![24, 25, 26, 27, 26, 27, 27]);
    let values: Vec<Option<u32>> = doc.nodes.iter().map(|n| n.value).collect();
    assert_eq!(values, vec![None, None, None, Some(28), None, Some(29), Some(28)]);
}

#[test]
fn records_are_linked_by_position() {
    let mut dom = RcDom::default();
    let root = dom.get_document();
    let a = element(&mut dom, "", "a", Vec::new());
    let b = element(&mut dom, "", "b", Vec::new());
    let c = element(&mut dom, "", "c", Vec::new());
    let d = element(&mut dom, "", "d", Vec::new());
    let e = element(&mut dom, "", "e", Vec::new());
    let f = element(&mut dom, "", "f", Vec::new());
    // root: a(b(c, d), e), f
    dom.append(root, NodeOrText::AppendNode(a));
    dom.append(root, NodeOrText::AppendNode(f));
    dom.append(a, NodeOrText::AppendNode(b));
    dom.append(a, NodeOrText::AppendNode(e));
    dom.append(b, NodeOrText::AppendNode(c));
    dom.append(b, NodeOrText::AppendNode(d));
    let doc = serialize_dom(&dom, "text/html").unwrap();
    let names: Vec<&str> = doc.nodes.iter().map(|n| string(&doc, n.name)).collect();
    assert_eq!(names, vec!["#document", "a", "b", "c", "d", "e", "f"]);
    for (i, node) in doc.nodes.iter().enumerate() {
        assert_eq!(node.id as usize, i);
        if let Some(first) = node.first_child {
            assert!(first > node.id);
        }
        for child in children(&doc, node) {
            assert_eq!(doc.nodes[child as usize].parent, Some(node.id));
        }
    }
    let links: Vec<(Option<u32>, Option<u32>, Option<u32>)> = doc
        .nodes
        .iter()
        .map(|n| (n.parent, n.first_child, n.next_sibling))
        .collect();
    assert_eq!(
        links,
        vec![
            (None, Some(1), None),
            (Some(0), Some(2), Some(6)),
            (Some(1), Some(3), Some(5)),
            (Some(2), None, Some(4)),
            (Some(2), None, None),
            (Some(1), None, None),
            (Some(0), None, None),
        ]
    );
    assert_eq!(children(&doc, &doc.nodes[0]), vec![1, 6]);
    assert_eq!(children(&doc, &doc.nodes[1]), vec![2, 5]);
    assert_eq!(children(&doc, &doc.nodes[2]), vec![3, 4]);
    assert!(children(&doc, &doc.nodes[3]).is_empty());
}

#[test]
fn detached_nodes_and_template_contents_are_left_out() {
    let mut dom = RcDom::default();
    let root = dom.get_document();
    let template = dom.create_element(
        QualName::new(None, String::new(), "template".to_string()),
        Vec::new(),
        ElementFlags { template: true, mathml_annotation_xml_integration_point: false },
    );
    let contents = dom.get_template_contents(template);
    let inside = element(&mut dom, "", "inside", Vec::new());
    let detached = element(&mut dom, "", "detached", Vec::new());
    dom.append(root, NodeOrText::AppendNode(template));
    dom.append(contents, NodeOrText::AppendNode(inside));
    dom.append(root, NodeOrText::AppendNode(detached));
    dom.remove_from_parent(detached);
    let doc = serialize_dom(&dom, "text/html").unwrap();
    assert_eq!(doc.nodes.len(), 2);
    assert_eq!(string(&doc, doc.nodes[1].name), "template");
    assert_eq!(doc.nodes[1].first_child, None);
    assert!(!doc.strings.iter().any(|s| s == "inside" || s == "detached"));
}

#[test]
fn subtree_is_collected_after_what_is_there() {
    let mut dom = RcDom::default();
    let root = dom.get_document();
    let a = element(&mut dom, "", "a", Vec::new());
    let b = element(&mut dom, "", "b", Vec::new());
    dom.append(root, NodeOrText::AppendNode(a));
    dom.append(a, NodeOrText::AppendNode(b));
    let mut interner = Interner::new();
    let mut nodes = Vec::new();
    assert_eq!(collect(&dom, b, Some(7), &mut interner, &mut nodes), Some(0));
    assert_eq!(collect(&dom, a, None, &mut interner, &mut nodes), Some(1));
    assert_eq!(collect(&dom, root, Some(9), &mut interner, &mut nodes), Some(3));
    assert_eq!(interner.into_strings(), vec!["b", "a", "#document"]);
    let shape: Vec<(u32, Option<u32>, Option<u32>, Option<u32>, Option<u32>)> = nodes
        .iter()
        .map(|n| (n.id, n.name, n.parent, n.first_child, n.next_sibling))
        .collect();
    assert_eq!(
        shape,
        vec![
            (0, Some(0), Some(7), None, None),
            (1, Some(1), None, Some(2), None),
            (2, Some(0), Some(1), None, None),
            // A document names no parent, whatever it is given.
            (3, Some(2), None, Some(4), None),
            (4, Some(1), Some(3), Some(5), None),
            (5, Some(0), Some(4), None, None),
        ]
    );
}

#[test]
fn node_types_are_numbered_as_in_the_dom() {
    let kinds = [
        WireNodeType::Element,
        WireNodeType::Attribute,
        WireNodeType::Text,
        WireNodeType::CData,
        WireNodeType::EntityReference,
        WireNodeType::Entity,
        WireNodeType::ProcessingInstruction,
        WireNodeType::Comment,
        WireNodeType::Document,
        WireNodeType::DocumentType,
        WireNodeType::DocumentFragment,
        WireNodeType::Notation,
    ];
    for (i, kind) in kinds.iter().enumerate() {
        assert_eq!(kind.code() as usize, i + 1);
        assert_eq!(WireNodeType::from_code((i + 1) as u8), Some(*kind));
    }
    assert_eq!(WireNodeType::from_code(0), None);
    assert_eq!(WireNodeType::from_code(13), None);
    assert_eq!(WireNodeType::default(), WireNodeType::Element);
}
