use dawm::rcdom::{ElementFlags, NodeOrText, RcDom};
use dawm::serialize::{SerializableHandle, SerializeEvent, TraversalScope};
use dawm::tree::Handle;
use dawm::QualName;

fn element(dom: &mut RcDom, local: &str, template: bool) -> Handle {
    dom.create_element(
        QualName::new(None, "http://www.w3.org/1999/xhtml".to_string(), local.to_string()),
        Vec::new(),
        ElementFlags { template, mathml_annotation_xml_integration_point: false },
    )
}

#[test]
fn empty_document_has_no_events() {
    let dom = RcDom::default();
    let root = SerializableHandle::from(dom.get_document());
    assert!(root.serialize(&dom, TraversalScope::IncludeNode).is_empty());
    assert!(root.serialize(&dom, TraversalScope::ChildrenOnly(None)).is_empty());
}

#[test]
fn events_follow_document_order() {
    let mut dom = RcDom::default();
    let root = dom.get_document();
    dom.append_doctype_to_document("html".to_string(), String::new(), String::new());
    let doctype = dom.node(root).children[0];
    let div = element(&mut dom, "div", false);
    let span = element(&mut dom, "span", false);
    let comment = dom.create_comment("c".to_string());
    let pi = dom.create_pi("t".to_string(), "d".to_string());
    dom.append(root, NodeOrText::AppendNode(div));
    dom.append(div, NodeOrText::AppendText("a".to_string()));
    let text = dom.node(div).children[0];
    dom.append(div, NodeOrText::AppendNode(span));
    dom.append(span, NodeOrText::AppendNode(comment));
    dom.append(div, NodeOrText::AppendNode(pi));
    let events = SerializableHandle(root).serialize(&dom, TraversalScope::IncludeNode);
    assert_eq!(
        events,
        vec![
            SerializeEvent::Doctype(doctype),
            SerializeEvent::StartElem(div),
            SerializeEvent::Text(text),
            SerializeEvent::StartElem(span),
            SerializeEvent::Comment(comment),
            SerializeEvent::EndElem(span),
            SerializeEvent::ProcessingInstruction(pi),
            SerializeEvent::EndElem(div),
        ]
    );
    // A document has no markup of its own.
    assert_eq!(
        SerializableHandle(root).serialize(&dom, TraversalScope::ChildrenOnly(None)),
        events
    );
}

#[test]
fn scope_decides_whether_the_node_is_written() {
    let mut dom = RcDom::default();
    let root = dom.get_document();
    let div = element(&mut dom, "div", false);
    let a = element(&mut dom, "a", false);
    let b = element(&mut dom, "b", false);
    dom.append(root, NodeOrText::AppendNode(div));
    dom.append(div, NodeOrText::AppendNode(a));
    dom.append(div, NodeOrText::AppendNode(b));
    let inner = vec![
        SerializeEvent::StartElem(a),
        SerializeEvent::EndElem(a),
        SerializeEvent::StartElem(b),
        SerializeEvent::EndElem(b),
    ];
    assert_eq!(
        SerializableHandle(div).serialize(&dom, TraversalScope::ChildrenOnly(None)),
        inner
    );
    let mut whole = vec![SerializeEvent::StartElem(div)];
    whole.extend(inner);
    whole.push(SerializeEvent::EndElem(div));
    assert_eq!(SerializableHandle(div).serialize(&dom, TraversalScope::IncludeNode), whole);
    assert_eq!(
        SerializableHandle(a).serialize(&dom, TraversalScope::IncludeNode),
        vec![SerializeEvent::StartElem(a), SerializeEvent::EndElem(a)]
    );
    assert!(SerializableHandle(a)
        .serialize(&dom, TraversalScope::ChildrenOnly(None))
        .is_empty());
}

#[test]
fn template_contents_come_before_the_children() {
    let mut dom = RcDom::default();
    let root = dom.get_document();
    let template = element(&mut dom, "template", true);
    let contents = dom.get_template_contents(template);
    let child = element(&mut dom, "i", false);
    let first = element(&mut dom, "b", false);
    let second = dom.create_comment("c".to_string());
    dom.append(root, NodeOrText::AppendNode(template));
    dom.append(template, NodeOrText::AppendNode(child));
    dom.append(contents, NodeOrText::AppendNode(first));
    dom.append(contents, NodeOrText::AppendNode(second));
    assert_eq!(
        SerializableHandle(root).serialize(&dom, TraversalScope::IncludeNode),
        vec![
            SerializeEvent::StartElem(template),
            SerializeEvent::StartElem(first),
            SerializeEvent::EndElem(first),
            SerializeEvent::Comment(second),
            SerializeEvent::StartElem(child),
            SerializeEvent::EndElem(child),
            SerializeEvent::EndElem(template),
        ]
    );
    // The walk leaves the tree as it was.
    assert_eq!(dom.node(first).parent, Some(contents));
    assert_eq!(dom.node(contents).children, vec![first, second]);
    // Only the children of the node itself are written without the node.
    assert_eq!(
        SerializableHandle(template).serialize(&dom, TraversalScope::ChildrenOnly(None)),
        vec![SerializeEvent::StartElem(child), SerializeEvent::EndElem(child)]
    );
}

#[test]
fn deep_trees_are_walked_without_recursion() {
    let mut dom = RcDom::default();
    let mut parent = dom.get_document();
    let depth = 20_000;
    for _ in 0..depth {
        let next = element(&mut dom, "div", false);
        dom.append(parent, NodeOrText::AppendNode(next));
        parent = next;
    }
    let events = SerializableHandle(dom.get_document()).serialize(&dom, TraversalScope::IncludeNode);
    assert_eq!(events.len(), 2 * depth);
    assert_eq!(events[0], SerializeEvent::StartElem(1));
    assert_eq!(events[depth - 1], SerializeEvent::StartElem(depth));
    assert_eq!(events[depth], SerializeEvent::EndElem(depth));
    assert_eq!(events[2 * depth - 1], SerializeEvent::EndElem(1));
}
