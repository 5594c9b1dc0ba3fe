use std::borrow::Cow;
use std::cell::RefCell;
use std::io;

use dawm::flatten::serialize_dom;
use dawm::rcdom::{ElementFlags as Flags, NodeData, NodeOrText as Insertion, RcDom};
use dawm::serialize::{SerializableHandle, SerializeEvent, TraversalScope as Scope};
use dawm::tree::Handle;
use dawm::WireNodeType;
use html5ever::serialize::{Serialize, SerializeOpts, Serializer, TraversalScope};
use html5ever::tendril::{StrTendril, TendrilSink};
use html5ever::tokenizer::TokenizerOpts;
use html5ever::tree_builder::{
    ElemName, ElementFlags, NodeOrText, QuirksMode, TreeBuilderOpts, TreeSink,
};
use html5ever::{Attribute, LocalName, Namespace, ParseOpts, Prefix, QualName};

#[derive(Debug)]
struct ElementName {
    ns: Namespace,
    local: LocalName,
}

impl ElemName for ElementName {
    fn ns(&self) -> &Namespace {
        &self.ns
    }

    fn local_name(&self) -> &LocalName {
        &self.local
    }
}

#[derive(Debug, Default)]
struct Sink {
    dom: RefCell<RcDom>,
}

fn name_from(name: &QualName) -> dawm::QualName {
    dawm::QualName::new(
        name.prefix.as_ref().map(|p| p.to_string()),
        name.ns.to_string(),
        name.local.to_string(),
    )
}

fn name_to(name: &dawm::QualName) -> QualName {
    QualName::new(
        name.prefix.as_deref().map(Prefix::from),
        Namespace::from(name.ns.as_str()),
        LocalName::from(name.local.as_str()),
    )
}

fn attributes_from(attrs: Vec<Attribute>) -> Vec<dawm::Attribute> {
    attrs
        .into_iter()
        .map(|attr| dawm::Attribute {
            name: name_from(&attr.name),
            value: String::from(attr.value),
        })
        .collect()
}

fn insertion_from(child: NodeOrText<Handle>) -> Insertion {
    match child {
        NodeOrText::AppendNode(node) => Insertion::AppendNode(node),
        NodeOrText::AppendText(text) => Insertion::AppendText(String::from(text)),
    }
}

impl TreeSink for Sink {
    type Handle = Handle;
    type Output = RcDom;
    type ElemName<'a>
        = ElementName
    where
        Self: 'a;

    fn finish(self) -> RcDom {
        self.dom.into_inner().finish()
    }

    fn parse_error(&self, msg: Cow<'static, str>) {
        self.dom.borrow_mut().parse_error(msg.into_owned());
    }

    fn get_document(&self) -> Handle {
        self.dom.borrow().get_document()
    }

    fn get_template_contents(&self, target: &Handle) -> Handle {
        let dom = self.dom.borrow();
        assert!(*target < dom.len());
        assert!(matches!(
            dom.node(*target).data,
            NodeData::Element {
                template_contents: Some(_),
                ..
            }
        ));
        dom.get_template_contents(*target)
    }

    fn set_quirks_mode(&self, mode: QuirksMode) {
        let mode = match mode {
            QuirksMode::Quirks => dawm::QuirksMode::Quirks,
            QuirksMode::LimitedQuirks => dawm::QuirksMode::LimitedQuirks,
            QuirksMode::NoQuirks => dawm::QuirksMode::NoQuirks,
        };
        self.dom.borrow_mut().set_quirks_mode(mode);
    }

    fn same_node(&self, x: &Handle, y: &Handle) -> bool {
        self.dom.borrow().same_node(*x, *y)
    }

    fn elem_name<'a>(&'a self, target: &'a Handle) -> ElementName {
        let dom = self.dom.borrow();
        assert!(*target < dom.len());
        assert!(matches!(dom.node(*target).data, NodeData::Element { .. }));
        let name = dom.elem_name(*target);
        ElementName {
            ns: Namespace::from(name.ns.as_str()),
            local: LocalName::from(name.local.as_str()),
        }
    }

    fn create_element(&self, name: QualName, attrs: Vec<Attribute>, flags: ElementFlags) -> Handle {
        self.dom.borrow_mut().create_element(
            name_from(&name),
            attributes_from(attrs),
            Flags {
                template: flags.template,
                mathml_annotation_xml_integration_point: flags
                    .mathml_annotation_xml_integration_point,
            },
        )
    }

    fn create_comment(&self, contents: StrTendril) -> Handle {
        self.dom.borrow_mut().create_comment(String::from(contents))
    }

    fn create_pi(&self, target: StrTendril, contents: StrTendril) -> Handle {
        self.dom
            .borrow_mut()
            .create_pi(String::from(target), String::from(contents))
    }

    fn append(&self, parent: &Handle, child: NodeOrText<Handle>) {
        let child = insertion_from(child);
        let mut dom = self.dom.borrow_mut();
        assert!(dom.can_append(*parent, &child));
        dom.append(*parent, child);
    }

    fn append_before_sibling(&self, sibling: &Handle, child: NodeOrText<Handle>) {
        let child = insertion_from(child);
        let mut dom = self.dom.borrow_mut();
        assert!(dom.can_insert_before(*sibling, &child));
        dom.append_before_sibling(*sibling, child);
    }

    fn append_based_on_parent_node(
        &self,
        element: &Handle,
        prev_element: &Handle,
        child: NodeOrText<Handle>,
    ) {
        let has_parent = {
            let dom = self.dom.borrow();
            assert!(*element < dom.len());
            dom.node(*element).parent.is_some()
        };
        if has_parent {
            self.append_before_sibling(element, child);
        } else {
            self.append(prev_element, child);
        }
    }

    fn append_doctype_to_document(
        &self,
        name: StrTendril,
        public_id: StrTendril,
        system_id: StrTendril,
    ) {
        self.dom.borrow_mut().append_doctype_to_document(
            String::from(name),
            String::from(public_id),
            String::from(system_id),
        );
    }

    fn add_attrs_if_missing(&self, target: &Handle, attrs: Vec<Attribute>) {
        let mut dom = self.dom.borrow_mut();
        assert!(*target < dom.len());
        assert!(matches!(dom.node(*target).data, NodeData::Element { .. }));
        dom.add_attrs_if_missing(*target, attributes_from(attrs));
    }

    fn remove_from_parent(&self, target: &Handle) {
        let mut dom = self.dom.borrow_mut();
        assert!(*target < dom.len());
        dom.remove_from_parent(*target);
    }

    fn reparent_children(&self, node: &Handle, new_parent: &Handle) {
        let mut dom = self.dom.borrow_mut();
        assert!(dom.can_reparent(*node, *new_parent));
        dom.reparent_children(*node, *new_parent);
    }

    fn is_mathml_annotation_xml_integration_point(&self, target: &Handle) -> bool {
        let dom = self.dom.borrow();
        assert!(*target < dom.len());
        assert!(matches!(dom.node(*target).data, NodeData::Element { .. }));
        dom.is_mathml_annotation_xml_integration_point(*target)
    }
}

struct Markup<'a> {
    dom: &'a RcDom,
    handle: Handle,
}

impl Serialize for Markup<'_> {
    fn serialize<S>(&self, serializer: &mut S, traversal_scope: TraversalScope) -> io::Result<()>
    where
        S: Serializer,
    {
        let scope = match traversal_scope {
            TraversalScope::IncludeNode => Scope::IncludeNode,
            TraversalScope::ChildrenOnly(name) => Scope::ChildrenOnly(name.as_ref().map(name_from)),
        };
        for event in SerializableHandle(self.handle).serialize(self.dom, scope) {
            match event {
                SerializeEvent::StartElem(h) => {
                    if let NodeData::Element { name, attrs, .. } = &self.dom.node(h).data {
                        let attrs: Vec<(QualName, &str)> = attrs
                            .iter()
                            .map(|attr| (name_to(&attr.name), attr.value.as_str()))
                            .collect();
                        serializer.start_elem(
                            name_to(name),
                            attrs.iter().map(|(name, value)| (name, *value)),
                        )?;
                    }
                }
                SerializeEvent::EndElem(h) => {
                    if let NodeData::Element { name, .. } = &self.dom.node(h).data {
                        serializer.end_elem(name_to(name))?;
                    }
                }
                SerializeEvent::Doctype(h) => {
                    if let NodeData::Doctype { name, .. } = &self.dom.node(h).data {
                        serializer.write_doctype(name)?;
                    }
                }
                SerializeEvent::Text(h) => {
                    if let NodeData::Text { contents } = &self.dom.node(h).data {
                        serializer.write_text(contents)?;
                    }
                }
                SerializeEvent::Comment(h) => {
                    if let NodeData::Comment { contents } = &self.dom.node(h).data {
                        serializer.write_comment(contents)?;
                    }
                }
                SerializeEvent::ProcessingInstruction(h) => {
                    if let NodeData::ProcessingInstruction { target, contents } =
                        &self.dom.node(h).data
                    {
                        serializer.write_processing_instruction(target, contents)?;
                    }
                }
            }
        }
        Ok(())
    }
}

fn parse_opts(exact_errors: bool, drop_doctype: bool) -> ParseOpts {
    ParseOpts {
        tree_builder: TreeBuilderOpts {
            exact_errors,
            scripting_enabled: true,
            iframe_srcdoc: false,
            drop_doctype,
            quirks_mode: QuirksMode::NoQuirks,
        },
        tokenizer: TokenizerOpts {
            exact_errors,
            ..Default::default()
        },
    }
}

fn parse_fragment(input: &str, context: &str, exact_errors: bool) -> RcDom {
    html5ever::parse_fragment(
        Sink::default(),
        parse_opts(exact_errors, true),
        QualName::new(
            None,
            Namespace::from("http://www.w3.org/1999/xhtml"),
            LocalName::from(context),
        ),
        vec![],
        false,
    )
    .from_utf8()
    .read_from(&mut input.as_bytes())
    .unwrap()
}

fn parse_document(input: &str) -> RcDom {
    html5ever::parse_document(Sink::default(), parse_opts(true, false))
        .from_utf8()
        .read_from(&mut input.as_bytes())
        .unwrap()
}

fn parse_xml(input: &str) -> RcDom {
    xml5ever::driver::parse_document(Sink::default(), Default::default()).one(input)
}

fn markup(dom: &RcDom, handle: Handle, scope: TraversalScope) -> String {
    let mut out = Vec::new();
    let opts = SerializeOpts {
        traversal_scope: scope,
        ..Default::default()
    };
    html5ever::serialize::serialize(&mut out, &Markup { dom, handle }, opts).unwrap();
    String::from_utf8(out).unwrap()
}

fn local_name(dom: &RcDom, handle: Handle) -> String {
    match &dom.node(handle).data {
        NodeData::Element { name, .. } => name.local.clone(),
        other => panic!("not an element: {:?}", other),
    }
}

#[test]
fn fragment_round_trips_through_the_serializer() {
    let input = "<div><span></span></div>";
    let dom = parse_fragment(input, "div", true);
    let root = dom.node(dom.get_document()).children[0];
    assert_eq!(local_name(&dom, root), "html");
    assert_eq!(markup(&dom, root, TraversalScope::ChildrenOnly(None)), input);
}

#[test]
fn unterminated_tags_are_closed_and_reported() {
    let dom = parse_fragment("<div><span>", "div", true);
    assert!(!dom.errors().is_empty());
    let html = dom.node(dom.get_document()).children[0];
    let div = dom.node(html).children[0];
    let span = dom.node(div).children[0];
    assert_eq!(local_name(&dom, div), "div");
    assert_eq!(local_name(&dom, span), "span");
    assert_eq!(dom.node(div).children.len(), 1);
    assert!(dom.node(span).children.is_empty());
    assert_eq!(dom.node(span).parent, Some(div));
    assert_eq!(dom.node(div).parent, Some(html));
    assert_eq!(
        markup(&dom, html, TraversalScope::ChildrenOnly(None)),
        "<div><span></span></div>"
    );
}

#[test]
fn document_parses_and_flattens() {
    let dom = parse_document(
        "<!DOCTYPE html><html><head><title>t</title></head><body class=\"a\"><p>one<p>two</body></html>",
    );
    assert_eq!(
        markup(&dom, dom.get_document(), TraversalScope::ChildrenOnly(None)),
        "<!DOCTYPE html><html><head><title>t</title></head><body class=\"a\"><p>one</p><p>two</p></body></html>"
    );
    let doc = serialize_dom(&dom, "text/html").unwrap();
    assert_eq!(doc.content_type, "text/html");
    assert_eq!(doc.quirks_mode, "no-quirks");
    assert_eq!(doc.nodes.len(), 11);
    for (i, node) in doc.nodes.iter().enumerate() {
        assert_eq!(node.id as usize, i);
    }
    let names: Vec<&str> = doc
        .nodes
        .iter()
        .map(|n| doc.strings[n.name.unwrap() as usize].as_str())
        .collect();
    assert_eq!(
        names,
        vec![
            "#document", "html", "html", "head", "title", "#text", "body", "p", "#text", "p",
            "#text"
        ]
    );
    assert_eq!(doc.nodes[0].node_type, WireNodeType::Document);
    assert_eq!(doc.nodes[1].node_type, WireNodeType::DocumentType);
    assert_eq!(doc.nodes[0].first_child, Some(1));
    assert_eq!(doc.nodes[1].next_sibling, Some(2));
    assert_eq!(doc.nodes[2].next_sibling, None);
    assert_eq!(doc.nodes[3].next_sibling, Some(6));
    assert_eq!(doc.nodes[7].next_sibling, Some(9));
    assert_eq!(doc.nodes[9].parent, Some(6));
    let body = &doc.nodes[6];
    let attrs = body.attrs.as_ref().unwrap();
    assert_eq!(attrs.len(), 1);
    assert_eq!(doc.strings[attrs[0].name as usize], "class");
    assert_eq!(doc.strings[attrs[0].value as usize], "a");
    assert_eq!(attrs[0].ns, None);
}

#[test]
fn quirky_document_is_reported_as_quirks() {
    let dom = parse_document("<p>no doctype</p>");
    assert_eq!(dom.quirks_mode(), dawm::QuirksMode::Quirks);
    let doc = serialize_dom(&dom, "text/html").unwrap();
    assert_eq!(doc.quirks_mode, "quirks");
}

#[test]
fn template_contents_are_written_inside_the_template() {
    let input = "<template><b>x</b></template>";
    let dom = parse_fragment(input, "div", false);
    let html = dom.node(dom.get_document()).children[0];
    let template = dom.node(html).children[0];
    assert_eq!(local_name(&dom, template), "template");
    assert!(dom.node(template).children.is_empty());
    let contents = dom.get_template_contents(template);
    assert_eq!(dom.node(contents).children.len(), 1);
    assert_eq!(markup(&dom, html, TraversalScope::ChildrenOnly(None)), input);
}

#[test]
fn misnested_formatting_is_reparented() {
    let dom = parse_fragment("<b>1<p>2</b>3</p>", "div", false);
    let html = dom.node(dom.get_document()).children[0];
    assert_eq!(
        markup(&dom, html, TraversalScope::ChildrenOnly(None)),
        "<b>1</b><p><b>2</b>3</p>"
    );
}

#[test]
fn text_before_a_table_is_fostered_and_merged() {
    let dom = parse_fragment("<table>a<tr>b</tr>c</table>", "div", false);
    let html = dom.node(dom.get_document()).children[0];
    let children = &dom.node(html).children;
    assert_eq!(children.len(), 2);
    assert!(matches!(
        &dom.node(children[0]).data,
        NodeData::Text { contents } if contents == "abc"
    ));
    assert_eq!(local_name(&dom, children[1]), "table");
}

#[test]
fn xml_document_keeps_prefixes_and_instructions() {
    let dom = parse_xml("<?xml-stylesheet href=\"a.xsl\"?><a:root xmlns:a=\"urn:a\"><a:leaf k=\"v\"/><!--c--></a:root>");
    let doc = serialize_dom(&dom, "application/xml").unwrap();
    let names: Vec<&str> = doc
        .nodes
        .iter()
        .map(|n| doc.strings[n.name.unwrap() as usize].as_str())
        .collect();
    assert_eq!(
        names,
        vec!["#document", "xml-stylesheet", "a:root", "a:leaf", "#comment"]
    );
    assert_eq!(doc.nodes[1].node_type, WireNodeType::ProcessingInstruction);
    assert_eq!(
        doc.strings[doc.nodes[1].value.unwrap() as usize],
        "href=\"a.xsl\""
    );
    assert!(doc.strings.iter().any(|s| s == "urn:a"));
    assert!(doc.strings.iter().any(|s| s == "root"));
    assert_eq!(doc.strings[doc.nodes[4].value.unwrap() as usize], "c");
}
