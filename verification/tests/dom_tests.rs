use html_ops::dom::{Attr, Dom, ElementFlags, Handle, NodeData, NodeOrText, QualName, QuirksMode};
use html_ops::DomError;

fn plain_name(local: &str) -> QualName {
    QualName { ns: String::new(), local: local.to_string() }
}

fn new_element(dom: &mut Dom, local: &str) -> Handle {
    dom.create_element(
        plain_name(local),
        Vec::new(),
        ElementFlags { template: false, mathml_annotation_xml_integration_point: false },
    )
}

#[test]
fn test_append_text_coalesces() {
    let mut dom = Dom::new();
    let tag = new_element(&mut dom, "tag");
    let doc = dom.get_document();
    dom.append_child(doc, tag).unwrap();
    dom.append(tag, NodeOrText::AppendText("Hello".to_string())).unwrap();
    dom.append(tag, NodeOrText::AppendText(" world".to_string())).unwrap();
    assert_eq!(dom.child_count(tag), 1);
    let child = dom.child_at(tag, 0);
    match dom.data(child) {
        NodeData::Text { contents } => assert_eq!(contents, "Hello world"),
        _ => panic!("expected a text child"),
    }
    assert_eq!(dom.to_html_string(tag).unwrap(), "<tag>Hello world</tag>");
}

#[test]
fn test_sequential_text_appends_serialize_once() {
    let mut dom = Dom::new();
    let tag = new_element(&mut dom, "tag");
    dom.append(tag, NodeOrText::AppendText("A".to_string())).unwrap();
    dom.append(tag, NodeOrText::AppendText("B".to_string())).unwrap();
    dom.append(tag, NodeOrText::AppendText("C".to_string())).unwrap();
    assert_eq!(dom.child_count(tag), 1);
    assert_eq!(dom.to_html_string(tag).unwrap(), "<tag>ABC</tag>");
}

#[test]
fn test_detach_sole_child_serializes_empty() {
    let mut dom = Dom::new();
    let tag = new_element(&mut dom, "tag");
    dom.append(tag, NodeOrText::AppendText("inner".to_string())).unwrap();
    let child = dom.child_at(tag, 0);
    dom.detach(child);
    assert_eq!(dom.child_count(tag), 0);
    assert_eq!(dom.to_html_string(tag).unwrap(), "<tag></tag>");
}

#[test]
fn test_detach_clears_backreference_and_allows_reattach() {
    let mut dom = Dom::new();
    let a = new_element(&mut dom, "a");
    let b = new_element(&mut dom, "b");
    let c = new_element(&mut dom, "c");
    dom.append_child(a, c).unwrap();
    assert!(dom.parent(c).is_some());
    dom.detach(c);
    assert!(dom.parent(c).is_none());
    dom.append_child(b, c).unwrap();
    assert_eq!(dom.parent(c).unwrap().idx, b.idx);
    assert_eq!(dom.child_count(a), 0);
    assert_eq!(dom.child_count(b), 1);
}

#[test]
fn test_append_child_already_parented() {
    let mut dom = Dom::new();
    let a = new_element(&mut dom, "a");
    let b = new_element(&mut dom, "b");
    let c = new_element(&mut dom, "c");
    dom.append_child(a, c).unwrap();
    assert_eq!(dom.append_child(b, c), Err(DomError::AlreadyParented));
}

#[test]
fn test_insert_before_requires_parent() {
    let mut dom = Dom::new();
    let a = new_element(&mut dom, "a");
    let b = new_element(&mut dom, "b");
    assert_eq!(dom.insert_before(a, b), Err(DomError::NoParent));
}

#[test]
fn test_append_child_refuses_cycle() {
    let mut dom = Dom::new();
    let a = new_element(&mut dom, "a");
    let b = new_element(&mut dom, "b");
    dom.append_child(a, b).unwrap();
    // `a` is an ancestor of `b`: making it also a descendant must fail.
    assert_eq!(dom.append_child(b, a), Err(DomError::WouldCycle));
}

#[test]
fn test_append_child_refuses_document() {
    let mut dom = Dom::new();
    let a = new_element(&mut dom, "a");
    let doc = dom.get_document();
    assert_eq!(dom.append_child(a, doc), Err(DomError::DocumentAsChild));
}

#[test]
fn test_template_contents() {
    let mut dom = Dom::new();
    let tpl = dom.create_element(
        plain_name("template"),
        Vec::new(),
        ElementFlags { template: true, mathml_annotation_xml_integration_point: false },
    );
    let inner = dom.get_template_contents(tpl).unwrap();
    assert!(matches!(dom.data(inner), NodeData::Document));
    let plain = new_element(&mut dom, "div");
    assert_eq!(dom.get_template_contents(plain), Err(DomError::NotATemplate));
    let doc = dom.get_document();
    assert_eq!(dom.get_template_contents(doc), Err(DomError::NotATemplate));
}

#[test]
fn test_elem_name_and_integration_point() {
    let mut dom = Dom::new();
    let e = dom.create_element(
        QualName { ns: "ns".to_string(), local: "x".to_string() },
        Vec::new(),
        ElementFlags { template: false, mathml_annotation_xml_integration_point: true },
    );
    let name = dom.elem_name(e).unwrap();
    assert_eq!(name.ns, "ns");
    assert_eq!(name.local, "x");
    assert!(dom.is_mathml_annotation_xml_integration_point(e).unwrap());
    let t = dom.new_node(NodeData::Text { contents: "t".to_string() });
    assert!(matches!(dom.elem_name(t), Err(DomError::NotAnElement)));
    assert!(matches!(
        dom.is_mathml_annotation_xml_integration_point(t),
        Err(DomError::NotAnElement)
    ));
}

#[test]
fn test_add_attrs_if_missing_first_write_wins() {
    let mut dom = Dom::new();
    let e = dom.create_element(
        plain_name("e"),
        vec![Attr { name: "kept".to_string(), value: "old".to_string() }],
        ElementFlags { template: false, mathml_annotation_xml_integration_point: false },
    );
    dom.add_attrs_if_missing(
        e,
        vec![
            Attr { name: "kept".to_string(), value: "new".to_string() },
            Attr { name: "fresh".to_string(), value: "v".to_string() },
        ],
    )
    .unwrap();
    match dom.data(e) {
        NodeData::Element { attrs, .. } => {
            assert_eq!(attrs.len(), 2);
            assert_eq!(attrs[0].name, "kept");
            assert_eq!(attrs[0].value, "old");
            assert_eq!(attrs[1].name, "fresh");
            assert_eq!(attrs[1].value, "v");
        }
        _ => panic!("expected an element"),
    }
    let t = dom.new_node(NodeData::Text { contents: "t".to_string() });
    assert_eq!(dom.add_attrs_if_missing(t, Vec::new()), Err(DomError::NotAnElement));
}

#[test]
fn test_reparent_children_moves_all_in_order() {
    let mut dom = Dom::new();
    let from = new_element(&mut dom, "from");
    let to = new_element(&mut dom, "to");
    let c1 = new_element(&mut dom, "one");
    let c2 = new_element(&mut dom, "two");
    dom.append_child(from, c1).unwrap();
    dom.append_child(from, c2).unwrap();
    dom.reparent_children(from, to).unwrap();
    assert_eq!(dom.child_count(from), 0);
    assert_eq!(dom.child_count(to), 2);
    assert_eq!(dom.child_at(to, 0).idx, c1.idx);
    assert_eq!(dom.child_at(to, 1).idx, c2.idx);
    assert_eq!(dom.parent(c1).unwrap().idx, to.idx);
    assert_eq!(dom.parent(c2).unwrap().idx, to.idx);
    // Reparenting onto the same node is refused.
    assert_eq!(dom.reparent_children(to, to), Err(DomError::WouldCycle));
}

#[test]
fn test_reparent_children_coalesces_junction_text() {
    let mut dom = Dom::new();
    let from = new_element(&mut dom, "from");
    let to = new_element(&mut dom, "to");
    dom.append(to, NodeOrText::AppendText("left".to_string())).unwrap();
    dom.append(from, NodeOrText::AppendText("right".to_string())).unwrap();
    dom.reparent_children(from, to).unwrap();
    assert_eq!(dom.child_count(to), 1);
    assert_eq!(dom.to_html_string(to).unwrap(), "<to>leftright</to>");
}

#[test]
fn test_append_before_sibling_merges_text() {
    let mut dom = Dom::new();
    let e = new_element(&mut dom, "e");
    dom.append(e, NodeOrText::AppendText("ab".to_string())).unwrap();
    let marker = new_element(&mut dom, "m");
    dom.append_child(e, marker).unwrap();
    // Text inserted before the marker merges onto the preceding text node.
    dom.append_before_sibling(marker, NodeOrText::AppendText("cd".to_string())).unwrap();
    assert_eq!(dom.child_count(e), 2);
    assert_eq!(dom.to_html_string(e).unwrap(), "<e>abcd<m></m></e>");
}

#[test]
fn test_append_based_on_parent_node() {
    let mut dom = Dom::new();
    let anchored = new_element(&mut dom, "anchored");
    let holder = new_element(&mut dom, "holder");
    let fallback = new_element(&mut dom, "fallback");
    dom.append_child(holder, anchored).unwrap();
    let x = new_element(&mut dom, "x");
    // The candidate anchor has a parent: insert before it.
    dom.append_based_on_parent_node(anchored, fallback, NodeOrText::AppendNode(x)).unwrap();
    assert_eq!(dom.child_at(holder, 0).idx, x.idx);
    let loose = new_element(&mut dom, "loose");
    let y = new_element(&mut dom, "y");
    // The candidate anchor is parentless: append under the fallback.
    dom.append_based_on_parent_node(loose, fallback, NodeOrText::AppendNode(y)).unwrap();
    assert_eq!(dom.child_at(fallback, 0).idx, y.idx);
}

#[test]
fn test_quirks_mode_and_parse_errors() {
    let mut dom = Dom::new();
    assert_eq!(dom.quirks_mode(), QuirksMode::NoQuirks);
    dom.set_quirks_mode(QuirksMode::Quirks);
    assert_eq!(dom.quirks_mode(), QuirksMode::Quirks);
    dom.set_quirks_mode(QuirksMode::LimitedQuirks);
    assert_eq!(dom.quirks_mode(), QuirksMode::LimitedQuirks);
    dom.parse_error("first notice".to_string());
    dom.parse_error("second notice".to_string());
    assert_eq!(dom.errors().len(), 2);
    assert_eq!(dom.errors()[0], "first notice");
    assert_eq!(dom.errors()[1], "second notice");
}

#[test]
fn test_append_doctype_and_serialize() {
    let mut dom = Dom::new();
    dom.append_doctype_to_document(
        "html".to_string(),
        String::new(),
        String::new(),
    );
    let tag = new_element(&mut dom, "x");
    let doc = dom.get_document();
    dom.append_child(doc, tag).unwrap();
    assert_eq!(dom.to_html_string(doc).unwrap(), "<!DOCTYPE html><x></x>");
}

#[test]
fn test_serializer_escapes_text_and_attrs() {
    let mut dom = Dom::new();
    let e = dom.create_element(
        plain_name("p"),
        vec![Attr { name: "title".to_string(), value: "a\"b&c".to_string() }],
        ElementFlags { template: false, mathml_annotation_xml_integration_point: false },
    );
    dom.append(e, NodeOrText::AppendText("1 < 2 & 3 > 0".to_string())).unwrap();
    assert_eq!(
        dom.to_html_string(e).unwrap(),
        "<p title=\"a&quot;b&amp;c\">1 &lt; 2 &amp; 3 &gt; 0</p>"
    );
}

#[test]
fn test_void_elements_in_html_namespace() {
    let mut dom = Dom::new();
    let br = dom.create_element(
        QualName {
            ns: "http://www.w3.org/1999/xhtml".to_string(),
            local: "br".to_string(),
        },
        Vec::new(),
        ElementFlags { template: false, mathml_annotation_xml_integration_point: false },
    );
    assert_eq!(dom.to_html_string(br).unwrap(), "<br>");
    // Outside the html namespace the same name is not void.
    let plain_br = new_element(&mut dom, "br");
    assert_eq!(dom.to_html_string(plain_br).unwrap(), "<br></br>");
}

#[test]
fn test_comment_and_processing_instruction_forms() {
    let mut dom = Dom::new();
    let c = dom.create_comment(" note ".to_string());
    assert_eq!(dom.to_html_string(c).unwrap(), "<!-- note -->");
    let pi = dom.create_pi("target".to_string(), "data".to_string());
    assert_eq!(dom.to_html_string(pi).unwrap(), "<?target data>");
}

#[test]
fn test_same_node_and_finish() {
    let mut dom = Dom::new();
    let a = new_element(&mut dom, "a");
    let b = new_element(&mut dom, "b");
    assert!(dom.same_node(a, a));
    assert!(!dom.same_node(a, b));
    let dom2 = dom.finish();
    assert_eq!(dom2.len(), 3);
}

#[test]
fn test_insert_before_places_node_at_reference() {
    let mut dom = Dom::new();
    let parent = new_element(&mut dom, "parent");
    let first = new_element(&mut dom, "first");
    let last = new_element(&mut dom, "last");
    dom.append_child(parent, first).unwrap();
    dom.append_child(parent, last).unwrap();
    let mid = new_element(&mut dom, "mid");
    dom.insert_before(last, mid).unwrap();
    assert_eq!(dom.child_at(parent, 0).idx, first.idx);
    assert_eq!(dom.child_at(parent, 1).idx, mid.idx);
    assert_eq!(dom.child_at(parent, 2).idx, last.idx);
}

#[test]
fn test_insert_before_reparents_from_elsewhere() {
    let mut dom = Dom::new();
    let a = new_element(&mut dom, "a");
    let b = new_element(&mut dom, "b");
    let moved = new_element(&mut dom, "moved");
    let anchor = new_element(&mut dom, "anchor");
    dom.append_child(a, moved).unwrap();
    dom.append_child(b, anchor).unwrap();
    dom.insert_before(anchor, moved).unwrap();
    assert_eq!(dom.child_count(a), 0);
    assert_eq!(dom.child_at(b, 0).idx, moved.idx);
    assert_eq!(dom.parent(moved).unwrap().idx, b.idx);
}

#[test]
fn test_insert_before_refuses_ancestor() {
    let mut dom = Dom::new();
    let outer = new_element(&mut dom, "outer");
    let inner = new_element(&mut dom, "inner");
    dom.append_child(outer, inner).unwrap();
    // Inserting `outer` before its own descendant would make a cycle.
    assert_eq!(dom.insert_before(inner, outer), Err(DomError::WouldCycle));
}

#[test]
fn test_text_prepends_into_text_reference_sibling() {
    let mut dom = Dom::new();
    let e = new_element(&mut dom, "e");
    let marker = new_element(&mut dom, "m");
    dom.append_child(e, marker).unwrap();
    dom.append(e, NodeOrText::AppendText("tail".to_string())).unwrap();
    let tail = dom.child_at(e, 1);
    // Text inserted before a text sibling merges onto its front.
    dom.append_before_sibling(tail, NodeOrText::AppendText("head-".to_string())).unwrap();
    assert_eq!(dom.child_count(e), 2);
    assert_eq!(dom.to_html_string(e).unwrap(), "<e><m></m>head-tail</e>");
}
