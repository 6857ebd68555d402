use html_ops::dom::{Attr, Dom, ElementFlags, Handle, NodeData, NodeOrText, QualName};
use html_ops::visitor::asset_mover_visitor::AssetMoverVisitor;
use html_ops::visitor::document_id_visitor::DocumentIdVisitor;
use html_ops::visitor::orphan_visitor::OrphanVisitor;
use html_ops::visitor::rich_text_wrapper_visitor::RichTextWrapperVisitor;
use html_ops::visitor::source_attribute_visitor::SourceAttributeVisitor;
use html_ops::visitor::text_collector_visitor::TextCollectorVisitor;
use html_ops::visitor::traverse;
use html_ops::text::sanitize_text;

fn plain_name(local: &str) -> QualName {
    QualName { ns: String::new(), local: local.to_string() }
}

fn new_element(dom: &mut Dom, local: &str) -> Handle {
    dom.create_element(
        plain_name(local),
        Vec::new(),
        ElementFlags { template: false, mathml_annotation_xml_integration_point: false },
    )
}

fn new_element_with(dom: &mut Dom, local: &str, attrs: Vec<(&str, &str)>) -> Handle {
    let attrs = attrs
        .into_iter()
        .map(|(n, v)| Attr { name: n.to_string(), value: v.to_string() })
        .collect();
    dom.create_element(
        plain_name(local),
        attrs,
        ElementFlags { template: false, mathml_annotation_xml_integration_point: false },
    )
}

fn attr_value(dom: &Dom, h: Handle, name: &str) -> Option<String> {
    match dom.data(h) {
        NodeData::Element { attrs, .. } => attrs
            .iter()
            .find(|a| a.name == name)
            .map(|a| a.value.clone()),
        _ => None,
    }
}

#[test]
fn test_new_visitor() {
    let visitor = RichTextWrapperVisitor::new();
    assert!(visitor.is_root_element("p"));
    assert!(visitor.content_map().is_empty());
}

#[test]
fn test_is_root_element() {
    let visitor = RichTextWrapperVisitor::new();
    assert!(visitor.is_root_element("p"));
    assert!(!visitor.is_root_element("div"));
}

#[test]
fn test_sanitize_text() {
    let input = "  Hello,\n  world!  \n\n  How are you?  ";
    let expected = "Hello, world! How are you?";
    assert_eq!(sanitize_text(input), expected);
}

#[test]
fn test_extract_children_content() {
    let visitor = RichTextWrapperVisitor::new();
    let mut dom = Dom::new();
    let doc = dom.get_document();
    dom.append(doc, NodeOrText::AppendText("Hello ".to_string())).unwrap();
    let strong = new_element(&mut dom, "strong");
    dom.append(strong, NodeOrText::AppendText("world".to_string())).unwrap();
    dom.append(doc, NodeOrText::AppendNode(strong)).unwrap();
    dom.append(doc, NodeOrText::AppendText("!".to_string())).unwrap();
    let content = visitor.extract_children_content(&dom, doc);
    assert_eq!(content, "Hello <strong>!");
}

#[test]
fn test_process_non_root_element() {
    let mut visitor = RichTextWrapperVisitor::new();
    let mut dom = Dom::new();
    let doc = dom.get_document();
    let div = new_element(&mut dom, "div");
    dom.append_child(doc, div).unwrap();
    let p1 = new_element(&mut dom, "p");
    dom.append(p1, NodeOrText::AppendText("Hello, world!".to_string())).unwrap();
    dom.append_child(div, p1).unwrap();
    let p2 = new_element(&mut dom, "p");
    dom.append(p2, NodeOrText::AppendText("This is a test.".to_string())).unwrap();
    dom.append_child(div, p2).unwrap();
    let result = traverse(&mut visitor, &mut dom, doc);
    // The div keeps two children: each paragraph is now inside a fresh
    // rich-text wrapper carrying a distinct generated identifier.
    let div_now = dom.child_at(result, 0);
    assert_eq!(dom.child_count(div_now), 2);
    let w1 = dom.child_at(div_now, 0);
    let w2 = dom.child_at(div_now, 1);
    for w in [w1, w2] {
        match dom.data(w) {
            NodeData::Element { name, .. } => assert_eq!(name.local, "rich-text"),
            _ => panic!("expected a wrapper element"),
        }
        assert_eq!(dom.child_count(w), 1);
    }
    let id1 = attr_value(&dom, w1, "id").unwrap();
    let id2 = attr_value(&dom, w2, "id").unwrap();
    assert_ne!(id1, id2);
    assert_eq!(visitor.content_map().len(), 2);
    assert_eq!(visitor.content_map().get(&id1).unwrap(), "Hello, world!");
    assert_eq!(visitor.content_map().get(&id2).unwrap(), "This is a test.");
    // The wrapped paragraphs were not revisited: wrapping again only wraps
    // the wrappers' own configured roots, of which there are none.
    assert_eq!(dom.to_html_string(w1).unwrap().contains("<p>Hello, world!</p>"), true);
}

#[test]
fn test_process_img_with_source() {
    let mut visitor = SourceAttributeVisitor::new();
    let mut dom = Dom::new();
    let doc = dom.get_document();
    let img = new_element(&mut dom, "img");
    dom.append_child(doc, img).unwrap();
    let source = new_element_with(&mut dom, "source", vec![("src", "test.jpg")]);
    dom.append_child(img, source).unwrap();
    let result = traverse(&mut visitor, &mut dom, doc);
    let output = dom.to_html_string(result).unwrap();
    assert_eq!(output, "<img src=\"test.jpg\"></img>");
}

#[test]
fn test_process_video_with_source() {
    let mut visitor = SourceAttributeVisitor::new();
    let mut dom = Dom::new();
    let doc = dom.get_document();
    let video = new_element(&mut dom, "video");
    dom.append_child(doc, video).unwrap();
    let source = new_element_with(&mut dom, "source", vec![("src", "test.mp4")]);
    dom.append_child(video, source).unwrap();
    let result = traverse(&mut visitor, &mut dom, doc);
    let output = dom.to_html_string(result).unwrap();
    assert_eq!(output, "<video src=\"test.mp4\"></video>");
}

#[test]
fn test_existing_src_override() {
    let mut visitor = SourceAttributeVisitor::new();
    let mut dom = Dom::new();
    let doc = dom.get_document();
    let img = new_element_with(&mut dom, "img", vec![("src", "old.jpg")]);
    dom.append_child(doc, img).unwrap();
    let source = new_element_with(&mut dom, "source", vec![("src", "new.jpg")]);
    dom.append_child(img, source).unwrap();
    let result = traverse(&mut visitor, &mut dom, doc);
    let output = dom.to_html_string(result).unwrap();
    assert_eq!(output, "<img src=\"new.jpg\"></img>");
}

#[test]
fn test_text_collector_collects_under_identifiers() {
    let mut visitor = TextCollectorVisitor::new();
    let mut dom = Dom::new();
    let doc = dom.get_document();
    let outer = new_element_with(&mut dom, "div", vec![("id", "x")]);
    dom.append_child(doc, outer).unwrap();
    dom.append(outer, NodeOrText::AppendText("hello ".to_string())).unwrap();
    let inner = new_element_with(&mut dom, "span", vec![("id", "y")]);
    dom.append_child(outer, inner).unwrap();
    dom.append(inner, NodeOrText::AppendText("there".to_string())).unwrap();
    traverse(&mut visitor, &mut dom, doc);
    assert_eq!(visitor.text_map().get("x").unwrap(), "hello ");
    assert_eq!(visitor.text_map().get("y").unwrap(), "there");
}

#[test]
fn test_document_id_assigns_stable_numbers() {
    let mut visitor = DocumentIdVisitor::new();
    let mut dom = Dom::new();
    let doc = dom.get_document();
    let a1 = new_element_with(&mut dom, "a", vec![("data-ref", "alpha")]);
    dom.append(a1, NodeOrText::AppendText("?".to_string())).unwrap();
    dom.append_child(doc, a1).unwrap();
    let a2 = new_element_with(&mut dom, "a", vec![("data-ref", "beta")]);
    dom.append(a2, NodeOrText::AppendText("?".to_string())).unwrap();
    dom.append_child(doc, a2).unwrap();
    let a3 = new_element_with(&mut dom, "a", vec![("data-ref", "alpha")]);
    dom.append(a3, NodeOrText::AppendText("?".to_string())).unwrap();
    dom.append_child(doc, a3).unwrap();
    let result = traverse(&mut visitor, &mut dom, doc);
    assert_eq!(
        dom.to_html_string(result).unwrap(),
        "<a data-ref=\"alpha\">1</a><a data-ref=\"beta\">2</a><a data-ref=\"alpha\">1</a>"
    );
}

#[test]
fn test_orphan_wraps_loose_text() {
    let mut visitor = OrphanVisitor::new();
    let mut dom = Dom::new();
    let doc = dom.get_document();
    dom.append(doc, NodeOrText::AppendText("  loose text  ".to_string())).unwrap();
    let result = traverse(&mut visitor, &mut dom, doc);
    let wrapper = dom.child_at(result, 0);
    match dom.data(wrapper) {
        NodeData::Element { name, .. } => assert_eq!(name.local, "rich-text"),
        _ => panic!("expected a wrapper element"),
    }
    let id = attr_value(&dom, wrapper, "id").unwrap();
    assert_eq!(visitor.html_map().len(), 1);
    assert_eq!(visitor.html_map().get(&id).unwrap(), "loose text");
}

#[test]
fn test_orphan_passes_whitespace_only_text_through() {
    // Indentation between elements is newline-and-space text; the pass
    // must leave it alone rather than wrap an empty container around it.
    let mut visitor = OrphanVisitor::new();
    let mut dom = Dom::new();
    let doc = dom.get_document();
    dom.append(doc, NodeOrText::AppendText("\n".to_string())).unwrap();
    let result = traverse(&mut visitor, &mut dom, doc);
    assert_eq!(dom.child_count(result), 1);
    let child = dom.child_at(result, 0);
    match dom.data(child) {
        NodeData::Text { contents } => assert_eq!(contents, "\n"),
        _ => panic!("expected the text node unchanged"),
    }
    assert_eq!(visitor.html_map().len(), 0);

    let mut dom2 = Dom::new();
    let doc2 = dom2.get_document();
    dom2.append(doc2, NodeOrText::AppendText("\n  \t\r\n ".to_string())).unwrap();
    let result2 = traverse(&mut visitor, &mut dom2, doc2);
    match dom2.data(dom2.child_at(result2, 0)) {
        NodeData::Text { contents } => assert_eq!(contents, "\n  \t\r\n "),
        _ => panic!("expected the text node unchanged"),
    }
    assert_eq!(visitor.html_map().len(), 0);
}

#[test]
fn test_orphan_wraps_paragraph_content() {
    let mut visitor = OrphanVisitor::new();
    let mut dom = Dom::new();
    let doc = dom.get_document();
    let p = new_element(&mut dom, "p");
    dom.append(p, NodeOrText::AppendText(" body ".to_string())).unwrap();
    dom.append_child(doc, p).unwrap();
    let result = traverse(&mut visitor, &mut dom, doc);
    let new_p = dom.child_at(result, 0);
    match dom.data(new_p) {
        NodeData::Element { name, .. } => assert_eq!(name.local, "p"),
        _ => panic!("expected a paragraph"),
    }
    assert_eq!(dom.child_count(new_p), 1);
    let rich = dom.child_at(new_p, 0);
    match dom.data(rich) {
        NodeData::Element { name, .. } => assert_eq!(name.local, "rich-text"),
        _ => panic!("expected a rich-text container"),
    }
    let id = attr_value(&dom, rich, "id").unwrap();
    assert_eq!(
        visitor.html_map().get(&id).unwrap().clone(),
        "<rich-text id=\"".to_string() + &id + "\">body</rich-text>"
    );
}

#[test]
fn test_asset_relocation_idempotent_within_document() {
    let mut dom = Dom::new();
    let doc = dom.get_document();
    let img1 = new_element_with(&mut dom, "img", vec![("src", "pic one.jpg")]);
    dom.append_child(doc, img1).unwrap();
    let img2 = new_element_with(&mut dom, "img", vec![("src", "pic one.jpg")]);
    dom.append_child(doc, img2).unwrap();
    let mut visitor = AssetMoverVisitor::new(
        String::new(),
        "out".to_string(),
        "doc.html".to_string(),
    )
    .with_existing(vec!["pic one.jpg".to_string()]);
    traverse(&mut visitor, &mut dom, doc);
    let v1 = attr_value(&dom, img1, "src").unwrap();
    let v2 = attr_value(&dom, img2, "src").unwrap();
    // Both references point at the identical new reference, and exactly
    // one copy of the underlying file is planned.
    assert_eq!(v1, v2);
    assert!(v1.starts_with("/assets/pic_one-"));
    assert!(v1.ends_with(".jpg"));
    // The chosen name is the sanitized stem, a dash, a 36-character
    // generated identifier, and the lowered extension.
    assert_eq!(v1.len(), "/assets/pic_one-".len() + 36 + ".jpg".len());
    assert_eq!(visitor.copy_plan().len(), 1);
    assert_eq!(visitor.copy_plan()[0].0, "pic one.jpg");
}

#[test]
fn test_asset_relocation_idempotent_across_documents() {
    let mut dom1 = Dom::new();
    let doc1 = dom1.get_document();
    let img1 = new_element_with(&mut dom1, "img", vec![("src", "shared.png")]);
    dom1.append_child(doc1, img1).unwrap();
    let mut v1 = AssetMoverVisitor::new(String::new(), "out".to_string(), "a.html".to_string())
        .with_existing(vec!["shared.png".to_string()]);
    traverse(&mut v1, &mut dom1, doc1);
    let first_ref = attr_value(&dom1, img1, "src").unwrap();
    assert_eq!(v1.copy_plan().len(), 1);

    let mut dom2 = Dom::new();
    let doc2 = dom2.get_document();
    let img2 = new_element_with(&mut dom2, "img", vec![("src", "shared.png")]);
    dom2.append_child(doc2, img2).unwrap();
    let mut v2 = AssetMoverVisitor::new(String::new(), "out".to_string(), "b.html".to_string())
        .with_existing(vec!["shared.png".to_string()])
        .with_moved(v1.moved_entries().clone());
    traverse(&mut v2, &mut dom2, doc2);
    let second_ref = attr_value(&dom2, img2, "src").unwrap();
    assert_eq!(first_ref, second_ref);
    assert_eq!(v2.copy_plan().len(), 0);
}

#[test]
fn test_asset_mover_skips_remote_and_unknown() {
    let mut dom = Dom::new();
    let doc = dom.get_document();
    let remote = new_element_with(&mut dom, "img", vec![("src", "http://x/y.jpg")]);
    dom.append_child(doc, remote).unwrap();
    let data = new_element_with(&mut dom, "img", vec![("src", "data:image/png;base64,xx")]);
    dom.append_child(doc, data).unwrap();
    let missing = new_element_with(&mut dom, "img", vec![("src", "gone.jpg")]);
    dom.append_child(doc, missing).unwrap();
    let mut visitor = AssetMoverVisitor::new(
        String::new(),
        "out".to_string(),
        "doc.html".to_string(),
    );
    traverse(&mut visitor, &mut dom, doc);
    assert_eq!(attr_value(&dom, remote, "src").unwrap(), "http://x/y.jpg");
    assert_eq!(attr_value(&dom, data, "src").unwrap(), "data:image/png;base64,xx");
    assert_eq!(attr_value(&dom, missing, "src").unwrap(), "gone.jpg");
    assert_eq!(visitor.copy_plan().len(), 0);
}

#[test]
fn test_replacement_without_continuation_keeps_children_unvisited() {
    // The wrapper pass replaces a root element with a fresh container and
    // declines traversal into it.  Were the replacement re-visited, the
    // element inside it would be wrapped a second time, so a single
    // wrapper around the untouched original shows the continuation flag
    // was honoured.
    let mut dom = Dom::new();
    let doc = dom.get_document();
    let p = new_element(&mut dom, "p");
    dom.append(p, NodeOrText::AppendText("old".to_string())).unwrap();
    dom.append_child(doc, p).unwrap();
    let mut v = RichTextWrapperVisitor::new();
    let result = traverse(&mut v, &mut dom, doc);
    let wrapper = dom.child_at(result, 0);
    let id = attr_value(&dom, wrapper, "id").unwrap();
    let html = dom.to_html_string(wrapper).unwrap();
    assert_eq!(html, format!("<rich-text id=\"{}\"><p>old</p></rich-text>", id));
    assert_eq!(v.content_map().len(), 1);
    assert_eq!(v.content_map().get("old"), None);
    assert_eq!(v.content_map().get(&id).unwrap(), "old");
}

#[test]
fn test_continuation_visits_every_descendant_once() {
    // The collector pass appends each text node it meets to the entry of
    // the identifier most recently seen on an element.  A visit order
    // other than one pre-order pass over every descendant would misfile
    // or duplicate the recorded text.
    let mut dom = Dom::new();
    let doc = dom.get_document();
    let outer = new_element_with(&mut dom, "outer", vec![("id", "first")]);
    let mid = new_element_with(&mut dom, "mid", vec![("id", "second")]);
    let inner = new_element_with(&mut dom, "inner", vec![("id", "third")]);
    dom.append(outer, NodeOrText::AppendText("a".to_string())).unwrap();
    dom.append_child(mid, inner).unwrap();
    dom.append(inner, NodeOrText::AppendText("b".to_string())).unwrap();
    dom.append_child(outer, mid).unwrap();
    dom.append_child(doc, outer).unwrap();
    let mut v = TextCollectorVisitor::new();
    traverse(&mut v, &mut dom, doc);
    assert_eq!(v.text_map().len(), 2);
    assert_eq!(v.text_map().get("first").unwrap(), "a");
    assert_eq!(v.text_map().get("third").unwrap(), "b");
    assert_eq!(v.text_map().get("second"), None);
}
