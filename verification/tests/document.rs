use xiangxue::attrs::attr_get;
use xiangxue::dom::{Document, NodeData, NodeId, NodeKind, DOCUMENT_SENTINEL};
use xiangxue::traversal::{collect_text, topological_order};
use xiangxue::tree_builder::{finalize, NodeOrText};
use xiangxue::LayoutError;

/// The steps the HTML tree builder takes for `<html><head></head><body>`.
fn page() -> (Document, NodeId) {
    let mut d = Document::new();
    let html = d.create_element("html".to_string(), vec![]);
    d.append(DOCUMENT_SENTINEL, NodeOrText::AppendNode(html));
    let head = d.create_element("head".to_string(), vec![]);
    d.append(html, NodeOrText::AppendNode(head));
    let body = d.create_element("body".to_string(), vec![]);
    d.append(html, NodeOrText::AppendNode(body));
    (finalize(d).expect("root"), body)
}

fn el(d: &mut Document, parent: NodeId, tag: &str, attrs: &[(&str, &str)]) -> NodeId {
    let a = attrs.iter().map(|(k, v)| (k.to_string(), v.to_string())).collect();
    let id = d.create_element(tag.to_string(), a);
    d.append(parent, NodeOrText::AppendNode(id));
    id
}

fn element_tag(node: &NodeData) -> &str {
    match &node.kind {
        NodeKind::Element { tag, .. } => tag.as_str(),
        _ => panic!("expected element"),
    }
}

fn element_attr<'a>(node: &'a NodeData, name: &str) -> Option<&'a str> {
    match &node.kind {
        NodeKind::Element { attrs, .. } => attr_get(attrs, name).map(|s| s.as_str()),
        _ => None,
    }
}

fn kind_name(k: &NodeKind) -> &'static str {
    match k {
        NodeKind::Element { .. } => "Element",
        NodeKind::Text(_) => "Text",
        NodeKind::Comment(_) => "Comment",
    }
}

#[test]
fn root_is_html_element() {
    let (doc, _) = page();
    let r = doc.root();
    assert_eq!(element_tag(r), "html");
    assert!(r.parent.is_none());
    assert_eq!(r.children.len(), 2);
    let head = doc.get(r.children[0]).unwrap();
    let body = doc.get(r.children[1]).unwrap();
    assert_eq!(element_tag(head), "head");
    assert_eq!(element_tag(body), "body");
    assert_eq!(head.parent, Some(r.id));
    assert_eq!(body.parent, Some(r.id));
}

#[test]
fn text_node_is_separate_variant() {
    let (mut doc, body) = page();
    let p = el(&mut doc, body, "p", &[]);
    doc.append(p, NodeOrText::AppendText("hello".to_string()));
    let p = doc.get(p).unwrap();
    assert_eq!(element_tag(p), "p");
    assert_eq!(p.children.len(), 1);
    let text = doc.get(p.children[0]).unwrap();
    assert!(matches!(text.kind, NodeKind::Text(ref s) if s == "hello"));
}

#[test]
fn comment_preserved() {
    let (mut doc, body) = page();
    let c = doc.create_comment(" note ".to_string());
    doc.append(body, NodeOrText::AppendNode(c));
    el(&mut doc, body, "div", &[]);
    let body = doc.get(body).unwrap();
    let comment = doc.get(body.children[0]).unwrap();
    assert!(matches!(comment.kind, NodeKind::Comment(ref s) if s.contains("note")));
    let div = doc.get(body.children[1]).unwrap();
    assert_eq!(element_tag(div), "div");
}

#[test]
fn attrs_preserved_in_btreemap_order() {
    let (mut doc, body) = page();
    let div = el(
        &mut doc,
        body,
        "div",
        &[("id", "x"), ("class", "y"), ("data-x-widget", "Button"), ("data-x-name", "okBtn")],
    );
    let div = doc.get(div).unwrap();
    assert_eq!(element_attr(div, "id"), Some("x"));
    assert_eq!(element_attr(div, "class"), Some("y"));
    assert_eq!(element_attr(div, "data-x-widget"), Some("Button"));
    assert_eq!(element_attr(div, "data-x-name"), Some("okBtn"));
    match &div.kind {
        NodeKind::Element { attrs, .. } => {
            let names: Vec<&str> = attrs.iter().map(|a| a.name.as_str()).collect();
            assert_eq!(names, vec!["class", "data-x-name", "data-x-widget", "id"]);
        }
        _ => panic!("not an element"),
    }
}

#[test]
fn parent_pointers_consistent() {
    let (mut doc, body) = page();
    let div = el(&mut doc, body, "div", &[]);
    let span = el(&mut doc, div, "span", &[]);
    el(&mut doc, span, "b", &[]);
    for id in doc.ids() {
        let node = doc.get(id).unwrap();
        if let Some(parent_id) = node.parent {
            let p = doc.get(parent_id).expect("parent must exist");
            assert!(p.children.contains(&id));
        }
    }
    assert!(doc.root().parent.is_none());
}

#[test]
fn nested_structure_with_mixed_content() {
    let (mut doc, body) = page();
    let outer = el(&mut doc, body, "div", &[("data-x-name", "root")]);
    doc.append(outer, NodeOrText::AppendText("\n            ".to_string()));
    let button = el(&mut doc, outer, "div", &[("data-x-widget", "Button")]);
    doc.append(button, NodeOrText::AppendText("Click me".to_string()));
    doc.append(outer, NodeOrText::AppendText("\n            ".to_string()));
    let span = el(&mut doc, outer, "span", &[]);
    doc.append(span, NodeOrText::AppendText("Plain text".to_string()));
    doc.append(outer, NodeOrText::AppendText("\n        ".to_string()));
    let outer_div = doc.get(outer).unwrap();
    assert_eq!(element_attr(outer_div, "data-x-name"), Some("root"));
    let elements: Vec<&NodeData> = outer_div
        .children
        .iter()
        .filter_map(|&c| doc.get(c).filter(|n| matches!(n.kind, NodeKind::Element { .. })))
        .collect();
    assert_eq!(elements.len(), 2);
    assert_eq!(element_tag(elements[0]), "div");
    assert_eq!(element_attr(elements[0], "data-x-widget"), Some("Button"));
    assert_eq!(element_tag(elements[1]), "span");
}

#[test]
fn deep_tree_doesnt_overflow_arena() {
    let (mut doc, body) = page();
    let mut parent = body;
    for _ in 0..200 {
        parent = el(&mut doc, parent, "div", &[]);
    }
    doc.append(parent, NodeOrText::AppendText("leaf".to_string()));
    assert!(doc.len() >= 200);
    assert_eq!(topological_order(&doc).len(), doc.len());
    assert_eq!(collect_text(&doc, doc.root_id()), "leaf");
}

#[test]
fn whitespace_between_elements_becomes_text_nodes() {
    let (mut doc, body) = page();
    el(&mut doc, body, "div", &[]);
    doc.append(body, NodeOrText::AppendText("\n  ".to_string()));
    el(&mut doc, body, "span", &[]);
    let body = doc.get(body).unwrap();
    assert_eq!(body.children.len(), 3);
    let kinds: Vec<&'static str> = body.children.iter().filter_map(|&c| doc.get(c).map(|n| kind_name(&n.kind))).collect();
    assert_eq!(kinds, vec!["Element", "Text", "Element"]);
}

// ── tree operations ──

#[test]
fn adjacent_text_merges() {
    let (mut doc, body) = page();
    doc.append(body, NodeOrText::AppendText("a".to_string()));
    doc.append(body, NodeOrText::AppendText("b".to_string()));
    let b = doc.get(body).unwrap();
    assert_eq!(b.children.len(), 1);
    assert!(matches!(doc.get(b.children[0]).unwrap().kind, NodeKind::Text(ref s) if s == "ab"));
}

#[test]
fn insert_before_and_text_merge_backwards() {
    let (mut doc, body) = page();
    let first = el(&mut doc, body, "i", &[]);
    let second = el(&mut doc, body, "b", &[]);
    let moved = doc.create_element("u".to_string(), vec![]);
    doc.append_before_sibling(second, NodeOrText::AppendNode(moved));
    assert_eq!(doc.get(body).unwrap().children, vec![first, moved, second]);
    doc.append_before_sibling(first, NodeOrText::AppendText("x".to_string()));
    doc.append_before_sibling(first, NodeOrText::AppendText("y".to_string()));
    let kids = doc.get(body).unwrap().children.clone();
    assert_eq!(kids.len(), 4);
    assert!(matches!(doc.get(kids[0]).unwrap().kind, NodeKind::Text(ref s) if s == "xy"));
    assert_eq!(doc.previous_sibling(first), Some(kids[0]));
    assert_eq!(doc.previous_sibling(kids[0]), None);
}

#[test]
fn remove_and_reparent() {
    let (mut doc, body) = page();
    let a = el(&mut doc, body, "div", &[]);
    let x = el(&mut doc, a, "span", &[]);
    let y = el(&mut doc, a, "span", &[]);
    let b = el(&mut doc, body, "section", &[]);
    doc.reparent_children(a, b);
    assert!(doc.get(a).unwrap().children.is_empty());
    assert_eq!(doc.get(b).unwrap().children, vec![x, y]);
    assert_eq!(doc.get(x).unwrap().parent, Some(b));
    doc.remove_node(x);
    assert_eq!(doc.get(b).unwrap().children, vec![y]);
    assert_eq!(doc.get(x).unwrap().parent, None);
}

#[test]
fn attributes_added_only_when_missing() {
    let (mut doc, body) = page();
    let div = el(&mut doc, body, "div", &[("id", "keep")]);
    doc.add_attrs_if_missing(div, vec![("id".to_string(), "other".to_string()), ("lang".to_string(), "en".to_string())]);
    let n = doc.get(div).unwrap();
    assert_eq!(element_attr(n, "id"), Some("keep"));
    assert_eq!(element_attr(n, "lang"), Some("en"));
}

#[test]
fn later_duplicate_attribute_wins_on_creation() {
    let mut doc = Document::new();
    let id = doc.create_element("p".to_string(), vec![("k".to_string(), "1".to_string()), ("k".to_string(), "2".to_string())]);
    assert_eq!(element_attr(doc.get(id).unwrap(), "k"), Some("2"));
}

#[test]
fn top_level_text_is_dropped_and_parent_based_append() {
    let mut doc = Document::new();
    doc.append(DOCUMENT_SENTINEL, NodeOrText::AppendText("  ".to_string()));
    assert!(doc.is_empty());
    let table = doc.create_element("table".to_string(), vec![]);
    let prev = doc.create_element("div".to_string(), vec![]);
    // A detached element: the node goes under `prev`.
    let moved = doc.create_element("p".to_string(), vec![]);
    doc.append_based_on_parent_node(table, prev, NodeOrText::AppendNode(moved));
    assert_eq!(doc.get(moved).unwrap().parent, Some(prev));
}

#[test]
fn no_element_is_a_parse_error() {
    let mut doc = Document::new();
    let c = doc.create_comment("only".to_string());
    doc.append(DOCUMENT_SENTINEL, NodeOrText::AppendNode(c));
    match finalize(doc) {
        Err(e @ LayoutError::HtmlParse(_)) => assert_eq!(e.message(), "html parse error: no root element found"),
        _ => panic!("expected an html parse error"),
    }
}

#[test]
fn document_order_lists_parents_first() {
    let (mut doc, body) = page();
    let div = el(&mut doc, body, "div", &[]);
    let span = el(&mut doc, div, "span", &[]);
    let p = el(&mut doc, body, "p", &[]);
    let order = topological_order(&doc);
    let pos = |x: NodeId| order.iter().position(|&y| y == x).unwrap();
    assert_eq!(order[0], doc.root_id());
    assert!(pos(body) < pos(div));
    assert!(pos(div) < pos(span));
    assert!(pos(span) < pos(p));
}

#[test]
fn first_of_duplicate_new_attributes_is_kept() {
    let (mut doc, body) = page();
    let div = el(&mut doc, body, "div", &[]);
    doc.add_attrs_if_missing(div, vec![("k".to_string(), "1".to_string()), ("k".to_string(), "2".to_string())]);
    assert_eq!(element_attr(doc.get(div).unwrap(), "k"), Some("1"));
}

#[test]
fn reparenting_onto_itself_keeps_the_order() {
    let (mut doc, body) = page();
    let a = el(&mut doc, body, "div", &[]);
    let x = el(&mut doc, a, "span", &[]);
    let y = el(&mut doc, a, "b", &[]);
    let z = el(&mut doc, a, "i", &[]);
    doc.reparent_children(a, a);
    assert_eq!(doc.get(a).unwrap().children, vec![x, y, z]);
    assert_eq!(doc.get(y).unwrap().parent, Some(a));
}

#[test]
fn parent_based_append_goes_before_an_attached_element() {
    let (mut doc, body) = page();
    let first = el(&mut doc, body, "p", &[]);
    let table = el(&mut doc, body, "table", &[]);
    let prev = doc.create_element("div".to_string(), vec![]);
    doc.append_based_on_parent_node(table, prev, NodeOrText::AppendText("t".to_string()));
    let kids = doc.get(body).unwrap().children.clone();
    assert_eq!(kids.len(), 3);
    assert_eq!(kids[0], first);
    assert!(matches!(doc.get(kids[1]).unwrap().kind, NodeKind::Text(ref s) if s == "t"));
    assert_eq!(kids[2], table);
    assert!(doc.get(prev).unwrap().children.is_empty());
}

#[test]
fn document_order_lists_every_tree_node_once() {
    let (mut doc, body) = page();
    let div = el(&mut doc, body, "div", &[]);
    el(&mut doc, div, "span", &[]);
    doc.append(div, NodeOrText::AppendText("t".to_string()));
    el(&mut doc, body, "p", &[]);
    let order = topological_order(&doc);
    assert_eq!(order.len(), doc.len());
    let mut sorted = order.clone();
    sorted.sort();
    sorted.dedup();
    assert_eq!(sorted.len(), order.len());
}

#[test]
fn child_iteration_and_indexing() {
    let (mut doc, body) = page();
    let a = el(&mut doc, body, "a", &[]);
    let b = el(&mut doc, body, "b", &[]);
    assert_eq!(doc.child_count(body), 2);
    assert_eq!(doc.get_child_id(body, 1), b);
    let mut it = doc.child_ids(body);
    assert_eq!(it.next(), Some(a));
    assert_eq!(it.next(), Some(b));
    assert_eq!(it.next(), None);
    assert_eq!(it.next(), None);
    assert_eq!(doc.child_count(usize::MAX - 1), 0);
    assert_eq!(doc.child_ids(usize::MAX - 1).next(), None);
}

#[test]
fn get_mut_updates_one_node() {
    let (mut doc, body) = page();
    doc.append(body, NodeOrText::AppendText("a".to_string()));
    let t = doc.get(body).unwrap().children[0];
    if let Some(n) = doc.get_mut(t) {
        n.kind = NodeKind::Text("b".to_string());
    }
    assert!(matches!(doc.get(t).unwrap().kind, NodeKind::Text(ref s) if s == "b"));
    assert!(doc.get_mut(usize::MAX - 1).is_none());
}

#[test]
fn insert_before_a_detached_sibling_changes_nothing() {
    let mut doc = Document::new();
    let lone = doc.create_element("p".to_string(), vec![]);
    let other = doc.create_element("b".to_string(), vec![]);
    doc.insert_before(lone, other);
    assert_eq!(doc.get(other).unwrap().parent, None);
    assert!(doc.get(lone).unwrap().children.is_empty());
    doc.append_before_sibling(lone, NodeOrText::AppendText("t".to_string()));
    assert_eq!(doc.len(), 3);
    assert!(doc.get(lone).unwrap().children.is_empty());
}
