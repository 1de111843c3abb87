use xiangxue::attrs::attr_get;
use xiangxue::dom::{Document, NodeId, DOCUMENT_SENTINEL};
use xiangxue::tree_builder::{finalize, NodeOrText};
use xiangxue::widget::{
    classify_element, document_to_ui, extract_name, format_tree, format_widget, has_overflow_scroll,
    is_container_widget, is_leaf_widget, parse_data_widget, parse_flex_direction, style_declarations,
    Orientation, UiNode, WidgetKind,
};

/// A document shaped as the HTML parser builds it: `html` holding `head`
/// and `body`. Returns the document, the `head` and the `body`.
fn page() -> (Document, NodeId, NodeId) {
    let mut d = Document::new();
    let html = d.create_element("html".to_string(), vec![]);
    d.append(DOCUMENT_SENTINEL, NodeOrText::AppendNode(html));
    let head = d.create_element("head".to_string(), vec![]);
    d.append(html, NodeOrText::AppendNode(head));
    let body = d.create_element("body".to_string(), vec![]);
    d.append(html, NodeOrText::AppendNode(body));
    (d, head, body)
}

fn el(d: &mut Document, parent: NodeId, tag: &str, attrs: &[(&str, &str)]) -> NodeId {
    let a = attrs.iter().map(|(k, v)| (k.to_string(), v.to_string())).collect();
    let id = d.create_element(tag.to_string(), a);
    d.append(parent, NodeOrText::AppendNode(id));
    id
}

fn text(d: &mut Document, parent: NodeId, s: &str) {
    d.append(parent, NodeOrText::AppendText(s.to_string()));
}

fn tree(d: Document) -> UiNode {
    let d = finalize(d).expect("root element");
    document_to_ui(&d)
}

fn attr<'a>(n: &'a UiNode, name: &str) -> Option<&'a str> {
    attr_get(&n.attrs, name).map(|s| s.as_str())
}

// ── converter scenarios ──

#[test]
fn bare_button_becomes_layout() {
    let (mut d, _, body) = page();
    let b = el(&mut d, body, "button", &[("id", "ok")]);
    text(&mut d, b, "OK");
    let t = tree(d);
    assert_eq!(t.widget, WidgetKind::Layout(Orientation::Vertical));
    assert_eq!(t.name, "ok");
}

#[test]
fn data_widget_button() {
    let (mut d, _, body) = page();
    let b = el(&mut d, body, "div", &[("data-widget", "Button"), ("id", "ok")]);
    text(&mut d, b, "OK");
    let t = tree(d);
    assert_eq!(t.widget, WidgetKind::Button);
    assert_eq!(t.name, "ok");
    assert_eq!(attr(&t, "text"), Some("OK"));
}

#[test]
fn div_defaults_to_vertical_layout() {
    let (mut d, _, body) = page();
    let div = el(&mut d, body, "div", &[("data-name", "root")]);
    let p = el(&mut d, div, "p", &[]);
    text(&mut d, p, "hello");
    let t = tree(d);
    assert_eq!(t.widget, WidgetKind::Layout(Orientation::Vertical));
    assert_eq!(t.name, "root");
}

#[test]
fn flex_row_becomes_horizontal() {
    let (mut d, _, body) = page();
    let div = el(&mut d, body, "div", &[("style", "display:flex;flex-direction:row")]);
    let a = el(&mut d, div, "p", &[]);
    text(&mut d, a, "a");
    let b = el(&mut d, div, "p", &[]);
    text(&mut d, b, "b");
    let t = tree(d);
    assert_eq!(t.widget, WidgetKind::Layout(Orientation::Horizontal));
}

#[test]
fn overflow_scroll_becomes_scrollview() {
    let (mut d, _, body) = page();
    let div = el(&mut d, body, "div", &[("style", "overflow:scroll")]);
    let p = el(&mut d, div, "p", &[]);
    text(&mut d, p, "a");
    let t = tree(d);
    assert_eq!(t.widget, WidgetKind::ScrollView);
}

#[test]
fn img_element() {
    let (mut d, _, body) = page();
    el(&mut d, body, "img", &[("data-name", "icon"), ("src", "a.png")]);
    let t = tree(d);
    assert_eq!(t.widget, WidgetKind::Image);
    assert_eq!(t.name, "icon");
    assert_eq!(attr(&t, "src"), Some("a.png"));
}

#[test]
fn name_from_class() {
    let (mut d, _, body) = page();
    let div = el(&mut d, body, "div", &[("class", "sidebar main")]);
    let p = el(&mut d, div, "p", &[]);
    text(&mut d, p, "x");
    let t = tree(d);
    assert_eq!(t.name, "sidebar");
}

#[test]
fn text_tags() {
    for tag in &["span", "p", "label", "h1", "h2", "h3"] {
        let (mut d, _, body) = page();
        let e = el(&mut d, body, tag, &[]);
        text(&mut d, e, "hello");
        let t = tree(d);
        assert_eq!(t.widget, WidgetKind::Text, "tag {tag} should be Text");
    }
}

#[test]
fn bare_list_becomes_layout() {
    let (mut d, _, body) = page();
    let ul = el(&mut d, body, "ul", &[]);
    let a = el(&mut d, ul, "li", &[]);
    text(&mut d, a, "A");
    let b = el(&mut d, ul, "li", &[]);
    text(&mut d, b, "B");
    let t = tree(d);
    assert_eq!(t.widget, WidgetKind::Layout(Orientation::Vertical));
    assert_eq!(t.children.len(), 2);
}

#[test]
fn data_widget_listview() {
    let (mut d, _, body) = page();
    let div = el(&mut d, body, "div", &[("data-widget", "ListView")]);
    let a = el(&mut d, div, "li", &[]);
    text(&mut d, a, "A");
    let b = el(&mut d, div, "li", &[]);
    text(&mut d, b, "B");
    let t = tree(d);
    assert_eq!(t.widget, WidgetKind::ListView);
    assert_eq!(t.children.len(), 2);
}

#[test]
fn bare_input_becomes_layout() {
    let (mut d, _, body) = page();
    el(&mut d, body, "input", &[("placeholder", "type here")]);
    let t = tree(d);
    assert_eq!(t.widget, WidgetKind::Layout(Orientation::Vertical));
    assert_eq!(attr(&t, "placeholder"), Some("type here"));
}

#[test]
fn bare_checkbox_becomes_layout() {
    let (mut d, _, body) = page();
    el(&mut d, body, "input", &[("type", "checkbox"), ("data-name", "toggle")]);
    let t = tree(d);
    assert_eq!(t.widget, WidgetKind::Layout(Orientation::Vertical));
    assert_eq!(t.name, "toggle");
}

#[test]
fn bare_range_becomes_layout() {
    let (mut d, _, body) = page();
    el(&mut d, body, "input", &[("type", "range"), ("data-name", "vol")]);
    let t = tree(d);
    assert_eq!(t.widget, WidgetKind::Layout(Orientation::Vertical));
}

#[test]
fn bare_progress_becomes_layout() {
    let (mut d, _, body) = page();
    el(&mut d, body, "progress", &[("data-name", "hp")]);
    let t = tree(d);
    assert_eq!(t.widget, WidgetKind::Layout(Orientation::Vertical));
    assert_eq!(t.name, "hp");
}

#[test]
fn data_widget_controls() {
    let cases = vec![
        ("TextField", WidgetKind::TextField),
        ("CheckBox", WidgetKind::CheckBox),
        ("Slider", WidgetKind::Slider),
        ("ProgressBar", WidgetKind::ProgressBar),
    ];
    for (widget_name, expected) in cases {
        let (mut d, _, body) = page();
        el(&mut d, body, "div", &[("data-widget", widget_name), ("data-name", "test")]);
        let t = tree(d);
        assert_eq!(t.widget, expected, "data-widget={widget_name}");
    }
}

#[test]
fn data_widget_pageview() {
    let (mut d, _, body) = page();
    el(&mut d, body, "div", &[("data-widget", "PageView"), ("data-name", "pages")]);
    let t = tree(d);
    assert_eq!(t.widget, WidgetKind::Unknown("PageView".to_string()));
    assert_eq!(t.name, "pages");
}

#[test]
fn data_widget_overrides_tag() {
    let (mut d, _, body) = page();
    let div = el(&mut d, body, "div", &[("data-widget", "Button"), ("data-name", "btn")]);
    text(&mut d, div, "Click");
    let t = tree(d);
    assert_eq!(t.widget, WidgetKind::Button);
    assert_eq!(t.name, "btn");
}

#[test]
fn data_widget_checkbox() {
    let (mut d, _, body) = page();
    let s = el(&mut d, body, "span", &[("data-widget", "CheckBox"), ("data-name", "cb")]);
    text(&mut d, s, "x");
    let t = tree(d);
    assert_eq!(t.widget, WidgetKind::CheckBox);
}

#[test]
fn bare_text_in_container() {
    let (mut d, _, body) = page();
    let div = el(&mut d, body, "div", &[("data-name", "box")]);
    text(&mut d, div, "Hello world");
    let t = tree(d);
    assert_eq!(t.widget, WidgetKind::Layout(Orientation::Vertical));
    assert_eq!(t.children.len(), 1);
    assert_eq!(t.children[0].widget, WidgetKind::Text);
    assert_eq!(attr(&t.children[0], "text"), Some("Hello world"));
}

#[test]
fn skips_script_and_style() {
    let (mut d, _, body) = page();
    let div = el(&mut d, body, "div", &[("data-name", "root")]);
    let script = el(&mut d, div, "script", &[]);
    text(&mut d, script, "alert(1)");
    let style = el(&mut d, div, "style", &[]);
    text(&mut d, style, "body{}");
    let p = el(&mut d, div, "p", &[]);
    text(&mut d, p, "hi");
    let t = tree(d);
    assert_eq!(t.children.len(), 1);
    assert_eq!(t.children[0].widget, WidgetKind::Text);
}

#[test]
fn full_document_with_head() {
    let (mut d, head, body) = page();
    let title = el(&mut d, head, "title", &[]);
    text(&mut d, title, "T");
    let main = el(&mut d, body, "div", &[("data-name", "main")]);
    let go = el(&mut d, main, "div", &[("data-widget", "Button")]);
    text(&mut d, go, "Go");
    let t = tree(d);
    assert_eq!(t.name, "main");
    assert_eq!(t.children.len(), 1);
    assert_eq!(t.children[0].widget, WidgetKind::Button);
}

#[test]
fn full_page_structure() {
    let (mut d, head, body) = page();
    let title = el(&mut d, head, "title", &[]);
    text(&mut d, title, "Test");
    text(&mut d, body, "\n        ");
    let root = el(&mut d, body, "div", &[("data-name", "root"), ("style", "display:flex;flex-direction:column")]);
    text(&mut d, root, "\n            ");
    let header = el(&mut d, root, "div", &[("data-name", "header"), ("style", "display:flex;flex-direction:row")]);
    text(&mut d, header, "\n                ");
    let h1 = el(&mut d, header, "h1", &[("id", "title")]);
    text(&mut d, h1, "Title");
    text(&mut d, header, "\n                ");
    let close = el(&mut d, header, "div", &[("data-widget", "Button"), ("id", "close_btn")]);
    text(&mut d, close, "X");
    text(&mut d, header, "\n            ");
    text(&mut d, root, "\n            ");
    let bdiv = el(&mut d, root, "div", &[("data-name", "body"), ("style", "overflow:scroll")]);
    let p = el(&mut d, bdiv, "p", &[("data-name", "content")]);
    text(&mut d, p, "Hello");
    text(&mut d, root, "\n        ");
    text(&mut d, body, "\n    \n    ");
    let t = tree(d);
    assert_eq!(t.name, "root");
    assert_eq!(t.widget, WidgetKind::Layout(Orientation::Vertical));
    assert_eq!(t.children.len(), 2);
    let header = &t.children[0];
    assert_eq!(header.name, "header");
    assert_eq!(header.widget, WidgetKind::Layout(Orientation::Horizontal));
    assert_eq!(header.children.len(), 2);
    let title = &header.children[0];
    assert_eq!(title.name, "title");
    assert_eq!(title.widget, WidgetKind::Text);
    let close_btn = &header.children[1];
    assert_eq!(close_btn.name, "close_btn");
    assert_eq!(close_btn.widget, WidgetKind::Button);
    let body = &t.children[1];
    assert_eq!(body.name, "body");
    assert_eq!(body.widget, WidgetKind::ScrollView);
}

#[test]
fn format_tree_output() {
    let (mut d, _, body) = page();
    let root = el(&mut d, body, "div", &[("data-name", "root"), ("style", "display:flex;flex-direction:column")]);
    text(&mut d, root, "\n        ");
    let ok = el(&mut d, root, "div", &[("data-widget", "Button"), ("id", "ok")]);
    text(&mut d, ok, "OK");
    text(&mut d, root, "\n        ");
    el(&mut d, root, "img", &[("data-name", "icon"), ("src", "a.png")]);
    text(&mut d, root, "\n    ");
    let t = tree(d);
    let output = format_tree(&t);
    assert!(output.contains("root: Layout(Vertical)"));
    assert!(output.contains("  ok: Button {text: \"OK\"}"));
    assert!(output.contains("  icon: Image"));
}

#[test]
fn mixed_content_container() {
    let (mut d, _, body) = page();
    let b = el(&mut d, body, "div", &[("data-name", "box")]);
    text(&mut d, b, "Some text");
    let btn = el(&mut d, b, "div", &[("data-widget", "Button")]);
    text(&mut d, btn, "Click");
    text(&mut d, b, "More text");
    let t = tree(d);
    assert_eq!(t.name, "box");
    assert_eq!(t.children.len(), 3);
    assert_eq!(t.children[0].widget, WidgetKind::Text);
    assert_eq!(t.children[1].widget, WidgetKind::Button);
    assert_eq!(t.children[2].widget, WidgetKind::Text);
}

#[test]
fn semantic_tags_as_containers() {
    for tag in &["section", "header", "footer", "nav", "aside", "article", "main"] {
        let (mut d, _, body) = page();
        let c = el(&mut d, body, tag, &[("data-name", "c")]);
        let p = el(&mut d, c, "p", &[]);
        text(&mut d, p, "x");
        let t = tree(d);
        assert_eq!(t.widget, WidgetKind::Layout(Orientation::Vertical), "{tag} should be Layout(Vertical)");
    }
}

#[test]
fn data_star_attributes_collected() {
    let (mut d, _, body) = page();
    let div = el(
        &mut d,
        body,
        "div",
        &[
            ("data-widget", "ProgressBar"),
            ("data-name", "hpBar"),
            ("data-value", "850"),
            ("data-max", "1060"),
            ("style", "width:200px;height:20px"),
        ],
    );
    text(&mut d, div, "\n    ");
    let t = tree(d);
    assert_eq!(t.name, "hpBar");
    assert_eq!(t.widget, WidgetKind::ProgressBar);
    assert_eq!(attr(&t, "data-value"), Some("850"));
    assert_eq!(attr(&t, "data-max"), Some("1060"));
}

#[test]
fn data_widget_with_arbitrary_data_attrs() {
    let (mut d, _, body) = page();
    let div = el(
        &mut d,
        body,
        "div",
        &[
            ("data-widget", "Slider"),
            ("data-name", "volSlider"),
            ("data-min", "0"),
            ("data-max", "100"),
            ("data-step", "5"),
            ("style", "width:300px;height:30px"),
        ],
    );
    text(&mut d, div, "\n    ");
    let t = tree(d);
    assert_eq!(t.widget, WidgetKind::Slider);
    assert_eq!(attr(&t, "data-min"), Some("0"));
    assert_eq!(attr(&t, "data-max"), Some("100"));
    assert_eq!(attr(&t, "data-step"), Some("5"));
}

// ── functions on their own ──

#[test]
fn data_widget_names() {
    assert_eq!(parse_data_widget("Panel"), WidgetKind::Layout(Orientation::Vertical));
    assert_eq!(parse_data_widget("HLayout"), WidgetKind::Layout(Orientation::Horizontal));
    assert_eq!(parse_data_widget("Label"), WidgetKind::Text);
    assert_eq!(parse_data_widget("LoadingBar"), WidgetKind::ProgressBar);
    assert_eq!(parse_data_widget("ImageView"), WidgetKind::Image);
    assert_eq!(parse_data_widget("Sprite"), WidgetKind::Unknown("Sprite".to_string()));
    assert_eq!(parse_data_widget("button"), WidgetKind::Unknown("button".to_string()));
}

#[test]
fn leaf_and_container_kinds() {
    assert!(is_leaf_widget(&WidgetKind::Button));
    assert!(is_leaf_widget(&WidgetKind::TextField));
    assert!(is_leaf_widget(&WidgetKind::Unknown("Sprite".to_string())));
    assert!(!is_leaf_widget(&WidgetKind::Unknown("PageView".to_string())));
    assert!(!is_leaf_widget(&WidgetKind::Image));
    assert!(is_container_widget(&WidgetKind::ListView));
    assert!(is_container_widget(&WidgetKind::Layout(Orientation::Horizontal)));
    assert!(!is_container_widget(&WidgetKind::Image));
    assert_eq!(format_widget(&WidgetKind::Layout(Orientation::Horizontal)), "Layout(Horizontal)");
    assert_eq!(format_widget(&WidgetKind::Unknown("X".to_string())), "Unknown");
}

#[test]
fn inline_style_pieces() {
    let ds = style_declarations(" display : flex ;; flex-direction:row; junk ;color: red");
    let pairs: Vec<(&str, &str)> = ds.iter().map(|(n, v)| (n.as_str(), v.as_str())).collect();
    assert_eq!(pairs, vec![("display", "flex"), ("flex-direction", "row"), ("color", "red")]);
    assert!(has_overflow_scroll("OVERFLOW-Y: Scroll"));
    assert!(!has_overflow_scroll("overflow: hidden"));
    assert_eq!(parse_flex_direction("flex-direction: column; flex-direction: bogus"), Some(Orientation::Vertical));
    assert_eq!(parse_flex_direction("flex-direction: row-reverse"), Some(Orientation::Horizontal));
    assert_eq!(parse_flex_direction("display: flex"), None);
}

#[test]
fn classify_by_tag_and_style() {
    assert_eq!(classify_element("li", ""), WidgetKind::Layout(Orientation::Vertical));
    assert_eq!(classify_element("img", "overflow: scroll"), WidgetKind::Image);
    assert_eq!(classify_element("nav", "overflow: scroll"), WidgetKind::ScrollView);
    assert_eq!(classify_element("canvas", ""), WidgetKind::Unknown("canvas".to_string()));
}

#[test]
fn names_fall_back_in_order() {
    let attrs = xiangxue::attrs::attrs_from_pairs(vec![
        ("id".to_string(), "the-id".to_string()),
        ("data-name".to_string(), "".to_string()),
        ("class".to_string(), "  first second".to_string()),
    ]);
    assert_eq!(extract_name("div", &attrs), "the-id");
    let attrs = xiangxue::attrs::attrs_from_pairs(vec![("class".to_string(), " \t ".to_string())]);
    assert_eq!(extract_name("section", &attrs), "section");
}

#[test]
fn internal_wrappers_kept_only_with_widgets() {
    let (mut d, _, body) = page();
    let root = el(&mut d, body, "div", &[("data-name", "root")]);
    let wrap = el(&mut d, root, "div", &[("data-x-internal", "")]);
    el(&mut d, wrap, "div", &[("data-widget", "Button"), ("data-name", "b")]);
    let leaf = el(&mut d, root, "span", &[("data-x-internal", "")]);
    text(&mut d, leaf, "dropped");
    let t = tree(d);
    assert_eq!(t.children.len(), 1);
    assert_eq!(t.children[0].children.len(), 1);
    assert_eq!(t.children[0].children[0].name, "b");
}

#[test]
fn empty_body_gives_root_layout() {
    let (d, _, _) = page();
    let t = tree(d);
    assert_eq!(t.name, "root");
    assert_eq!(t.widget, WidgetKind::Layout(Orientation::Vertical));
    assert!(t.children.is_empty());
    assert_eq!(format_tree(&t), "root: Layout(Vertical)\n");
}

#[test]
fn upper_case_tags_are_classified_lower_cased() {
    let (mut d, _, body) = page();
    let s = el(&mut d, body, "SPAN", &[]);
    text(&mut d, s, "hi");
    let t = tree(d);
    assert_eq!(t.widget, WidgetKind::Text);
    assert_eq!(t.name, "span");
}

#[test]
fn listed_text_is_escaped() {
    let (mut d, _, body) = page();
    let b = el(&mut d, body, "div", &[("data-widget", "Button"), ("id", "q")]);
    text(&mut d, b, "say \"hi\"");
    let t = tree(d);
    let output = format_tree(&t);
    assert_eq!(output, "q: Button {text: \"say \\\"hi\\\"\"}\n");
}
