use xiangxue::cascade::{
    apply_property, capped_selector_count, compile_sheets, computed_color_eq, css_sources, inherit_from,
    inline_styles, replay_steps, run, run_checked, AtRuleKind, CascadeResult, Declaration, ReplayStep, RuleToken,
    SelectorSource,
};
use xiangxue::metric::{MetricValue, TransformKind};
use xiangxue::property::{color_declaration, font_family_declaration, unlisted_declaration, ColorResolution};
use xiangxue::css_values::{DisplayInside, DisplayOutside, DisplayValue, FontStyleValue, FontWeightValue, PositionValue};
use xiangxue::dom::{Document, NodeId, NodeKind, DOCUMENT_SENTINEL};
use xiangxue::selectors::{CombinatorKind, SelectorToken};
use xiangxue::style::{Color, ComputedStyle, Display, Position};
use xiangxue::tree_builder::{finalize, NodeOrText};
use xiangxue::{FontStyle, FontWeight, LayoutError};

const RED: Color = Color::Rgba(255, 0, 0, 255);
const GREEN: Color = Color::Rgba(0, 128, 0, 255);
const BLUE: Color = Color::Rgba(0, 0, 255, 255);
const BLACK: Color = Color::Rgba(0, 0, 0, 255);

fn page() -> (Document, NodeId) {
    let mut d = Document::new();
    let html = d.create_element("html".to_string(), vec![]);
    d.append(DOCUMENT_SENTINEL, NodeOrText::AppendNode(html));
    let head = d.create_element("head".to_string(), vec![]);
    d.append(html, NodeOrText::AppendNode(head));
    let body = d.create_element("body".to_string(), vec![]);
    d.append(html, NodeOrText::AppendNode(body));
    (finalize(d).expect("root"), body)
}

fn el(d: &mut Document, parent: NodeId, tag: &str, attrs: &[(&str, &str)]) -> NodeId {
    let a = attrs.iter().map(|(k, v)| (k.to_string(), v.to_string())).collect();
    let id = d.create_element(tag.to_string(), a);
    d.append(parent, NodeOrText::AppendNode(id));
    id
}

/// Specificity packed as the selector parser packs it.
fn spec(ids: u32, classes: u32, types: u32) -> u32 {
    (ids << 20) | (classes << 10) | types
}

fn tag(t: &str) -> SelectorToken {
    SelectorToken::LocalName(t.to_string())
}

fn class(c: &str) -> SelectorToken {
    SelectorToken::Class(c.to_string())
}

fn id(i: &str) -> SelectorToken {
    SelectorToken::Id(i.to_string())
}

fn rule(selectors: Vec<(Vec<SelectorToken>, u32)>, normal: Vec<Declaration>, block: usize) -> RuleToken {
    RuleToken::Style {
        selectors: selectors.into_iter().map(|(tokens, specificity)| SelectorSource { tokens, specificity }).collect(),
        normal,
        important: vec![],
        block,
    }
}

fn cascade(doc: &mut Document, rules: Vec<RuleToken>) -> Result<CascadeResult, LayoutError> {
    let inline = parse_inline(doc);
    run(doc, &vec![Ok(rules)], &inline)
}

/// Inline `style="color: red"` style attributes, mapped the way the CSS
/// parser maps them (only `color: <red|blue>` occurs in these tests).
fn parse_inline(doc: &Document) -> Vec<(NodeId, Vec<Declaration>, Vec<Declaration>)> {
    inline_styles(doc)
        .into_iter()
        .map(|(id, s)| {
            let d = match s.as_str() {
                "color: red" => vec![Declaration::Color(RED)],
                "color: blue" => vec![Declaration::Color(BLUE)],
                other => panic!("unexpected inline style {other}"),
            };
            (id, d, vec![])
        })
        .collect()
}

fn computed(doc: &Document, id: NodeId) -> &ComputedStyle {
    match &doc.get(id).expect("node").kind {
        NodeKind::Element { computed, .. } => computed,
        _ => panic!("not an element"),
    }
}

fn rules_applied(res: &CascadeResult, node: NodeId) -> Vec<usize> {
    res.elements.iter().find(|e| e.node == node).map(|e| e.rules.clone()).unwrap_or_default()
}

// ── selector matching ──

#[test]
fn type_selector_matches() {
    let (mut doc, body) = page();
    let span = el(&mut doc, body, "span", &[]);
    el(&mut doc, body, "span", &[]);
    cascade(&mut doc, vec![rule(vec![(vec![tag("span")], spec(0, 0, 1))], vec![Declaration::Color(RED)], 0)])
        .expect("cascade succeeds");
    assert_eq!(computed(&doc, span).color, Color::Rgba(255, 0, 0, 255));
}

#[test]
fn class_selector_matches() {
    let (mut doc, body) = page();
    let a = el(&mut doc, body, "div", &[("class", "a")]);
    let b = el(&mut doc, body, "div", &[("class", "b")]);
    cascade(&mut doc, vec![rule(vec![(vec![class("a")], spec(0, 1, 0))], vec![Declaration::Color(BLUE)], 0)])
        .expect("cascade succeeds");
    assert_eq!(computed(&doc, a).color, Color::Rgba(0, 0, 255, 255));
    assert_eq!(computed(&doc, b).color, Color::Rgba(0, 0, 0, 255));
}

#[test]
fn id_selector_matches() {
    let (mut doc, body) = page();
    let x = el(&mut doc, body, "div", &[("id", "x")]);
    cascade(&mut doc, vec![rule(vec![(vec![id("x")], spec(1, 0, 0))], vec![Declaration::Color(GREEN)], 0)])
        .expect("cascade succeeds");
    assert_eq!(computed(&doc, x).color, Color::Rgba(0, 128, 0, 255));
}

#[test]
fn higher_specificity_wins() {
    let (mut doc, body) = page();
    let x = el(&mut doc, body, "div", &[("id", "x"), ("class", "c")]);
    cascade(
        &mut doc,
        vec![
            rule(vec![(vec![tag("div")], spec(0, 0, 1))], vec![Declaration::Color(RED)], 0),
            rule(vec![(vec![class("c")], spec(0, 1, 0))], vec![Declaration::Color(GREEN)], 1),
            rule(vec![(vec![id("x")], spec(1, 0, 0))], vec![Declaration::Color(BLUE)], 2),
        ],
    )
    .expect("cascade succeeds");
    assert_eq!(computed(&doc, x).color, Color::Rgba(0, 0, 255, 255));
}

#[test]
fn equal_specificity_later_wins() {
    let (mut doc, body) = page();
    let div = el(&mut doc, body, "div", &[("class", "c")]);
    cascade(
        &mut doc,
        vec![
            rule(vec![(vec![class("c")], spec(0, 1, 0))], vec![Declaration::Color(RED)], 0),
            rule(vec![(vec![class("c")], spec(0, 1, 0))], vec![Declaration::Color(GREEN)], 1),
        ],
    )
    .expect("cascade succeeds");
    assert_eq!(computed(&doc, div).color, Color::Rgba(0, 128, 0, 255));
}

#[test]
fn inline_style_overrides_external() {
    let (mut doc, body) = page();
    let x = el(&mut doc, body, "div", &[("id", "x"), ("style", "color: red")]);
    cascade(&mut doc, vec![rule(vec![(vec![id("x")], spec(1, 0, 0))], vec![Declaration::Color(BLUE)], 0)])
        .expect("cascade succeeds");
    assert_eq!(computed(&doc, x).color, Color::Rgba(255, 0, 0, 255));
}

#[test]
fn color_inherits_from_parent() {
    let (mut doc, body) = page();
    let div = el(&mut doc, body, "div", &[]);
    let span = el(&mut doc, div, "span", &[]);
    cascade(&mut doc, vec![rule(vec![(vec![tag("div")], spec(0, 0, 1))], vec![Declaration::Color(RED)], 0)])
        .expect("cascade succeeds");
    assert_eq!(computed(&doc, span).color, Color::Rgba(255, 0, 0, 255));
}

#[test]
fn child_overrides_inherit() {
    let (mut doc, body) = page();
    let div = el(&mut doc, body, "div", &[]);
    let span = el(&mut doc, div, "span", &[]);
    cascade(
        &mut doc,
        vec![
            rule(vec![(vec![tag("div")], spec(0, 0, 1))], vec![Declaration::Color(RED)], 0),
            rule(vec![(vec![tag("span")], spec(0, 0, 1))], vec![Declaration::Color(BLUE)], 1),
        ],
    )
    .expect("cascade succeeds");
    assert_eq!(computed(&doc, span).color, Color::Rgba(0, 0, 255, 255));
}

#[test]
fn display_flex() {
    let (mut doc, body) = page();
    let x = el(&mut doc, body, "div", &[("id", "x")]);
    let flex = DisplayValue::Pair { outside: DisplayOutside::Block, inside: DisplayInside::Flex, is_list_item: false };
    cascade(&mut doc, vec![rule(vec![(vec![id("x")], spec(1, 0, 0))], vec![Declaration::Display(flex)], 0)])
        .expect("cascade succeeds");
    assert_eq!(computed(&doc, x).display, Display::Flex);
}

#[test]
fn media_query_returns_unsupported() {
    let (mut doc, body) = page();
    el(&mut doc, body, "div", &[]);
    let result = cascade(&mut doc, vec![RuleToken::Unsupported(AtRuleKind::Media)]);
    assert!(matches!(result, Err(LayoutError::UnsupportedCss { .. })));
}

#[test]
fn hover_pseudo_returns_unsupported() {
    let (mut doc, body) = page();
    el(&mut doc, body, "div", &[]);
    let result = cascade(
        &mut doc,
        vec![rule(vec![(vec![SelectorToken::NonTSPseudoClass, tag("div")], spec(0, 1, 1))], vec![Declaration::Color(RED)], 0)],
    );
    assert!(matches!(result, Err(LayoutError::UnsupportedCss { .. })));
}

#[test]
fn not_selector_returns_unsupported() {
    let (mut doc, body) = page();
    el(&mut doc, body, "div", &[]);
    let result = cascade(
        &mut doc,
        vec![rule(vec![(vec![SelectorToken::Negation, tag("div")], spec(0, 1, 1))], vec![Declaration::Color(RED)], 0)],
    );
    assert!(matches!(result, Err(LayoutError::UnsupportedCss { .. })));
}

#[test]
fn embedded_style_tag_applies() {
    let mut d = Document::new();
    let html = d.create_element("html".to_string(), vec![]);
    d.append(DOCUMENT_SENTINEL, NodeOrText::AppendNode(html));
    let head = d.create_element("head".to_string(), vec![]);
    d.append(html, NodeOrText::AppendNode(head));
    let style = d.create_element("style".to_string(), vec![]);
    d.append(head, NodeOrText::AppendNode(style));
    d.append(style, NodeOrText::AppendText("\n        div { color: red }\n    ".to_string()));
    let body = d.create_element("body".to_string(), vec![]);
    d.append(html, NodeOrText::AppendNode(body));
    let mut doc = finalize(d).expect("root");
    let x = el(&mut doc, body, "div", &[("id", "x")]);
    let sources = css_sources(&doc, &vec![], &vec![]);
    assert_eq!(sources.len(), 2);
    assert_eq!(sources[1], "\n        div { color: red }\n    ");
    // The parsed form of each source sheet: the user-agent sheet, then the
    // embedded one.
    let ua = vec![rule(
        vec![(vec![tag("html")], spec(0, 0, 1)), (vec![tag("body")], spec(0, 0, 1))],
        vec![Declaration::Metric, Declaration::Metric],
        0,
    )];
    let embedded = vec![rule(vec![(vec![tag("div")], spec(0, 0, 1))], vec![Declaration::Color(RED)], 1)];
    run(&mut doc, &vec![Ok(ua), Ok(embedded)], &vec![]).expect("cascade succeeds");
    assert_eq!(computed(&doc, x).color, Color::Rgba(255, 0, 0, 255));
}

#[test]
fn data_mh_attrs_in_attrs_not_interpreted() {
    let (mut doc, body) = page();
    let div = el(&mut doc, body, "div", &[("data-mh-widget", "Button"), ("data-mh-name", "okBtn")]);
    cascade(&mut doc, vec![]).expect("cascade succeeds");
    match &doc.get(div).unwrap().kind {
        NodeKind::Element { tag, attrs, .. } => {
            assert_eq!(tag, "div");
            assert_eq!(xiangxue::attrs::attr_get(attrs, "data-mh-widget").map(|s| s.as_str()), Some("Button"));
            assert_eq!(xiangxue::attrs::attr_get(attrs, "data-mh-name").map(|s| s.as_str()), Some("okBtn"));
        }
        _ => panic!("not an element"),
    }
}

// ── which rules reach an element ──

fn has_attr(name: &str) -> SelectorToken {
    SelectorToken::AttributeExists(name.to_string())
}

fn equals(name: &str, value: &str) -> SelectorToken {
    SelectorToken::Attribute { name: name.to_string(), is_equal: true, value: value.to_string(), never_matches: false }
}

fn metric_rule(tokens: Vec<SelectorToken>, specificity: u32) -> Vec<RuleToken> {
    vec![rule(vec![(tokens, specificity)], vec![Declaration::Metric], 0)]
}

#[test]
fn attr_exists_selector() {
    let (mut doc, body) = page();
    let with_attr = el(&mut doc, body, "div", &[("data-mh-widget", "Button")]);
    let without = el(&mut doc, body, "div", &[]);
    let res = cascade(&mut doc, metric_rule(vec![has_attr("data-mh-widget")], spec(0, 1, 0))).expect("cascade succeeds");
    assert_eq!(rules_applied(&res, with_attr), vec![0]);
    assert_eq!(rules_applied(&res, without), Vec::<usize>::new());
}

#[test]
fn attr_equals_selector() {
    let (mut doc, body) = page();
    let yes = el(&mut doc, body, "div", &[("data-x", "yes")]);
    let no = el(&mut doc, body, "div", &[("data-x", "no")]);
    let res = cascade(&mut doc, metric_rule(vec![equals("data-x", "yes")], spec(0, 1, 0))).expect("cascade succeeds");
    assert_eq!(rules_applied(&res, yes), vec![0]);
    assert_eq!(rules_applied(&res, no), Vec::<usize>::new());
}

#[test]
fn descendant_combinator() {
    let (mut doc, body) = page();
    let div = el(&mut doc, body, "div", &[]);
    let span = el(&mut doc, div, "span", &[]);
    let b = el(&mut doc, span, "b", &[]);
    let sel = vec![tag("b"), SelectorToken::Combinator(CombinatorKind::Descendant), tag("div")];
    let res = cascade(&mut doc, metric_rule(sel, spec(0, 0, 2))).expect("cascade succeeds");
    assert_eq!(rules_applied(&res, b), vec![0]);
}

#[test]
fn child_combinator_strict() {
    // div > b does not match with a span between them.
    let (mut doc, body) = page();
    let div = el(&mut doc, body, "div", &[]);
    let span = el(&mut doc, div, "span", &[]);
    let b = el(&mut doc, span, "b", &[]);
    let sel = vec![tag("b"), SelectorToken::Combinator(CombinatorKind::Child), tag("div")];
    let res = cascade(&mut doc, metric_rule(sel, spec(0, 0, 2))).expect("cascade succeeds");
    assert_eq!(rules_applied(&res, b), Vec::<usize>::new());
}

#[test]
fn child_combinator_direct() {
    // div > b matches a direct child.
    let (mut doc, body) = page();
    let div = el(&mut doc, body, "div", &[]);
    let b = el(&mut doc, div, "b", &[]);
    let sel = vec![tag("b"), SelectorToken::Combinator(CombinatorKind::Child), tag("div")];
    let res = cascade(&mut doc, metric_rule(sel, spec(0, 0, 2))).expect("cascade succeeds");
    assert_eq!(rules_applied(&res, b), vec![0]);
}

#[test]
fn descendant_step_tries_farther_ancestors() {
    // section > div span on section > div > div > span: the nearer div has
    // no section parent, the farther one has.
    let (mut doc, body) = page();
    let section = el(&mut doc, body, "section", &[]);
    let outer = el(&mut doc, section, "div", &[]);
    let inner = el(&mut doc, outer, "div", &[]);
    let span = el(&mut doc, inner, "span", &[]);
    let sel = vec![
        tag("span"),
        SelectorToken::Combinator(CombinatorKind::Descendant),
        tag("div"),
        SelectorToken::Combinator(CombinatorKind::Child),
        tag("section"),
    ];
    let res = cascade(&mut doc, metric_rule(sel, spec(0, 0, 3))).expect("cascade succeeds");
    assert_eq!(rules_applied(&res, span), vec![0]);
}

#[test]
fn important_declarations_beat_specificity() {
    // .c { color: red !important } #x { color: blue }
    let (mut doc, body) = page();
    let x = el(&mut doc, body, "div", &[("id", "x"), ("class", "c")]);
    let res = cascade(
        &mut doc,
        vec![
            RuleToken::Style {
                selectors: vec![SelectorSource { tokens: vec![class("c")], specificity: spec(0, 1, 0) }],
                normal: vec![],
                important: vec![Declaration::Color(RED)],
                block: 0,
            },
            rule(vec![(vec![id("x")], spec(1, 0, 0))], vec![Declaration::Color(BLUE)], 1),
        ],
    )
    .expect("cascade succeeds");
    assert_eq!(rules_applied(&res, x), vec![0, 1]);
    assert_eq!(computed(&doc, x).color, RED);
}

#[test]
fn important_rule_beats_inline_normal() {
    // .c { color: red !important }  <div class="c" style="color: blue">
    let (mut doc, body) = page();
    let x = el(&mut doc, body, "div", &[("class", "c")]);
    let rules = vec![RuleToken::Style {
        selectors: vec![SelectorSource { tokens: vec![class("c")], specificity: spec(0, 1, 0) }],
        normal: vec![],
        important: vec![Declaration::Color(RED)],
        block: 0,
    }];
    let inline = vec![(x, vec![Declaration::Color(BLUE)], vec![])];
    run(&mut doc, &vec![Ok(rules)], &inline).expect("cascade succeeds");
    assert_eq!(computed(&doc, x).color, RED);
}

#[test]
fn inline_important_beats_important_rule() {
    // .c { color: red !important }  <div class="c" style="color: blue !important">
    let (mut doc, body) = page();
    let x = el(&mut doc, body, "div", &[("class", "c")]);
    let rules = vec![RuleToken::Style {
        selectors: vec![SelectorSource { tokens: vec![class("c")], specificity: spec(0, 1, 0) }],
        normal: vec![],
        important: vec![Declaration::Color(RED)],
        block: 0,
    }];
    let inline = vec![(x, vec![], vec![Declaration::Color(BLUE)])];
    run(&mut doc, &vec![Ok(rules)], &inline).expect("cascade succeeds");
    assert_eq!(computed(&doc, x).color, BLUE);
}

#[test]
fn inline_normal_beats_normal_rule() {
    // #x { color: red }  <div id="x" style="color: blue">
    let (mut doc, body) = page();
    let x = el(&mut doc, body, "div", &[("id", "x")]);
    let rules = vec![rule(vec![(vec![id("x")], spec(1, 0, 0))], vec![Declaration::Color(RED)], 0)];
    let inline = vec![(x, vec![Declaration::Color(BLUE)], vec![])];
    run(&mut doc, &vec![Ok(rules)], &inline).expect("cascade succeeds");
    assert_eq!(computed(&doc, x).color, BLUE);
}

#[test]
fn current_color_takes_the_inherited_color() {
    // <div style="color: red"><span style="color: currentColor"></span></div>
    let (mut doc, body) = page();
    let div = el(&mut doc, body, "div", &[]);
    let span = el(&mut doc, div, "span", &[]);
    let inline = vec![(div, vec![Declaration::Color(RED)], vec![]), (span, vec![Declaration::Color(Color::CurrentColor)], vec![])];
    run(&mut doc, &vec![Ok(vec![])], &inline).expect("cascade succeeds");
    assert_eq!(computed(&doc, span).color, RED);
}

#[test]
fn sticky_position_is_refused() {
    let (mut doc, body) = page();
    el(&mut doc, body, "div", &[]);
    let result = cascade(
        &mut doc,
        vec![rule(vec![(vec![tag("div")], spec(0, 0, 1))], vec![Declaration::Position(PositionValue::Sticky)], 0)],
    );
    match result {
        Err(e @ LayoutError::UnsupportedCss { .. }) => {
            assert_eq!(e.message(), "unsupported CSS `position: sticky`")
        }
        _ => panic!("expected an unsupported-CSS error"),
    }
}

#[test]
fn invalid_declaration_stops_the_cascade() {
    let (mut doc, body) = page();
    el(&mut doc, body, "div", &[]);
    let bad = LayoutError::CssParse("color: failed to resolve to rgba".to_string());
    let result = cascade(
        &mut doc,
        vec![rule(vec![(vec![tag("div")], spec(0, 0, 1))], vec![Declaration::Ignored, Declaration::Invalid(bad)], 0)],
    );
    match result {
        Err(LayoutError::CssParse(m)) => assert_eq!(m, "color: failed to resolve to rgba"),
        other => panic!("unexpected {other:?}"),
    }
}

#[test]
fn sheet_parse_error_comes_first() {
    let (mut doc, body) = page();
    let div = el(&mut doc, body, "div", &[]);
    let sheets = vec![
        Ok(vec![rule(vec![(vec![tag("div")], spec(0, 0, 1))], vec![Declaration::Color(RED)], 0)]),
        Err(LayoutError::CssParse("unexpected token".to_string())),
        Ok(vec![RuleToken::Unsupported(AtRuleKind::Media)]),
    ];
    let result = run(&mut doc, &sheets, &vec![]);
    assert!(matches!(result, Err(LayoutError::CssParse(ref m)) if m == "unexpected token"));
    assert_eq!(computed(&doc, div).color, BLACK);
}

#[test]
fn at_rule_messages_name_the_rule() {
    let result = compile_sheets(&vec![Ok(vec![RuleToken::Ignored, RuleToken::Unsupported(AtRuleKind::Keyframes)])]);
    match result {
        Err(e) => assert_eq!(e.message(), "unsupported CSS `@-rule: @keyframes`"),
        Ok(_) => panic!("expected an error"),
    }
    let result = compile_sheets(&vec![Ok(vec![RuleToken::LayerBlock(vec![RuleToken::Unknown])])]);
    match result {
        Err(e) => assert_eq!(e.message(), "unsupported CSS `unknown CSS rule`"),
        Ok(_) => panic!("expected an error"),
    }
}

#[test]
fn selectors_numbered_in_source_order() {
    let rules = compile_sheets(&vec![
        Ok(vec![rule(vec![(vec![tag("a")], 1), (vec![tag("b")], 1)], vec![], 7)]),
        Ok(vec![RuleToken::LayerBlock(vec![rule(vec![(vec![tag("c")], 1)], vec![], 9)])]),
    ])
    .expect("compiles");
    let orders: Vec<u32> = rules.iter().map(|r| r.source_order).collect();
    let blocks: Vec<usize> = rules.iter().map(|r| r.block).collect();
    assert_eq!(orders, vec![0, 1, 2]);
    assert_eq!(blocks, vec![7, 7, 9]);
}

#[test]
fn property_application() {
    let mut s = ComputedStyle::initial();
    assert_eq!(apply_property(&mut s, &Declaration::FontWeight(FontWeightValue::Bolder)).unwrap(), true);
    assert_eq!(s.font_weight, FontWeight::Normal);
    assert_eq!(apply_property(&mut s, &Declaration::FontWeight(FontWeightValue::Weight(600))).unwrap(), true);
    assert_eq!(s.font_weight, FontWeight::Weight(600));
    assert_eq!(apply_property(&mut s, &Declaration::Ignored).unwrap(), false);
    assert_eq!(apply_property(&mut s, &Declaration::FontFamily(Some("Noto Sans".to_string()))).unwrap(), true);
    assert_eq!(s.font_family, "Noto Sans");
    assert_eq!(apply_property(&mut s, &Declaration::FontFamily(None)).unwrap(), true);
    assert_eq!(s.font_family, "Noto Sans");
    assert!(apply_property(&mut s, &Declaration::Invalid(LayoutError::CssParse("x".to_string()))).is_err());
    assert_eq!(s.font_family, "Noto Sans");
}

#[test]
fn inheritance_takes_parent_values() {
    let mut parent = ComputedStyle::initial();
    parent.color = BLUE;
    parent.font_family = "serif".to_string();
    parent.display = Display::Flex;
    let mut child = ComputedStyle::initial();
    inherit_from(&mut child, &parent);
    assert_eq!(child.color, BLUE);
    assert_eq!(child.font_family, "serif");
    assert_eq!(child.display, Display::Block);
    let mut styled = ComputedStyle::initial();
    styled.color = GREEN;
    inherit_from(&mut styled, &parent);
    assert_eq!(styled.color, GREEN);
}

#[test]
fn color_equality() {
    assert!(computed_color_eq(&Color::Rgba(1, 2, 3, 4), &Color::Rgba(1, 2, 3, 4)));
    assert!(!computed_color_eq(&Color::Rgba(1, 2, 3, 4), &Color::Rgba(1, 2, 3, 5)));
    assert!(computed_color_eq(&Color::CurrentColor, &Color::CurrentColor));
    assert!(!computed_color_eq(&Color::CurrentColor, &BLACK));
}

#[test]
fn user_agent_sheet_comes_first() {
    let (doc, _) = page();
    let sources = css_sources(&doc, &vec!["a {}".to_string()], &vec!["b {}".to_string()]);
    assert_eq!(sources, vec!["\nhtml, body { width: 100%; height: 100% }\n".to_string(), "a {}".to_string(), "b {}".to_string()]);
}

#[test]
fn font_weight_and_style_inherited() {
    // <div style="font-weight: bold; font-style: italic"><span>x</span></div>
    let (mut doc, body) = page();
    let div = el(&mut doc, body, "div", &[]);
    let span = el(&mut doc, div, "span", &[]);
    let inline = vec![(
        div,
        vec![Declaration::FontWeight(FontWeightValue::Bold), Declaration::FontStyle(FontStyleValue::Italic)],
        vec![],
    )];
    run(&mut doc, &vec![Ok(vec![])], &inline).expect("cascade succeeds");
    assert_eq!(computed(&doc, span).font_weight, FontWeight::Bold);
    assert_eq!(computed(&doc, span).font_style, FontStyle::Italic);
}

#[test]
fn replay_follows_cascade_order() {
    assert_eq!(
        replay_steps(&vec![2, 0]),
        vec![
            ReplayStep::RuleNormal(2),
            ReplayStep::RuleNormal(0),
            ReplayStep::InlineNormal,
            ReplayStep::RuleImportant(2),
            ReplayStep::RuleImportant(0),
            ReplayStep::InlineImportant,
        ]
    );
    assert_eq!(replay_steps(&vec![]), vec![ReplayStep::InlineNormal, ReplayStep::InlineImportant]);
}

#[test]
fn selector_count_is_checked() {
    let sheets = vec![
        Ok(vec![
            rule(vec![(vec![tag("div")], spec(0, 0, 1)), (vec![tag("span")], spec(0, 0, 1))], vec![], 0),
            RuleToken::LayerBlock(vec![rule(vec![(vec![tag("p")], spec(0, 0, 1))], vec![], 1)]),
        ]),
        Err(LayoutError::CssParse("bad".to_string())),
        Ok(vec![rule(vec![(vec![tag("b")], spec(0, 0, 1))], vec![], 2)]),
    ];
    assert_eq!(capped_selector_count(&sheets), 4);
    let (mut doc, body) = page();
    let span = el(&mut doc, body, "span", &[]);
    let ok = vec![Ok(vec![rule(vec![(vec![tag("span")], spec(0, 0, 1))], vec![Declaration::Color(RED)], 0)])];
    run_checked(&mut doc, &ok, &vec![]).expect("cascade succeeds");
    assert_eq!(computed(&doc, span).color, RED);
}

#[test]
fn color_declarations_resolve() {
    assert!(matches!(
        color_declaration(false, ColorResolution::Rgba(1, 2, 3, 4)),
        Declaration::Color(Color::Rgba(1, 2, 3, 4))
    ));
    assert!(matches!(
        color_declaration(true, ColorResolution::CurrentColor),
        Declaration::BackgroundColor(Color::CurrentColor)
    ));
    match color_declaration(false, ColorResolution::Unresolved) {
        Declaration::Invalid(e) => assert_eq!(e.message(), "css parse error: color: failed to resolve to rgba"),
        other => panic!("unexpected {other:?}"),
    }
    match color_declaration(true, ColorResolution::NotRgba) {
        Declaration::Invalid(e) => assert_eq!(e.message(), "css parse error: color: not RGBA after resolve"),
        other => panic!("unexpected {other:?}"),
    }
}

#[test]
fn first_font_family_is_kept() {
    match font_family_declaration(vec!["Inter".to_string(), "serif".to_string()]) {
        Declaration::FontFamily(Some(f)) => assert_eq!(f, "Inter"),
        other => panic!("unexpected {other:?}"),
    }
    assert!(matches!(font_family_declaration(vec![]), Declaration::FontFamily(None)));
}

#[test]
fn unlisted_properties() {
    assert!(matches!(unlisted_declaration(None), Declaration::Ignored));
    assert!(matches!(unlisted_declaration(Some(MetricValue::Plain)), Declaration::Metric));
    match unlisted_declaration(Some(MetricValue::Transforms(vec![TransformKind::Matrix]))) {
        Declaration::Invalid(e) => assert!(matches!(e, LayoutError::UnsupportedCss { .. })),
        other => panic!("unexpected {other:?}"),
    }
}
