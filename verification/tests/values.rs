use xiangxue::cascade::Declaration;
use xiangxue::metric::{check_metric, metric_declaration, MetricValue, TrackKind, TransformKind};
use xiangxue::css_values::{
    map_align_content, map_align_items, map_align_self, map_display, map_font_weight, map_justify_content,
    map_overflow_keyword, map_position, map_text_align, strip_quotes, AlignContentValue, AlignItemsValue,
    AlignSelfValue, ContentDistribution, ContentPosition, DisplayInside, DisplayKeyword, DisplayOutside,
    DisplayValue, FontWeightValue, JustifyContentValue, OverflowKeyword, PositionValue, SelfPosition,
    TextAlignValue,
};
use xiangxue::dom::{Document, NodeId, DOCUMENT_SENTINEL};
use xiangxue::error::decimal_string;
use xiangxue::grid::{
    expand_template_areas, map_grid_auto_flow, map_grid_line, map_repeat_count, GridAutoFlow, GridLine,
    GridLineValue, GridRepeatCount, GridTemplateAreas, RepeatCountValue,
};
use xiangxue::selectors::{compile, unsupported, CombinatorKind, NthType, SelectorToken, StructuralPseudo};
use xiangxue::style::{AlignItems, Display, JustifyContent, Overflow, Position, TextAlign};
use xiangxue::text::{contains_ascii_ws_token, eq_ignore_ascii_case, first_whitespace_token, str_lt, trim};
use xiangxue::tree_builder::{finalize, NodeOrText};
use xiangxue::{FontWeight, LayoutError, Sides, SourceSpan};

fn page() -> (Document, NodeId) {
    let mut d = Document::new();
    let html = d.create_element("html".to_string(), vec![]);
    d.append(DOCUMENT_SENTINEL, NodeOrText::AppendNode(html));
    let body = d.create_element("body".to_string(), vec![]);
    d.append(html, NodeOrText::AppendNode(body));
    (finalize(d).expect("root"), body)
}

fn el(d: &mut Document, parent: NodeId, tag: &str, attrs: &[(&str, &str)]) -> NodeId {
    let a = attrs.iter().map(|(k, v)| (k.to_string(), v.to_string())).collect();
    let id = d.create_element(tag.to_string(), a);
    d.append(parent, NodeOrText::AppendNode(id));
    id
}

// ── errors ──

#[test]
fn error_messages() {
    assert_eq!(LayoutError::HtmlParse("bad".to_string()).message(), "html parse error: bad");
    assert_eq!(LayoutError::CssParse("bad".to_string()).message(), "css parse error: bad");
    assert_eq!(LayoutError::LayoutCompute("bad".to_string()).message(), "layout compute error: bad");
    let located = LayoutError::UnsupportedCss {
        feature: ":hover".to_string(),
        location: Some(SourceSpan { line: 12, column: 304 }),
    };
    assert_eq!(located.message(), "unsupported CSS `:hover` at 12:304");
    assert_eq!(unsupported(":has()").message(), "unsupported CSS `:has()`");
    assert_eq!(decimal_string(0), "0");
    assert_eq!(decimal_string(4294967295), "4294967295");
}

// ── selector compilation ──

fn feature(r: Result<xiangxue::selectors::MatchSelector, LayoutError>) -> String {
    match r {
        Err(LayoutError::UnsupportedCss { feature, location: None }) => feature,
        _ => panic!("expected an unsupported-CSS error"),
    }
}

#[test]
fn compile_refuses_features_outside_the_subset() {
    let sib = vec![SelectorToken::LocalName("b".to_string()), SelectorToken::Combinator(CombinatorKind::NextSibling)];
    assert_eq!(feature(compile(&sib, 0)), "sibling combinator (+ / ~)");
    let nth_of_type = vec![SelectorToken::Nth { ty: NthType::OfType, a: 0, b: 1 }];
    assert_eq!(feature(compile(&nth_of_type, 0)), ":nth-of-type / :first-of-type");
    let nth_last = vec![SelectorToken::Nth { ty: NthType::LastChild, a: 2, b: 1 }];
    assert_eq!(feature(compile(&nth_last, 0)), ":nth-last-child / :last-of-type");
    let only = vec![SelectorToken::Nth { ty: NthType::OnlyChild, a: 0, b: 1 }];
    assert_eq!(feature(compile(&only, 0)), ":only-child");
    let starts = vec![SelectorToken::Attribute {
        name: "x".to_string(),
        is_equal: false,
        value: "y".to_string(),
        never_matches: false,
    }];
    assert_eq!(feature(compile(&starts, 0)), "attribute operators other than `=`");
    // The first refused component decides the message.
    let two = vec![SelectorToken::Has, SelectorToken::Negation];
    assert_eq!(feature(compile(&two, 0)), ":has()");
}

#[test]
fn compile_builds_compounds_rightmost_first() {
    let tokens = vec![
        SelectorToken::Class("c".to_string()),
        SelectorToken::LocalName("b".to_string()),
        SelectorToken::Combinator(CombinatorKind::Child),
        SelectorToken::ExplicitUniversalType,
        SelectorToken::Combinator(CombinatorKind::Descendant),
        SelectorToken::Id("x".to_string()),
        SelectorToken::Nth { ty: NthType::Child, a: 0, b: 1 },
        SelectorToken::Nth { ty: NthType::LastChild, a: 0, b: 1 },
        SelectorToken::Nth { ty: NthType::Child, a: 2, b: 1 },
    ];
    let sel = compile(&tokens, 1 << 20).expect("compiles");
    assert_eq!(sel.specificity(), 1 << 20);
    assert_eq!(sel.compounds.len(), 3);
    assert_eq!(sel.combinators.len(), 2);
    assert_eq!(sel.compounds[0].tag.as_deref(), Some("b"));
    assert_eq!(sel.compounds[0].classes, vec!["c".to_string()]);
    assert!(sel.compounds[1].tag.is_none());
    assert_eq!(sel.compounds[2].id.as_deref(), Some("x"));
    assert_eq!(
        sel.compounds[2].structural,
        vec![StructuralPseudo::FirstChild, StructuralPseudo::LastChild, StructuralPseudo::NthChild { a: 2, b: 1 }]
    );
}

// ── structural matching ──

#[test]
fn nth_child_counts_element_siblings_only() {
    let (mut doc, body) = page();
    let mut items = vec![];
    for i in 0..6 {
        if i == 2 {
            doc.append(body, NodeOrText::AppendText("gap".to_string()));
        }
        items.push(el(&mut doc, body, "li", &[]));
    }
    let odd = StructuralPseudo::NthChild { a: 2, b: 1 };
    let got: Vec<bool> = items.iter().map(|&i| odd.matches(&doc, i)).collect();
    assert_eq!(got, vec![true, false, true, false, true, false]);
    let first_three = StructuralPseudo::NthChild { a: -1, b: 3 };
    let got: Vec<bool> = items.iter().map(|&i| first_three.matches(&doc, i)).collect();
    assert_eq!(got, vec![true, true, true, false, false, false]);
    let third = StructuralPseudo::NthChild { a: 0, b: 3 };
    assert!(third.matches(&doc, items[2]));
    assert!(!third.matches(&doc, items[3]));
    assert!(StructuralPseudo::FirstChild.matches(&doc, items[0]));
    assert!(StructuralPseudo::LastChild.matches(&doc, items[5]));
    assert!(!StructuralPseudo::LastChild.matches(&doc, items[4]));
    // The root has no parent, so no structural pseudo-class holds of it.
    assert!(!StructuralPseudo::FirstChild.matches(&doc, doc.root_id()));
}

#[test]
fn selector_matching_on_a_tree() {
    let (mut doc, body) = page();
    let nav = el(&mut doc, body, "NAV", &[("class", "top  bar"), ("id", "n")]);
    let a = el(&mut doc, nav, "a", &[("href", "/")]);
    let compile_one = |t: Vec<SelectorToken>| compile(&t, 0).expect("compiles");
    let by_class = compile_one(vec![SelectorToken::Class("bar".to_string()), SelectorToken::LocalName("nav".to_string())]);
    assert!(by_class.matches(&doc, nav));
    assert!(!by_class.matches(&doc, a));
    let with_attr = compile_one(vec![
        SelectorToken::AttributeExists("href".to_string()),
        SelectorToken::Combinator(CombinatorKind::Child),
        SelectorToken::Id("n".to_string()),
    ]);
    assert!(with_attr.matches(&doc, a));
    let never = compile_one(vec![SelectorToken::Attribute {
        name: "href".to_string(),
        is_equal: true,
        value: "/".to_string(),
        never_matches: true,
    }]);
    assert!(!never.matches(&doc, a));
    let deep = compile_one(vec![
        SelectorToken::LocalName("a".to_string()),
        SelectorToken::Combinator(CombinatorKind::Descendant),
        SelectorToken::LocalName("html".to_string()),
    ]);
    assert!(deep.matches(&doc, a));
    let missing = compile_one(vec![
        SelectorToken::LocalName("a".to_string()),
        SelectorToken::Combinator(CombinatorKind::Descendant),
        SelectorToken::LocalName("table".to_string()),
    ]);
    assert!(!missing.matches(&doc, a));
}

// ── value mappers ──

#[test]
fn display_and_friends() {
    assert_eq!(map_display(&DisplayValue::Keyword(DisplayKeyword::NoBox)).unwrap(), Display::NoDisplay);
    assert_eq!(map_display(&DisplayValue::Keyword(DisplayKeyword::TableRow)).unwrap(), Display::Block);
    let inline_grid = DisplayValue::Pair { outside: DisplayOutside::Inline, inside: DisplayInside::Grid, is_list_item: false };
    assert_eq!(map_display(&inline_grid).unwrap(), Display::Grid);
    let inline = DisplayValue::Pair { outside: DisplayOutside::Inline, inside: DisplayInside::Flow, is_list_item: false };
    assert_eq!(map_display(&inline).unwrap(), Display::Block);
    assert!(matches!(map_position(&PositionValue::Sticky), Err(LayoutError::UnsupportedCss { .. })));
    assert_eq!(map_overflow_keyword(&OverflowKeyword::Clip), Overflow::Hidden);
    assert_eq!(map_text_align(&TextAlignValue::End), TextAlign::Right);
    assert_eq!(map_text_align(&TextAlignValue::MatchParent), TextAlign::Left);
    assert_eq!(map_font_weight(&FontWeightValue::Lighter), FontWeight::Normal);
}

#[test]
fn alignment_values() {
    assert_eq!(map_justify_content(&JustifyContentValue::Normal), None);
    assert_eq!(map_justify_content(&JustifyContentValue::Left), Some(JustifyContent::Start));
    assert_eq!(
        map_justify_content(&JustifyContentValue::Distribution(ContentDistribution::SpaceEvenly)),
        Some(JustifyContent::SpaceEvenly)
    );
    assert_eq!(map_align_content(&AlignContentValue::Baseline), None);
    assert_eq!(map_align_content(&AlignContentValue::Position(ContentPosition::FlexEnd)), Some(JustifyContent::FlexEnd));
    assert_eq!(map_align_items(&AlignItemsValue::Position(SelfPosition::SelfEnd)), Some(AlignItems::End));
    assert_eq!(map_align_self(&AlignSelfValue::Auto), None);
    assert_eq!(map_align_self(&AlignSelfValue::Baseline), Some(AlignItems::Baseline));
}

#[test]
fn family_names_lose_printer_quotes() {
    assert_eq!(strip_quotes("\"Noto Sans\""), "Noto Sans");
    assert_eq!(strip_quotes("serif"), "serif");
    assert_eq!(strip_quotes("\"\"\""), "");
    assert_eq!(strip_quotes("a\"b"), "a\"b");
}

// ── grid ──

#[test]
fn template_areas_expand_to_lines() {
    let cells = |v: &[&str]| v.iter().map(|s| if *s == "." { None } else { Some(s.to_string()) }).collect();
    let areas = GridTemplateAreas { columns: 3, areas: cells(&["head", "head", "head", "nav", "main", "main", ".", "main", "main"]) };
    let r = expand_template_areas(&areas);
    let got: Vec<(&str, u16, u16, u16, u16)> =
        r.iter().map(|a| (a.name.as_str(), a.row_start, a.row_end, a.column_start, a.column_end)).collect();
    assert_eq!(got, vec![("head", 1, 2, 1, 4), ("main", 2, 4, 2, 4), ("nav", 2, 3, 1, 2)]);
    let single = GridTemplateAreas { columns: 0, areas: cells(&["a", "b"]) };
    let r = expand_template_areas(&single);
    let got: Vec<(&str, u16, u16, u16, u16)> =
        r.iter().map(|a| (a.name.as_str(), a.row_start, a.row_end, a.column_start, a.column_end)).collect();
    assert_eq!(got, vec![("a", 1, 2, 1, 2), ("b", 2, 3, 1, 2)]);
}

#[test]
fn grid_values() {
    assert_eq!(map_repeat_count(&RepeatCountValue::Number(-3)), GridRepeatCount::Count(0));
    assert_eq!(map_repeat_count(&RepeatCountValue::Number(70000)), GridRepeatCount::Count(4464));
    assert_eq!(map_grid_line(&GridLineValue::Span(0)).unwrap(), GridLine::Span(1));
    assert_eq!(map_grid_line(&GridLineValue::Line(-2)).unwrap(), GridLine::Index(-2));
    assert_eq!(map_grid_line(&GridLineValue::Area("main".to_string())).unwrap(), GridLine::Named("main".to_string()));
    match map_grid_line(&GridLineValue::NamedSpan) {
        Err(e) => assert_eq!(e.message(), "unsupported CSS `grid line: span N <name>`"),
        Ok(_) => panic!("expected an error"),
    }
    assert_eq!(map_grid_auto_flow(true, true), GridAutoFlow::ColumnDense);
    assert_eq!(map_grid_auto_flow(false, true), GridAutoFlow::RowDense);
}

// ── text helpers ──

#[test]
fn text_helpers() {
    assert_eq!(trim("\u{3000} a b \n"), "a b");
    assert!(eq_ignore_ascii_case("DiV", "dIv"));
    assert!(!eq_ignore_ascii_case("ß", "SS"));
    assert!(contains_ascii_ws_token("a\tbb  c", "bb"));
    assert!(!contains_ascii_ws_token("abb", "bb"));
    assert!(!contains_ascii_ws_token("a b", ""));
    assert_eq!(first_whitespace_token("\u{a0} x y").as_deref(), Some("x"));
    assert_eq!(first_whitespace_token("  ").as_deref(), None);
    assert!(str_lt("abc", "abd"));
    assert!(str_lt("ab", "abc"));
    assert!(!str_lt("b", "abc"));
}

#[test]
fn sides_all() {
    let s = Sides::all(7u32);
    assert_eq!((s.top, s.right, s.bottom, s.left), (7, 7, 7, 7));
}

#[test]
fn metric_values_inside_and_outside_the_subset() {
    assert!(check_metric(&MetricValue::Plain).is_ok());
    assert!(check_metric(&MetricValue::Tracks(vec![TrackKind::Breadth, TrackKind::MinMax])).is_ok());
    match check_metric(&MetricValue::Tracks(vec![TrackKind::Breadth, TrackKind::FitContent])) {
        Err(e) => assert_eq!(e.message(), "unsupported CSS `grid track size: fit-content()`"),
        Ok(()) => panic!("fit-content is refused"),
    }
    match check_metric(&MetricValue::Transforms(vec![TransformKind::Rotate, TransformKind::SkewX, TransformKind::Matrix])) {
        Err(e) => assert_eq!(e.message(), "unsupported CSS `transform: skew()`"),
        Ok(()) => panic!("skew is refused"),
    }
    assert!(check_metric(&MetricValue::Transforms(vec![TransformKind::Translate, TransformKind::ScaleY])).is_ok());
    match check_metric(&MetricValue::Lines(vec![GridLineValue::Line(2), GridLineValue::NamedSpan])) {
        Err(e) => assert_eq!(e.message(), "unsupported CSS `grid line: span N <name>`"),
        Ok(()) => panic!("named spans are refused"),
    }
    assert!(matches!(metric_declaration(&MetricValue::Plain), Declaration::Metric));
    assert!(matches!(
        metric_declaration(&MetricValue::Transforms(vec![TransformKind::Perspective])),
        Declaration::Invalid(LayoutError::UnsupportedCss { .. })
    ));
}

#[test]
fn matrix_is_unsupported() {
    // transform: matrix(1,0,0,1,0,0)
    let err = match check_metric(&MetricValue::Transforms(vec![TransformKind::Matrix])) {
        Err(e) => e,
        Ok(()) => panic!("matrix should error"),
    };
    assert!(matches!(err, LayoutError::UnsupportedCss { .. }));
}

#[test]
fn skew_is_unsupported() {
    // transform: skew(10deg)
    let err = match check_metric(&MetricValue::Transforms(vec![TransformKind::Skew])) {
        Err(e) => e,
        Ok(()) => panic!("skew should error"),
    };
    assert!(matches!(err, LayoutError::UnsupportedCss { .. }));
}

#[test]
fn grid_auto_flow_column() {
    // grid-auto-flow: column
    assert_eq!(map_grid_auto_flow(true, false), GridAutoFlow::Column);
}

#[test]
fn grid_template_areas_parses() {
    // grid-template-areas: "a a b" "c d b"
    let cells: Vec<Option<String>> = ["a", "a", "b", "c", "d", "b"].iter().map(|s| Some(s.to_string())).collect();
    let areas = GridTemplateAreas { columns: 3, areas: cells };
    assert_eq!(areas.columns, 3);
    assert_eq!(areas.areas.len(), 6);
    let named = expand_template_areas(&areas);
    let b = named.iter().find(|a| a.name == "b").expect("area b");
    assert_eq!((b.row_start, b.row_end, b.column_start, b.column_end), (1, 3, 3, 4));
}

#[test]
fn grid_explicit_placement_lines() {
    // grid-column: 2 / 4; grid-row: 1 / 3
    assert!(matches!(map_grid_line(&GridLineValue::Line(2)).unwrap(), GridLine::Index(2)));
    assert!(matches!(map_grid_line(&GridLineValue::Line(4)).unwrap(), GridLine::Index(4)));
    assert!(matches!(map_grid_line(&GridLineValue::Line(1)).unwrap(), GridLine::Index(1)));
    assert!(matches!(map_grid_line(&GridLineValue::Line(3)).unwrap(), GridLine::Index(3)));
}

#[test]
fn grid_area_named() {
    // grid-area: header (the column and the row start at the named area)
    for _ in ["column", "row"] {
        match map_grid_line(&GridLineValue::Area("header".to_string())).unwrap() {
            GridLine::Named(s) => assert_eq!(s, "header"),
            other => panic!("unexpected start: {other:?}"),
        }
    }
}
