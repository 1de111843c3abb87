//! The CSS cascade of the layout-independent properties.
//!
//! Style sheets arrive as rule lists ([`RuleToken`]) whose declarations have
//! been mapped to [`Declaration`]s. [`compile_sheets`] compiles their
//! selectors; [`run`] then visits the elements parent-first and, for each,
//! starts from what it inherits from its parent and applies, in cascade
//! order of origin and importance, the normal declarations of the matching
//! rules in (specificity, source order) order, the element's inline normal
//! declarations, the rules' `!important` declarations in the same order, and
//! the element's inline `!important` declarations; `color: currentColor`
//! then takes the inherited colour. The first declaration that cannot be applied stops
//! the run with its error.

use vstd::prelude::*;
use vstd::string::*;

use crate::attrs::{Attr, attr_get, attr_lookup};
use crate::dom::{Document, NodeData, NodeId, NodeKind};
use crate::error::{ErrorView, LayoutError};
use crate::css_values::{
    DisplayValue, FontStyleValue, FontWeightValue, OverflowKeyword, PositionValue, TextAlignValue,
    VisibilityValue, ZIndexValue, display_spec, font_style_spec, font_weight_spec, map_display,
    map_font_weight, map_overflow_keyword, map_position, map_text_align, overflow_spec, position_spec,
    text_align_spec, visibility_spec, z_index_spec,
};
use crate::font::FontStyle;
use crate::selectors::{
    MatchSelector, SelectorToken, SelectorView, compile, compile_spec, is_element_node,
    selector_matches,
};
use crate::style::{
    Color, ComputedStyle, ComputedStyleView, Display, Overflow, Position, TextAlign, Visibility,
    initial_style_spec,
};
use crate::text::copy_str;
use crate::traversal::{
    collect_inline_stylesheets, document_order, style_sheets_of, topological_order, walk_depth,
};

verus! {

// ───────────────────────── declarations ─────────────────────────

/// One CSS declaration, as far as the cascade of [`ComputedStyle`] is
/// concerned.
#[derive(Debug)]
pub enum Declaration {
    Display(DisplayValue),
    Position(PositionValue),
    OverflowX(OverflowKeyword),
    OverflowY(OverflowKeyword),
    /// The `overflow` shorthand: x, then y.
    Overflow(OverflowKeyword, OverflowKeyword),
    /// `color`, resolved to RGBA or `currentColor`.
    Color(Color),
    /// `background-color`, resolved to RGBA or `currentColor`.
    BackgroundColor(Color),
    Visibility(VisibilityValue),
    ZIndex(ZIndexValue),
    /// `font-family`: the first family of the list, if the list has one.
    FontFamily(Option<String>),
    FontWeight(FontWeightValue),
    FontStyle(FontStyleValue),
    TextAlign(TextAlignValue),
    /// A supported declaration of a metric property (lengths, sizes, font
    /// size, line height, opacity, flex and grid values, transforms), which
    /// the layout layer resolves.
    Metric,
    /// A property outside the supported subset that is ignored.
    Ignored,
    /// A declaration whose value cannot be mapped.
    Invalid(LayoutError),
}

impl Declaration {
    /// A copy with the same value.
    pub fn duplicate(&self) -> (d: Self)
        ensures
            d == *self,
    {
        match self {
            Declaration::Display(v) => Declaration::Display(*v),
            Declaration::Position(v) => Declaration::Position(*v),
            Declaration::OverflowX(v) => Declaration::OverflowX(*v),
            Declaration::OverflowY(v) => Declaration::OverflowY(*v),
            Declaration::Overflow(x, y) => Declaration::Overflow(*x, *y),
            Declaration::Color(c) => Declaration::Color(*c),
            Declaration::BackgroundColor(c) => Declaration::BackgroundColor(*c),
            Declaration::Visibility(v) => Declaration::Visibility(*v),
            Declaration::ZIndex(z) => Declaration::ZIndex(*z),
            Declaration::FontFamily(f) => Declaration::FontFamily(
                match f {
                    Some(name) => Some(name.clone()),
                    None => None,
                },
            ),
            Declaration::FontWeight(w) => Declaration::FontWeight(*w),
            Declaration::FontStyle(s) => Declaration::FontStyle(*s),
            Declaration::TextAlign(a) => Declaration::TextAlign(*a),
            Declaration::Metric => Declaration::Metric,
            Declaration::Ignored => Declaration::Ignored,
            Declaration::Invalid(e) => Declaration::Invalid(e.duplicate()),
        }
    }
}

/// Copies a declaration list.
pub fn copy_declarations(v: &Vec<Declaration>) -> (r: Vec<Declaration>)
    ensures
        r@ == v@,
{
    let mut r: Vec<Declaration> = Vec::new();
    let mut i: usize = 0;
    while i < v.len()
        invariant
            i <= v.len(),
            r@ == v@.take(i as int),
        decreases v.len() - i,
    {
        r.push(v[i].duplicate());
        proof {
            assert(v@.take(i + 1) =~= v@.take(i as int).push(v@[i as int]));
        }
        i += 1;
    }
    proof {
        assert(v@.take(v.len() as int) =~= v@);
    }
    r
}

/// The style after one declaration, or the declaration's error.
pub open spec fn apply_spec(s: ComputedStyleView, d: Declaration) -> Result<ComputedStyleView, ErrorView> {
    match d {
        Declaration::Display(v) => Ok(ComputedStyleView { display: display_spec(v), ..s }),
        Declaration::Position(v) => match position_spec(v) {
            Ok(pos) => Ok(ComputedStyleView { position: pos, ..s }),
            Err(e) => Err(e),
        },
        Declaration::OverflowX(v) => Ok(ComputedStyleView { overflow_x: overflow_spec(v), ..s }),
        Declaration::OverflowY(v) => Ok(ComputedStyleView { overflow_y: overflow_spec(v), ..s }),
        Declaration::Overflow(x, y) => Ok(
            ComputedStyleView { overflow_x: overflow_spec(x), overflow_y: overflow_spec(y), ..s },
        ),
        Declaration::Color(c) => Ok(ComputedStyleView { color: c, ..s }),
        Declaration::BackgroundColor(c) => Ok(ComputedStyleView { background_color: Some(c), ..s }),
        Declaration::Visibility(v) => Ok(ComputedStyleView { visibility: visibility_spec(v), ..s }),
        Declaration::ZIndex(z) => Ok(ComputedStyleView { z_index: z_index_spec(z), ..s }),
        Declaration::FontFamily(f) => match f {
            Some(name) => Ok(ComputedStyleView { font_family: name@, ..s }),
            None => Ok(s),
        },
        Declaration::FontWeight(w) => Ok(ComputedStyleView { font_weight: font_weight_spec(w), ..s }),
        Declaration::FontStyle(v) => Ok(ComputedStyleView { font_style: font_style_spec(v), ..s }),
        Declaration::TextAlign(a) => Ok(ComputedStyleView { text_align: text_align_spec(a), ..s }),
        Declaration::Metric | Declaration::Ignored => Ok(s),
        Declaration::Invalid(e) => Err(e@),
    }
}

/// Applies one declaration to `style`. `Ok(true)` when the property is
/// recognised, `Ok(false)` when it is ignored, `Err` when its value cannot
/// be mapped (the style is then unchanged).
pub fn apply_property(style: &mut ComputedStyle, d: &Declaration) -> (r: Result<bool, LayoutError>)
    ensures
        match r {
            Ok(applied) => apply_spec(old(style)@, *d) == Ok::<ComputedStyleView, ErrorView>(final(style)@)
                && applied == !(d is Ignored),
            Err(e) => apply_spec(old(style)@, *d) == Err::<ComputedStyleView, ErrorView>(e@)
                && final(style)@ == old(style)@,
        },
{
    match d {
        Declaration::Display(v) => match map_display(v) {
            Ok(display) => {
                style.display = display;
            },
            Err(e) => {
                return Err(e);
            },
        },
        Declaration::Position(v) => match map_position(v) {
            Ok(pos) => {
                style.position = pos;
            },
            Err(e) => {
                return Err(e);
            },
        },
        Declaration::OverflowX(v) => {
            style.overflow_x = map_overflow_keyword(v);
        },
        Declaration::OverflowY(v) => {
            style.overflow_y = map_overflow_keyword(v);
        },
        Declaration::Overflow(x, y) => {
            style.overflow_x = map_overflow_keyword(x);
            style.overflow_y = map_overflow_keyword(y);
        },
        Declaration::Color(c) => {
            style.color = *c;
        },
        Declaration::BackgroundColor(c) => {
            style.background_color = Some(*c);
        },
        Declaration::Visibility(v) => {
            style.visibility = match v {
                VisibilityValue::Visible => Visibility::Visible,
                _ => Visibility::Hidden,
            };
        },
        Declaration::ZIndex(z) => {
            style.z_index = match z {
                ZIndexValue::Integer(i) => Some(*i),
                _ => None,
            };
        },
        Declaration::FontFamily(f) => match f {
            Some(name) => {
                style.font_family = copy_str(name.as_str());
            },
            None => {},
        },
        Declaration::FontWeight(w) => {
            style.font_weight = map_font_weight(w);
        },
        Declaration::FontStyle(v) => {
            style.font_style = match v {
                FontStyleValue::Normal => FontStyle::Normal,
                FontStyleValue::Italic => FontStyle::Italic,
                FontStyleValue::Oblique => FontStyle::Oblique,
            };
        },
        Declaration::TextAlign(a) => {
            style.text_align = map_text_align(a);
        },
        Declaration::Metric => {},
        Declaration::Ignored => {
            return Ok(false);
        },
        Declaration::Invalid(e) => {
            return Err(e.duplicate());
        },
    }
    Ok(true)
}

/// The style after the declarations `ds` in order, or the first error.
pub open spec fn apply_all(s: ComputedStyleView, ds: Seq<Declaration>) -> Result<ComputedStyleView, ErrorView>
    decreases ds.len(),
{
    if ds.len() == 0 {
        Ok(s)
    } else {
        match apply_all(s, ds.drop_last()) {
            Ok(t) => apply_spec(t, ds.last()),
            Err(e) => Err(e),
        }
    }
}

/// Applying `a + b` is applying `a`, then `b` to the result.
pub proof fn lemma_apply_all_concat(s: ComputedStyleView, a: Seq<Declaration>, b: Seq<Declaration>)
    ensures
        apply_all(s, a + b) == match apply_all(s, a) {
            Ok(t) => apply_all(t, b),
            Err(e) => Err(e),
        },
    decreases b.len(),
{
    if b.len() == 0 {
        assert(a + b =~= a);
    } else {
        assert((a + b).drop_last() =~= a + b.drop_last());
        assert((a + b).last() == b.last());
        lemma_apply_all_concat(s, a, b.drop_last());
    }
}

/// Applies the declarations of `ds` in order; stops at the first error.
pub fn apply_block(style: &mut ComputedStyle, ds: &Vec<Declaration>) -> (r: Result<(), LayoutError>)
    ensures
        r is Ok ==> apply_all(old(style)@, ds@) == Ok::<ComputedStyleView, ErrorView>(final(style)@),
        r matches Err(e) ==> apply_all(old(style)@, ds@) == Err::<ComputedStyleView, ErrorView>(e@),
{
    let ghost start = style@;
    let mut i: usize = 0;
    while i < ds.len()
        invariant
            i <= ds.len(),
            start == old(style)@,
            apply_all(start, ds@.take(i as int)) == Ok::<ComputedStyleView, ErrorView>(style@),
        decreases ds.len() - i,
    {
        proof {
            assert(ds@.take(i + 1).drop_last() =~= ds@.take(i as int));
        }
        match apply_property(style, &ds[i]) {
            Ok(_) => {},
            Err(e) => {
                proof {
                    assert(ds@.take(i + 1).last() == ds@[i as int]);
                    assert(apply_all(start, ds@.take(i + 1)) == Err::<ComputedStyleView, ErrorView>(e@));
                    lemma_apply_all_concat(start, ds@.take(i + 1), ds@.skip(i + 1));
                    assert(ds@.take(i + 1) + ds@.skip(i + 1) =~= ds@);
                }
                return Err(e);
            },
        }
        i += 1;
    }
    proof {
        assert(ds@.take(ds.len() as int) =~= ds@);
    }
    Ok(())
}

// ───────────────────────── inheritance ─────────────────────────

/// Whether two computed colours are the same colour.
pub fn computed_color_eq(a: &Color, b: &Color) -> (r: bool)
    ensures
        r == (*a == *b),
{
    match (a, b) {
        (Color::Rgba(r1, g1, b1, a1), Color::Rgba(r2, g2, b2, a2)) => *r1 == *r2 && *g1 == *g2 && *b1
            == *b2 && *a1 == *a2,
        (Color::CurrentColor, Color::CurrentColor) => true,
        _ => false,
    }
}

/// `child` after inheriting from `parent`: each inherited property
/// (`color`, `font-family`, `font-weight`, `font-style`, `text-align`,
/// `visibility`) that still has its initial value takes the parent's.
pub open spec fn inherit_spec(child: ComputedStyleView, parent: ComputedStyleView) -> ComputedStyleView {
    let init = initial_style_spec();
    ComputedStyleView {
        color: if child.color == init.color { parent.color } else { child.color },
        font_family: if child.font_family == init.font_family {
            parent.font_family
        } else {
            child.font_family
        },
        font_weight: if child.font_weight == init.font_weight {
            parent.font_weight
        } else {
            child.font_weight
        },
        font_style: if child.font_style == init.font_style {
            parent.font_style
        } else {
            child.font_style
        },
        text_align: if child.text_align == init.text_align {
            parent.text_align
        } else {
            child.text_align
        },
        visibility: if child.visibility == init.visibility {
            parent.visibility
        } else {
            child.visibility
        },
        ..child
    }
}

/// Makes `child` inherit from `parent` (see [`inherit_spec`]).
pub fn inherit_from(child: &mut ComputedStyle, parent: &ComputedStyle)
    ensures
        final(child)@ == inherit_spec(old(child)@, parent@),
{
    let initial = ComputedStyle::initial();
    if computed_color_eq(&child.color, &initial.color) {
        child.color = parent.color;
    }
    if crate::text::str_eq(child.font_family.as_str(), initial.font_family.as_str()) {
        child.font_family = copy_str(parent.font_family.as_str());
    }
    if child.font_weight == initial.font_weight {
        child.font_weight = parent.font_weight;
    }
    if child.font_style == initial.font_style {
        child.font_style = parent.font_style;
    }
    if child.text_align == initial.text_align {
        child.text_align = parent.text_align;
    }
    if child.visibility == initial.visibility {
        child.visibility = parent.visibility;
    }
}

// ───────────────────────── rules ─────────────────────────

/// A parsed selector: its components in match order and its specificity.
#[derive(Debug)]
pub struct SelectorSource {
    pub tokens: Vec<SelectorToken>,
    pub specificity: u32,
}

/// The at-rules that the supported subset refuses.
#[derive(Debug, Clone, Copy, PartialEq, Eq, Structural)]
pub enum AtRuleKind {
    Media,
    Supports,
    FontFace,
    Keyframes,
    Page,
    Container,
}

/// One rule of a parsed style sheet.
#[derive(Debug)]
pub enum RuleToken {
    /// A style rule: its selector list, its normal and `!important`
    /// declarations, and `block`, a number by which the caller finds the
    /// rule's declaration block again.
    Style { selectors: Vec<SelectorSource>, normal: Vec<Declaration>, important: Vec<Declaration>, block: usize },
    /// A refused at-rule.
    Unsupported(AtRuleKind),
    /// `@import`, `@namespace`, a `@layer` statement or `@property`: no
    /// matchable rules.
    Ignored,
    /// A `@layer` block and its rules.
    LayerBlock(Vec<RuleToken>),
    /// Any other rule.
    Unknown,
}

/// One compiled style rule (one per selector of a style rule).
#[derive(Debug)]
pub struct CompiledRule {
    pub selector: MatchSelector,
    pub normal: Vec<Declaration>,
    pub important: Vec<Declaration>,
    /// Position of the selector among all selectors of the sheets.
    pub source_order: u32,
    /// The `block` number of the style rule it comes from.
    pub block: usize,
}

pub struct CompiledRuleView {
    pub selector: SelectorView,
    pub specificity: u32,
    pub normal: Seq<Declaration>,
    pub important: Seq<Declaration>,
    pub source_order: u32,
    pub block: usize,
}

impl View for CompiledRule {
    type V = CompiledRuleView;

    open spec fn view(&self) -> CompiledRuleView {
        CompiledRuleView {
            selector: self.selector.view_parts(),
            specificity: self.selector.specificity,
            normal: self.normal@,
            important: self.important@,
            source_order: self.source_order,
            block: self.block,
        }
    }
}

/// The views of a list of compiled rules.
pub open spec fn rule_views(rs: Seq<CompiledRule>) -> Seq<CompiledRuleView> {
    rs.map_values(|r: CompiledRule| r@)
}

/// Every compiled rule's selector is well formed.
pub open spec fn rules_wf(rs: Seq<CompiledRule>) -> bool {
    forall|i: int| 0 <= i < rs.len() ==> (#[trigger] rs[i]).selector.wf()
}

/// The error for an unsupported feature, without location.
pub open spec fn unsupported_view(f: Seq<char>) -> ErrorView {
    ErrorView::UnsupportedCss { feature: f, location: None }
}

/// The name of a refused at-rule.
pub open spec fn rule_name_spec(k: AtRuleKind) -> Seq<char> {
    match k {
        AtRuleKind::Media => "@media"@,
        AtRuleKind::Supports => "@supports"@,
        AtRuleKind::FontFace => "@font-face"@,
        AtRuleKind::Keyframes => "@keyframes"@,
        AtRuleKind::Page => "@page"@,
        AtRuleKind::Container => "@container"@,
    }
}

/// The name of a refused at-rule.
pub fn rule_name(k: AtRuleKind) -> (s: &'static str)
    ensures
        s@ == rule_name_spec(k),
{
    match k {
        AtRuleKind::Media => "@media",
        AtRuleKind::Supports => "@supports",
        AtRuleKind::FontFace => "@font-face",
        AtRuleKind::Keyframes => "@keyframes",
        AtRuleKind::Page => "@page",
        AtRuleKind::Container => "@container",
    }
}

/// Compiling the selectors `sels` of one style rule, numbering them from
/// `counter`: one compiled rule per selector, or the first selector's error.
pub open spec fn style_rule_spec(
    sels: Seq<SelectorSource>,
    normal: Seq<Declaration>,
    important: Seq<Declaration>,
    block: usize,
    counter: int,
) -> Result<Seq<CompiledRuleView>, ErrorView>
    decreases sels.len(),
{
    if sels.len() == 0 {
        Ok(Seq::empty())
    } else {
        match style_rule_spec(sels.drop_last(), normal, important, block, counter) {
            Err(e) => Err(e),
            Ok(prev) => match compile_spec(sels.last().tokens@) {
                Err(f) => Err(unsupported_view(f)),
                Ok(sv) => Ok(
                    prev.push(
                        CompiledRuleView {
                            selector: sv,
                            specificity: sels.last().specificity,
                            normal,
                            important,
                            source_order: (counter + prev.len()) as u32,
                            block,
                        },
                    ),
                ),
            },
        }
    }
}

/// The number of selectors of the style rules in `rules`, `@layer` blocks
/// included.
pub open spec fn selector_count(rules: Seq<RuleToken>) -> nat
    decreases rules,
{
    if rules.len() == 0 {
        0
    } else {
        selector_count(rules.drop_last()) + match rules.last() {
            RuleToken::Style { selectors, .. } => selectors@.len(),
            RuleToken::LayerBlock(inner) => selector_count(inner@),
            _ => 0,
        }
    }
}

/// Compiling the rules `rules` in order, numbering selectors from
/// `counter`: the compiled rules, or the first refusal.
pub open spec fn walk_spec(rules: Seq<RuleToken>, counter: int) -> Result<Seq<CompiledRuleView>, ErrorView>
    decreases rules,
{
    if rules.len() == 0 {
        Ok(Seq::empty())
    } else {
        match walk_spec(rules.drop_last(), counter) {
            Err(e) => Err(e),
            Ok(prev) => {
                let c = counter + prev.len();
                match rules.last() {
                    RuleToken::Style { selectors, normal, important, block } => match style_rule_spec(
                        selectors@,
                        normal@,
                        important@,
                        block,
                        c,
                    ) {
                        Ok(more) => Ok(prev + more),
                        Err(e) => Err(e),
                    },
                    RuleToken::Unsupported(k) => Err(unsupported_view("@-rule: "@ + rule_name_spec(k))),
                    RuleToken::Ignored => Ok(prev),
                    RuleToken::LayerBlock(inner) => match walk_spec(inner@, c) {
                        Ok(more) => Ok(prev + more),
                        Err(e) => Err(e),
                    },
                    RuleToken::Unknown => Err(unsupported_view("unknown CSS rule"@)),
                }
            },
        }
    }
}

proof fn lemma_style_rule_len(
    sels: Seq<SelectorSource>,
    normal: Seq<Declaration>,
    important: Seq<Declaration>,
    block: usize,
    counter: int,
)
    ensures
        style_rule_spec(sels, normal, important, block, counter) matches Ok(more) ==> more.len() == sels.len(),
    decreases sels.len(),
{
    if sels.len() > 0 {
        lemma_style_rule_len(sels.drop_last(), normal, important, block, counter);
    }
}

proof fn lemma_style_rule_err(
    sels: Seq<SelectorSource>,
    normal: Seq<Declaration>,
    important: Seq<Declaration>,
    block: usize,
    counter: int,
    k: int,
)
    requires
        0 <= k <= sels.len(),
        style_rule_spec(sels.take(k), normal, important, block, counter) is Err,
    ensures
        style_rule_spec(sels, normal, important, block, counter) == style_rule_spec(
            sels.take(k),
            normal,
            important,
            block,
            counter,
        ),
    decreases sels.len(),
{
    if k < sels.len() {
        assert(sels.drop_last().take(k) =~= sels.take(k));
        lemma_style_rule_err(sels.drop_last(), normal, important, block, counter, k);
    } else {
        assert(sels.take(k) =~= sels);
    }
}

proof fn lemma_walk_len(rules: Seq<RuleToken>, counter: int)
    ensures
        walk_spec(rules, counter) matches Ok(more) ==> more.len() == selector_count(rules),
    decreases rules,
{
    if rules.len() > 0 {
        lemma_walk_len(rules.drop_last(), counter);
        if let Ok(prev) = walk_spec(rules.drop_last(), counter) {
            let c = counter + prev.len();
            match rules.last() {
                RuleToken::Style { selectors, normal, important, block } => {
                    lemma_style_rule_len(selectors@, normal@, important@, block, c);
                },
                RuleToken::LayerBlock(inner) => {
                    lemma_walk_len(inner@, c);
                },
                _ => {},
            }
        }
    }
}

proof fn lemma_walk_err(rules: Seq<RuleToken>, counter: int, k: int)
    requires
        0 <= k <= rules.len(),
        walk_spec(rules.take(k), counter) is Err,
    ensures
        walk_spec(rules, counter) == walk_spec(rules.take(k), counter),
    decreases rules.len(),
{
    if k < rules.len() {
        assert(rules.drop_last().take(k) =~= rules.take(k));
        lemma_walk_err(rules.drop_last(), counter, k);
    } else {
        assert(rules.take(k) =~= rules);
    }
}

proof fn lemma_selector_count_prefix(rules: Seq<RuleToken>, k: int)
    requires
        0 <= k <= rules.len(),
    ensures
        selector_count(rules.take(k)) <= selector_count(rules),
    decreases rules.len(),
{
    if k < rules.len() {
        assert(rules.drop_last().take(k) =~= rules.take(k));
        lemma_selector_count_prefix(rules.drop_last(), k);
    } else {
        assert(rules.take(k) =~= rules);
    }
}

/// Compiles the selectors of one style rule into `out`, numbering them
/// from `counter`.
fn compile_style_rule(
    selectors: &Vec<SelectorSource>,
    normal: &Vec<Declaration>,
    important: &Vec<Declaration>,
    block: usize,
    out: &mut Vec<CompiledRule>,
    counter: &mut u32,
) -> (r: Result<(), LayoutError>)
    requires
        *old(counter) + selectors@.len() <= u32::MAX,
        rules_wf(old(out)@),
    ensures
        rules_wf(final(out)@),
        r is Ok ==> (style_rule_spec(selectors@, normal@, important@, block, *old(counter) as int) matches Ok(more)
            && rule_views(final(out)@) == rule_views(old(out)@) + more && *final(counter) == *old(counter)
            + more.len()),
        r matches Err(e) ==> style_rule_spec(selectors@, normal@, important@, block, *old(counter) as int)
            == Err::<Seq<CompiledRuleView>, ErrorView>(e@),
{
    let ghost c0 = *counter as int;
    let ghost out0 = rule_views(out@);
    let ghost mut added: Seq<CompiledRuleView> = Seq::empty();
    let mut j: usize = 0;
    proof {
        assert(selectors@.take(0) =~= Seq::<SelectorSource>::empty());
        assert(rule_views(out@) =~= out0 + added);
    }
    while j < selectors.len()
        invariant
            j <= selectors.len(),
            c0 == *old(counter),
            out0 == rule_views(old(out)@),
            c0 + selectors@.len() <= u32::MAX,
            style_rule_spec(selectors@.take(j as int), normal@, important@, block, c0)
                == Ok::<Seq<CompiledRuleView>, ErrorView>(added),
            added.len() == j,
            rule_views(out@) == out0 + added,
            *counter == c0 + j,
            rules_wf(out@),
        decreases selectors.len() - j,
    {
        proof {
            assert(selectors@.take(j + 1).drop_last() =~= selectors@.take(j as int));
            assert(selectors@.take(j + 1).last() == selectors@[j as int]);
        }
        match compile(&selectors[j].tokens, selectors[j].specificity) {
            Ok(sel) => {
                let ghost before = out@;
                out.push(
                    CompiledRule {
                        selector: sel,
                        normal: copy_declarations(normal),
                        important: copy_declarations(important),
                        source_order: *counter,
                        block,
                    },
                );
                proof {
                    let nv = out@.last()@;
                    added = added.push(nv);
                    assert(rule_views(out@) =~= rule_views(before).push(nv));
                    assert(rule_views(out@) =~= out0 + added);
                    assert forall|i: int| 0 <= i < out@.len() implies (#[trigger] out@[i]).selector.wf() by {
                        if i < before.len() {
                            assert(out@[i] == before[i]);
                        }
                    }
                }
                *counter = *counter + 1;
            },
            Err(e) => {
                proof {
                    lemma_style_rule_err(selectors@, normal@, important@, block, c0, j + 1);
                }
                return Err(e);
            },
        }
        j += 1;
    }
    proof {
        assert(selectors@.take(selectors.len() as int) =~= selectors@);
    }
    Ok(())
}

/// Compiles the style rules of `rules` (descending into `@layer` blocks)
/// into `out`, numbering selectors from `counter`. Refused at-rules and
/// unknown rules stop the walk with `UnsupportedCss`.
pub fn walk_rules(rules: &Vec<RuleToken>, out: &mut Vec<CompiledRule>, counter: &mut u32) -> (r: Result<(), LayoutError>)
    requires
        *old(counter) + selector_count(rules@) <= u32::MAX,
        rules_wf(old(out)@),
    ensures
        rules_wf(final(out)@),
        r is Ok ==> (walk_spec(rules@, *old(counter) as int) matches Ok(more) && rule_views(final(out)@)
            == rule_views(old(out)@) + more && *final(counter) == *old(counter) + more.len()),
        r matches Err(e) ==> walk_spec(rules@, *old(counter) as int) == Err::<Seq<CompiledRuleView>, ErrorView>(e@),
    decreases rules@,
{
    let ghost c0 = *counter as int;
    let ghost out0 = rule_views(out@);
    let ghost mut added: Seq<CompiledRuleView> = Seq::empty();
    let mut i: usize = 0;
    proof {
        assert(rules@.take(0) =~= Seq::<RuleToken>::empty());
        assert(rule_views(out@) =~= out0 + added);
    }
    while i < rules.len()
        invariant
            i <= rules.len(),
            c0 == *old(counter),
            out0 == rule_views(old(out)@),
            c0 + selector_count(rules@) <= u32::MAX,
            walk_spec(rules@.take(i as int), c0) == Ok::<Seq<CompiledRuleView>, ErrorView>(added),
            added.len() == selector_count(rules@.take(i as int)),
            rule_views(out@) == out0 + added,
            *counter == c0 + added.len(),
            rules_wf(out@),
        decreases rules.len() - i,
    {
        proof {
            assert(rules@.take(i + 1).drop_last() =~= rules@.take(i as int));
            assert(rules@.take(i + 1).last() == rules@[i as int]);
            lemma_selector_count_prefix(rules@, i + 1);
        }
        let ghost c = c0 + added.len();
        match &rules[i] {
            RuleToken::Style { selectors, normal, important, block } => {
                let ghost before = rule_views(out@);
                match compile_style_rule(selectors, normal, important, *block, out, counter) {
                    Ok(_) => {
                        proof {
                            let more = style_rule_spec(selectors@, normal@, important@, *block, c)->Ok_0;
                            lemma_style_rule_len(selectors@, normal@, important@, *block, c);
                            assert(rule_views(out@) =~= out0 + (added + more));
                            added = added + more;
                        }
                    },
                    Err(e) => {
                        proof {
                            lemma_walk_err(rules@, c0, i + 1);
                        }
                        return Err(e);
                    },
                }
            },
            RuleToken::Unsupported(k) => {
                let mut feature = copy_str("@-rule: ");
                feature.append(rule_name(*k));
                proof {
                    lemma_walk_err(rules@, c0, i + 1);
                }
                return Err(LayoutError::UnsupportedCss { feature, location: None });
            },
            RuleToken::Ignored => {},
            RuleToken::LayerBlock(inner) => {
                proof {
                    assert(decreases_to!(rules@ => rules@[i as int]));
                }
                match walk_rules(inner, out, counter) {
                    Ok(_) => {
                        proof {
                            let more = walk_spec(inner@, c)->Ok_0;
                            lemma_walk_len(inner@, c);
                            assert(rule_views(out@) =~= out0 + (added + more));
                            added = added + more;
                        }
                    },
                    Err(e) => {
                        proof {
                            lemma_walk_err(rules@, c0, i + 1);
                        }
                        return Err(e);
                    },
                }
            },
            RuleToken::Unknown => {
                proof {
                    lemma_walk_err(rules@, c0, i + 1);
                }
                return Err(crate::selectors::unsupported("unknown CSS rule"));
            },
        }
        i += 1;
    }
    proof {
        assert(rules@.take(rules.len() as int) =~= rules@);
    }
    Ok(())
}

/// The number of selectors of the style sheets that parsed.
pub open spec fn sheets_selector_count(sheets: Seq<Result<Vec<RuleToken>, LayoutError>>) -> nat
    decreases sheets.len(),
{
    if sheets.len() == 0 {
        0
    } else {
        sheets_selector_count(sheets.drop_last()) + match sheets.last() {
            Ok(rules) => selector_count(rules@),
            Err(_) => 0,
        }
    }
}

/// Compiling the style sheets in order, numbering selectors from
/// `counter`: a sheet that failed to parse, or the first refused rule,
/// stops with its error.
pub open spec fn sheets_spec(sheets: Seq<Result<Vec<RuleToken>, LayoutError>>, counter: int) -> Result<
    Seq<CompiledRuleView>,
    ErrorView,
>
    decreases sheets.len(),
{
    if sheets.len() == 0 {
        Ok(Seq::empty())
    } else {
        match sheets_spec(sheets.drop_last(), counter) {
            Err(e) => Err(e),
            Ok(prev) => match sheets.last() {
                Err(e) => Err(e@),
                Ok(rules) => match walk_spec(rules@, counter + prev.len()) {
                    Ok(more) => Ok(prev + more),
                    Err(e) => Err(e),
                },
            },
        }
    }
}

proof fn lemma_sheets_len(sheets: Seq<Result<Vec<RuleToken>, LayoutError>>, counter: int)
    ensures
        sheets_spec(sheets, counter) matches Ok(more) ==> more.len() == sheets_selector_count(sheets),
    decreases sheets.len(),
{
    if sheets.len() > 0 {
        lemma_sheets_len(sheets.drop_last(), counter);
        if let Ok(prev) = sheets_spec(sheets.drop_last(), counter) {
            if let Ok(rules) = sheets.last() {
                lemma_walk_len(rules@, counter + prev.len());
            }
        }
    }
}

proof fn lemma_sheets_err(sheets: Seq<Result<Vec<RuleToken>, LayoutError>>, counter: int, k: int)
    requires
        0 <= k <= sheets.len(),
        sheets_spec(sheets.take(k), counter) is Err,
    ensures
        sheets_spec(sheets, counter) == sheets_spec(sheets.take(k), counter),
    decreases sheets.len(),
{
    if k < sheets.len() {
        assert(sheets.drop_last().take(k) =~= sheets.take(k));
        lemma_sheets_err(sheets.drop_last(), counter, k);
    } else {
        assert(sheets.take(k) =~= sheets);
    }
}

proof fn lemma_sheets_count_prefix(sheets: Seq<Result<Vec<RuleToken>, LayoutError>>, k: int)
    requires
        0 <= k <= sheets.len(),
    ensures
        sheets_selector_count(sheets.take(k)) <= sheets_selector_count(sheets),
    decreases sheets.len(),
{
    if k < sheets.len() {
        assert(sheets.drop_last().take(k) =~= sheets.take(k));
        lemma_sheets_count_prefix(sheets.drop_last(), k);
    } else {
        assert(sheets.take(k) =~= sheets);
    }
}

/// Compiles the rules of all style sheets, in order. Each entry is a parsed
/// sheet, or the error its parse ended with.
pub fn compile_sheets(sheets: &Vec<Result<Vec<RuleToken>, LayoutError>>) -> (r: Result<Vec<CompiledRule>, LayoutError>)
    requires
        sheets_selector_count(sheets@) <= u32::MAX,
    ensures
        match r {
            Ok(rs) => sheets_spec(sheets@, 0) == Ok::<Seq<CompiledRuleView>, ErrorView>(rule_views(rs@))
                && rules_wf(rs@),
            Err(e) => sheets_spec(sheets@, 0) == Err::<Seq<CompiledRuleView>, ErrorView>(e@),
        },
{
    let mut out: Vec<CompiledRule> = Vec::new();
    let mut counter: u32 = 0;
    let mut i: usize = 0;
    proof {
        assert(sheets@.take(0) =~= Seq::<Result<Vec<RuleToken>, LayoutError>>::empty());
        assert(rule_views(out@) =~= Seq::<CompiledRuleView>::empty());
    }
    while i < sheets.len()
        invariant
            i <= sheets.len(),
            sheets_selector_count(sheets@) <= u32::MAX,
            sheets_spec(sheets@.take(i as int), 0) == Ok::<Seq<CompiledRuleView>, ErrorView>(rule_views(out@)),
            rule_views(out@).len() == sheets_selector_count(sheets@.take(i as int)),
            counter == out@.len(),
            rules_wf(out@),
        decreases sheets.len() - i,
    {
        proof {
            assert(sheets@.take(i + 1).drop_last() =~= sheets@.take(i as int));
            assert(sheets@.take(i + 1).last() == sheets@[i as int]);
            lemma_sheets_count_prefix(sheets@, i + 1);
        }
        match &sheets[i] {
            Ok(rules) => {
                let ghost before = rule_views(out@);
                match walk_rules(rules, &mut out, &mut counter) {
                    Ok(_) => {
                        proof {
                            lemma_walk_len(rules@, before.len() as int);
                            assert(rule_views(out@).len() == out@.len());
                        }
                    },
                    Err(e) => {
                        proof {
                            lemma_sheets_err(sheets@, 0, i + 1);
                        }
                        return Err(e);
                    },
                }
            },
            Err(e) => {
                proof {
                    lemma_sheets_err(sheets@, 0, i + 1);
                }
                return Err(e.duplicate());
            },
        }
        i += 1;
    }
    proof {
        assert(sheets@.take(sheets.len() as int) =~= sheets@);
    }
    Ok(out)
}

// ───────────────────────── matching rules, in cascade order ─────────────────────────

/// Rule `i` comes no later than rule `j` in cascade order: lower
/// specificity first, then earlier source order.
pub open spec fn cascade_le(rs: Seq<CompiledRuleView>, i: usize, j: usize) -> bool {
    ||| rs[i as int].specificity < rs[j as int].specificity
    ||| (rs[i as int].specificity == rs[j as int].specificity && rs[i as int].source_order
        <= rs[j as int].source_order)
}

/// The indices below `n` of the rules whose selector matches `id`, in
/// increasing order.
pub open spec fn matched_prefix(m: Map<NodeId, NodeData>, rs: Seq<CompiledRuleView>, id: NodeId, n: int) -> Seq<usize>
    decreases n,
{
    if n <= 0 {
        Seq::empty()
    } else {
        let prev = matched_prefix(m, rs, id, n - 1);
        if selector_matches(m, rs[n - 1].selector, id, walk_depth(m)) {
            prev.push((n - 1) as usize)
        } else {
            prev
        }
    }
}

/// `s` with `x` inserted after every entry that does not come later than it
/// (a stable insertion).
pub open spec fn insert_spec(rs: Seq<CompiledRuleView>, s: Seq<usize>, x: usize) -> Seq<usize>
    decreases s.len(),
{
    if s.len() == 0 {
        seq![x]
    } else if cascade_le(rs, s.last(), x) {
        s.push(x)
    } else {
        insert_spec(rs, s.drop_last(), x).push(s.last())
    }
}

/// `s` stably sorted into cascade order.
pub open spec fn sort_spec(rs: Seq<CompiledRuleView>, s: Seq<usize>) -> Seq<usize>
    decreases s.len(),
{
    if s.len() == 0 {
        Seq::empty()
    } else {
        insert_spec(rs, sort_spec(rs, s.drop_last()), s.last())
    }
}

/// The rules matching element `id`, in the order their declarations apply.
pub open spec fn hits_spec(m: Map<NodeId, NodeData>, rs: Seq<CompiledRuleView>, id: NodeId) -> Seq<usize> {
    sort_spec(rs, matched_prefix(m, rs, id, rs.len() as int))
}

proof fn lemma_insert_at(rs: Seq<CompiledRuleView>, s: Seq<usize>, x: usize, k: int)
    requires
        0 <= k <= s.len(),
        k == 0 || cascade_le(rs, s[k - 1], x),
        forall|j: int| k <= j < s.len() ==> !cascade_le(rs, #[trigger] s[j], x),
    ensures
        insert_spec(rs, s, x) == s.insert(k, x),
    decreases s.len(),
{
    if s.len() == 0 {
        assert(s.insert(k, x) =~= seq![x]);
    } else if k == s.len() {
        assert(s.insert(k, x) =~= s.push(x));
    } else {
        let t = s.drop_last();
        assert forall|j: int| k <= j < t.len() implies !cascade_le(rs, #[trigger] t[j], x) by {
            assert(t[j] == s[j]);
        }
        lemma_insert_at(rs, t, x, k);
        assert(t.insert(k, x).push(s.last()) =~= s.insert(k, x));
    }
}

/// Whether rule `i` comes no later than rule `j` in cascade order.
fn cascade_le_exec(rules: &Vec<CompiledRule>, i: usize, j: usize) -> (r: bool)
    requires
        i < rules.len(),
        j < rules.len(),
    ensures
        r == cascade_le(rule_views(rules@), i, j),
{
    let si = rules[i].selector.specificity();
    let sj = rules[j].selector.specificity();
    proof {
        assert(rule_views(rules@)[i as int] == rules@[i as int]@);
        assert(rule_views(rules@)[j as int] == rules@[j as int]@);
    }
    si < sj || (si == sj && rules[i].source_order <= rules[j].source_order)
}

/// Inserts rule index `x` into `hits` at its stable cascade-order place.
fn insert_in_cascade_order(rules: &Vec<CompiledRule>, hits: &mut Vec<usize>, x: usize)
    requires
        x < rules.len(),
        forall|k: int| 0 <= k < old(hits)@.len() ==> #[trigger] old(hits)@[k] < rules.len(),
    ensures
        final(hits)@ == insert_spec(rule_views(rules@), old(hits)@, x),
        exists|k: int| 0 <= k <= old(hits)@.len() && final(hits)@ == old(hits)@.insert(k, x),
{
    let mut k: usize = hits.len();
    while k > 0 && !cascade_le_exec(rules, hits[k - 1], x)
        invariant
            k <= hits.len(),
            x < rules.len(),
            forall|q: int| 0 <= q < hits@.len() ==> #[trigger] hits@[q] < rules.len(),
            forall|j: int| k <= j < hits@.len() ==> !cascade_le(rule_views(rules@), #[trigger] hits@[j], x),
        decreases k,
    {
        k -= 1;
    }
    proof {
        lemma_insert_at(rule_views(rules@), hits@, x, k as int);
    }
    hits.insert(k, x);
}

/// The indices of the rules whose selector matches element `node_id`, in
/// the order their declarations apply: by specificity, then source order.
pub fn matching_rules(doc: &Document, rules: &Vec<CompiledRule>, node_id: NodeId) -> (hits: Vec<usize>)
    requires
        doc.wf(),
        rules_wf(rules@),
    ensures
        hits@ == hits_spec(doc.nodes(), rule_views(rules@), node_id),
        forall|q: int| 0 <= q < hits@.len() ==> #[trigger] hits@[q] < rules.len(),
{
    let ghost rs = rule_views(rules@);
    let mut hits: Vec<usize> = Vec::new();
    let mut i: usize = 0;
    while i < rules.len()
        invariant
            doc.wf(),
            rules_wf(rules@),
            rs == rule_views(rules@),
            i <= rules.len(),
            hits@ == sort_spec(rs, matched_prefix(doc.nodes(), rs, node_id, i as int)),
            forall|q: int| 0 <= q < hits@.len() ==> #[trigger] hits@[q] < i,
        decreases rules.len() - i,
    {
        assert(rs[i as int] == rules@[i as int]@);
        assert(rules@[i as int].selector.wf());
        let ghost before = hits@;
        if rules[i].selector.matches(doc, node_id) {
            insert_in_cascade_order(rules, &mut hits, i);
            proof {
                let mp = matched_prefix(doc.nodes(), rs, node_id, i as int);
                assert(mp.push(i).drop_last() =~= mp);
                let k = choose|k: int| 0 <= k <= before.len() && hits@ == before.insert(k, i);
                before.insert_ensures(k, i);
                assert forall|q: int| 0 <= q < hits@.len() implies #[trigger] hits@[q] < i + 1 by {
                    if q < k {
                        assert(hits@[q] == before[q]);
                    } else if q > k {
                        assert(hits@[q] == before[q - 1]);
                    }
                }
            }
        }
        i += 1;
    }
    hits
}

// ───────────────────────── the cascade over the document ─────────────────────────

/// The normal (`important == false`) or the `!important` declarations of
/// the rules `order`, one rule after another.
pub open spec fn block_decls(rs: Seq<CompiledRuleView>, order: Seq<usize>, important: bool) -> Seq<Declaration>
    decreases order.len(),
{
    if order.len() == 0 {
        Seq::empty()
    } else {
        block_decls(rs, order.drop_last(), important) + if important {
            rs[order.last() as int].important
        } else {
            rs[order.last() as int].normal
        }
    }
}

/// The inline declarations given for element `id` (the first entry for
/// it), or none: its normal declarations (`important == false`) or its
/// `!important` ones.
pub open spec fn inline_for(
    inline: Seq<(NodeId, Vec<Declaration>, Vec<Declaration>)>,
    id: NodeId,
    important: bool,
) -> Seq<Declaration>
    decreases inline.len(),
{
    if inline.len() == 0 {
        Seq::empty()
    } else if inline[0].0 == id {
        if important {
            inline[0].2@
        } else {
            inline[0].1@
        }
    } else {
        inline_for(inline.drop_first(), id, important)
    }
}

/// The declarations that apply to element `id` when the rules `hits`
/// match it, in cascade order of origin and importance: the rules' normal
/// declarations, rule after rule, its inline normal declarations, the
/// rules' `!important` declarations, rule after rule, then its inline
/// `!important` declarations.
pub open spec fn ordered_decls(
    rs: Seq<CompiledRuleView>,
    hits: Seq<usize>,
    inline: Seq<(NodeId, Vec<Declaration>, Vec<Declaration>)>,
    id: NodeId,
) -> Seq<Declaration> {
    block_decls(rs, hits, false) + inline_for(inline, id, false) + block_decls(rs, hits, true) + inline_for(
        inline,
        id,
        true,
    )
}

/// Everything that applies to element `id`, in cascade order: see
/// [`ordered_decls`].
pub open spec fn node_decls(
    m: Map<NodeId, NodeData>,
    rs: Seq<CompiledRuleView>,
    inline: Seq<(NodeId, Vec<Declaration>, Vec<Declaration>)>,
    id: NodeId,
) -> Seq<Declaration> {
    ordered_decls(rs, hits_spec(m, rs, id), inline, id)
}

/// The computed styles of the elements of `m`.
pub open spec fn styles_of(m: Map<NodeId, NodeData>) -> Map<NodeId, ComputedStyleView> {
    Map::new(|k: NodeId| is_element_node(m, k), |k: NodeId| m[k].kind->computed@)
}

/// The style an element starts from: the initial style, inheriting from
/// the parent's computed style when the parent is an element.
pub open spec fn base_style(m: Map<NodeId, NodeData>, st: Map<NodeId, ComputedStyleView>, id: NodeId) -> ComputedStyleView {
    let p = m[id].parent;
    if p is Some && st.dom().contains(p->0) {
        inherit_spec(initial_style_spec(), st[p->0])
    } else {
        initial_style_spec()
    }
}

/// `color: currentColor` takes the inherited colour `inherited`.
pub open spec fn resolve_color_spec(s: ComputedStyleView, inherited: Color) -> ComputedStyleView {
    if s.color == Color::CurrentColor {
        ComputedStyleView { color: inherited, ..s }
    } else {
        s
    }
}

/// One step of the cascade: element `id` gets its style from its base
/// style and its declarations, a `currentColor` colour then taking the
/// inherited colour; other nodes are skipped.
pub open spec fn cascade_step(
    m: Map<NodeId, NodeData>,
    rs: Seq<CompiledRuleView>,
    inline: Seq<(NodeId, Vec<Declaration>, Vec<Declaration>)>,
    st: Map<NodeId, ComputedStyleView>,
    id: NodeId,
) -> Result<Map<NodeId, ComputedStyleView>, ErrorView> {
    if is_element_node(m, id) {
        match apply_all(base_style(m, st, id), node_decls(m, rs, inline, id)) {
            Ok(ns) => Ok(st.insert(id, resolve_color_spec(ns, base_style(m, st, id).color))),
            Err(e) => Err(e),
        }
    } else {
        Ok(st)
    }
}

/// The cascade over the nodes `order`, one after another, from the styles
/// `st`.
pub open spec fn run_spec(
    m: Map<NodeId, NodeData>,
    rs: Seq<CompiledRuleView>,
    inline: Seq<(NodeId, Vec<Declaration>, Vec<Declaration>)>,
    order: Seq<NodeId>,
    st: Map<NodeId, ComputedStyleView>,
) -> Result<Map<NodeId, ComputedStyleView>, ErrorView>
    decreases order.len(),
{
    if order.len() == 0 {
        Ok(st)
    } else {
        match run_spec(m, rs, inline, order.drop_last(), st) {
            Ok(st2) => cascade_step(m, rs, inline, st2, order.last()),
            Err(e) => Err(e),
        }
    }
}

/// The elements among `order`, in order.
pub open spec fn element_ids(m: Map<NodeId, NodeData>, order: Seq<NodeId>) -> Seq<NodeId>
    decreases order.len(),
{
    if order.len() == 0 {
        Seq::empty()
    } else if is_element_node(m, order.last()) {
        element_ids(m, order.drop_last()).push(order.last())
    } else {
        element_ids(m, order.drop_last())
    }
}

/// `m` has the nodes of `m0` with the same links, kinds, tags and
/// attributes (only computed styles may differ).
pub open spec fn same_shape(m0: Map<NodeId, NodeData>, m: Map<NodeId, NodeData>) -> bool {
    &&& m.dom() == m0.dom()
    &&& forall|k: NodeId|
        #![trigger m[k]]
        m0.dom().contains(k) ==> {
            &&& m[k].id == m0[k].id
            &&& m[k].parent == m0[k].parent
            &&& m[k].children == m0[k].children
            &&& (m[k].kind is Element <==> m0[k].kind is Element)
            &&& (m0[k].kind is Element ==> m[k].kind->tag == m0[k].kind->tag && m[k].kind->attrs
                == m0[k].kind->attrs)
            &&& (!(m0[k].kind is Element) ==> m[k].kind == m0[k].kind)
        }
}

/// One element's place in the cascade: the element and the indices of the
/// rules that apply to it, in cascade order.
#[derive(Debug)]
pub struct ElementCascade {
    pub node: NodeId,
    pub rules: Vec<usize>,
}

proof fn lemma_run_err(
    m: Map<NodeId, NodeData>,
    rs: Seq<CompiledRuleView>,
    inline: Seq<(NodeId, Vec<Declaration>, Vec<Declaration>)>,
    order: Seq<NodeId>,
    st: Map<NodeId, ComputedStyleView>,
    k: int,
)
    requires
        0 <= k <= order.len(),
        run_spec(m, rs, inline, order.take(k), st) is Err,
    ensures
        run_spec(m, rs, inline, order, st) == run_spec(m, rs, inline, order.take(k), st),
    decreases order.len(),
{
    if k < order.len() {
        assert(order.drop_last().take(k) =~= order.take(k));
        lemma_run_err(m, rs, inline, order.drop_last(), st, k);
    } else {
        assert(order.take(k) =~= order);
    }
}

proof fn lemma_block_push(rs: Seq<CompiledRuleView>, order: Seq<usize>, important: bool, j: int)
    requires
        0 <= j < order.len(),
    ensures
        block_decls(rs, order.take(j + 1), important) == block_decls(rs, order.take(j), important) + if important {
            rs[order[j] as int].important
        } else {
            rs[order[j] as int].normal
        },
{
    assert(order.take(j + 1).drop_last() =~= order.take(j));
}

proof fn lemma_block_concat(rs: Seq<CompiledRuleView>, a: Seq<usize>, b: Seq<usize>, important: bool)
    ensures
        block_decls(rs, a + b, important) == block_decls(rs, a, important) + block_decls(rs, b, important),
    decreases b.len(),
{
    if b.len() == 0 {
        assert(a + b =~= a);
        assert(block_decls(rs, a, important) + block_decls(rs, b, important) =~= block_decls(rs, a, important));
    } else {
        assert((a + b).drop_last() =~= a + b.drop_last());
        lemma_block_concat(rs, a, b.drop_last(), important);
        let x = b.last();
        let blk = if important { rs[x as int].important } else { rs[x as int].normal };
        assert(block_decls(rs, a, important) + block_decls(rs, b, important) =~= block_decls(rs, a, important)
            + block_decls(rs, b.drop_last(), important) + blk);
    }
}

/// Splitting a rule list at `j`: the blocks before, the `j`-th block, and
/// the blocks after.
proof fn lemma_block_split(rs: Seq<CompiledRuleView>, order: Seq<usize>, important: bool, j: int)
    requires
        0 <= j < order.len(),
    ensures
        block_decls(rs, order, important) == block_decls(rs, order.take(j), important) + (if important {
            rs[order[j] as int].important
        } else {
            rs[order[j] as int].normal
        }) + block_decls(rs, order.skip(j + 1), important),
{
    lemma_block_push(rs, order, important, j);
    assert(order.take(j + 1) + order.skip(j + 1) =~= order);
    lemma_block_concat(rs, order.take(j + 1), order.skip(j + 1), important);
}

/// An error met while applying `blk` after `pre` is the error of
/// `pre + blk + post`.
proof fn lemma_err_after(
    base: ComputedStyleView,
    pre: Seq<Declaration>,
    blk: Seq<Declaration>,
    post: Seq<Declaration>,
    mid: ComputedStyleView,
    e: ErrorView,
)
    requires
        apply_all(base, pre) == Ok::<ComputedStyleView, ErrorView>(mid),
        apply_all(mid, blk) == Err::<ComputedStyleView, ErrorView>(e),
    ensures
        apply_all(base, pre + blk + post) == Err::<ComputedStyleView, ErrorView>(e),
{
    lemma_apply_all_concat(base, pre, blk);
    lemma_apply_all_concat(base, pre + blk, post);
}

/// The inline declarations given for `id`, normal and `!important`: the
/// first entry for it.
fn inline_lookup<'a>(inline: &'a Vec<(NodeId, Vec<Declaration>, Vec<Declaration>)>, id: NodeId) -> (r: Option<
    (&'a Vec<Declaration>, &'a Vec<Declaration>),
>)
    ensures
        match r {
            Some((n, i)) => n@ == inline_for(inline@, id, false) && i@ == inline_for(inline@, id, true),
            None => inline_for(inline@, id, false) == Seq::<Declaration>::empty() && inline_for(inline@, id, true)
                == Seq::<Declaration>::empty(),
        },
{
    let mut i: usize = 0;
    proof {
        assert(inline@.skip(0) =~= inline@);
    }
    while i < inline.len()
        invariant
            i <= inline.len(),
            inline_for(inline@, id, false) == inline_for(inline@.skip(i as int), id, false),
            inline_for(inline@, id, true) == inline_for(inline@.skip(i as int), id, true),
        decreases inline.len() - i,
    {
        proof {
            assert(inline@.skip(i as int).drop_first() =~= inline@.skip(i + 1));
        }
        if inline[i].0 == id {
            return Some((&inline[i].1, &inline[i].2));
        }
        i += 1;
    }
    None
}

/// The computed style of element `id`: its base style (inheriting from an
/// element parent), then the declarations of the rules `hits` and its
/// inline declarations in cascade order (see [`ordered_decls`]); a
/// `currentColor` colour finally takes the inherited colour.
fn element_style(
    doc: &Document,
    rules: &Vec<CompiledRule>,
    hits: &Vec<usize>,
    inline: &Vec<(NodeId, Vec<Declaration>, Vec<Declaration>)>,
    id: NodeId,
) -> (r: Result<ComputedStyle, LayoutError>)
    requires
        doc.wf(),
        doc.nodes().dom().contains(id),
        forall|q: int| 0 <= q < hits@.len() ==> #[trigger] hits@[q] < rules.len(),
    ensures
        match r {
            Ok(st) => apply_all(
                base_style(doc.nodes(), styles_of(doc.nodes()), id),
                ordered_decls(rule_views(rules@), hits@, inline@, id),
            ) matches Ok(t) && st@ == resolve_color_spec(t, base_style(doc.nodes(), styles_of(doc.nodes()), id).color),
            Err(e) => apply_all(
                base_style(doc.nodes(), styles_of(doc.nodes()), id),
                ordered_decls(rule_views(rules@), hits@, inline@, id),
            ) == Err::<ComputedStyleView, ErrorView>(e@),
        },
{
    let ghost m = doc.nodes();
    let ghost rs = rule_views(rules@);
    let ghost inl_n = inline_for(inline@, id, false);
    let ghost inl_i = inline_for(inline@, id, true);
    let mut st = ComputedStyle::initial();
    let pid = match doc.get(id) {
        Some(n) => n.parent,
        None => None,
    };
    match pid {
        Some(p) => match doc.get(p) {
            Some(pn) => match &pn.kind {
                NodeKind::Element { computed, .. } => {
                    inherit_from(&mut st, computed);
                },
                _ => {},
            },
            None => {},
        },
        None => {},
    }
    let ghost base = st@;
    assert(base == base_style(m, styles_of(m), id));
    let inherited_color = st.color;
    let ghost normals = block_decls(rs, hits@, false);
    let ghost imps = block_decls(rs, hits@, true);
    let ghost all = ordered_decls(rs, hits@, inline@, id);
    let empty: Vec<Declaration> = Vec::new();
    let (own_normal, own_important): (&Vec<Declaration>, &Vec<Declaration>) = match inline_lookup(inline, id) {
        Some((n, i)) => (n, i),
        None => (&empty, &empty),
    };
    assert(own_normal@ == inl_n && own_important@ == inl_i);
    let mut j: usize = 0;
    proof {
        assert(hits@.take(0) =~= Seq::<usize>::empty());
    }
    while j < hits.len()
        invariant
            j <= hits.len(),
            rs == rule_views(rules@),
            base == base_style(m, styles_of(m), id),
            normals == block_decls(rs, hits@, false),
            imps == block_decls(rs, hits@, true),
            all == normals + inl_n + imps + inl_i,
            all == ordered_decls(rs, hits@, inline@, id),
            m == doc.nodes(),
            forall|q: int| 0 <= q < hits@.len() ==> #[trigger] hits@[q] < rules.len(),
            apply_all(base, block_decls(rs, hits@.take(j as int), false)) == Ok::<ComputedStyleView, ErrorView>(st@),
        decreases hits.len() - j,
    {
        let h = hits[j];
        let ghost mid = st@;
        proof {
            lemma_block_push(rs, hits@, false, j as int);
            assert(rs[h as int] == rules@[h as int]@);
            lemma_apply_all_concat(base, block_decls(rs, hits@.take(j as int), false), rs[h as int].normal);
        }
        match apply_block(&mut st, &rules[h].normal) {
            Ok(_) => {},
            Err(e) => {
                proof {
                    lemma_block_split(rs, hits@, false, j as int);
                    let post = block_decls(rs, hits@.skip(j + 1), false) + inl_n + imps + inl_i;
                    lemma_err_after(base, block_decls(rs, hits@.take(j as int), false), rs[h as int].normal, post, mid, e@);
                    assert(all =~= block_decls(rs, hits@.take(j as int), false) + rs[h as int].normal + post);
                }
                return Err(e);
            },
        }
        j += 1;
    }
    proof {
        assert(hits@.take(hits.len() as int) =~= hits@);
    }
    let ghost mid = st@;
    match apply_block(&mut st, own_normal) {
        Ok(_) => {},
        Err(e) => {
            proof {
                lemma_err_after(base, normals, inl_n, imps + inl_i, mid, e@);
                assert(all =~= normals + inl_n + (imps + inl_i));
            }
            return Err(e);
        },
    }
    let ghost pre = normals + inl_n;
    proof {
        lemma_apply_all_concat(base, normals, inl_n);
    }
    let mut j: usize = 0;
    proof {
        assert(hits@.take(0) =~= Seq::<usize>::empty());
        assert(pre + block_decls(rs, hits@.take(0), true) =~= pre);
    }
    while j < hits.len()
        invariant
            j <= hits.len(),
            rs == rule_views(rules@),
            base == base_style(m, styles_of(m), id),
            imps == block_decls(rs, hits@, true),
            all == pre + imps + inl_i,
            all == ordered_decls(rs, hits@, inline@, id),
            m == doc.nodes(),
            forall|q: int| 0 <= q < hits@.len() ==> #[trigger] hits@[q] < rules.len(),
            apply_all(base, pre + block_decls(rs, hits@.take(j as int), true)) == Ok::<ComputedStyleView, ErrorView>(
                st@,
            ),
        decreases hits.len() - j,
    {
        let h = hits[j];
        let ghost mid = st@;
        proof {
            lemma_block_push(rs, hits@, true, j as int);
            assert(rs[h as int] == rules@[h as int]@);
            lemma_apply_all_concat(base, pre + block_decls(rs, hits@.take(j as int), true), rs[h as int].important);
            assert(pre + block_decls(rs, hits@.take(j + 1), true) =~= pre + block_decls(
                rs,
                hits@.take(j as int),
                true,
            ) + rs[h as int].important);
        }
        match apply_block(&mut st, &rules[h].important) {
            Ok(_) => {},
            Err(e) => {
                proof {
                    lemma_block_split(rs, hits@, true, j as int);
                    let post = block_decls(rs, hits@.skip(j + 1), true) + inl_i;
                    let before = pre + block_decls(rs, hits@.take(j as int), true);
                    lemma_err_after(base, before, rs[h as int].important, post, mid, e@);
                    assert(all =~= before + rs[h as int].important + post);
                }
                return Err(e);
            },
        }
        j += 1;
    }
    proof {
        assert(hits@.take(hits.len() as int) =~= hits@);
        lemma_apply_all_concat(base, pre + imps, inl_i);
    }
    match apply_block(&mut st, own_important) {
        Ok(_) => {},
        Err(e) => {
            return Err(e);
        },
    }
    let c = st.color;
    match c {
        Color::CurrentColor => {
            st.color = inherited_color;
        },
        _ => {},
    }
    Ok(st)
}

/// `cas` lists the elements among `order`, in order, each with the
/// indices of the rules that apply to it in cascade order.
pub open spec fn listing_ok(
    cas: Seq<ElementCascade>,
    m: Map<NodeId, NodeData>,
    rs: Seq<CompiledRuleView>,
    order: Seq<NodeId>,
) -> bool {
    &&& cas.len() == element_ids(m, order).len()
    &&& forall|j: int|
        0 <= j < cas.len() ==> (#[trigger] cas[j]).node == element_ids(m, order)[j] && cas[j].rules@ == hits_spec(
            m,
            rs,
            cas[j].node,
        )
}

/// A copy of a list of rule indices.
fn copy_indices(v: &Vec<usize>) -> (r: Vec<usize>)
    ensures
        r@ == v@,
{
    let mut r: Vec<usize> = Vec::new();
    let mut i: usize = 0;
    while i < v.len()
        invariant
            i <= v.len(),
            r@ == v@.take(i as int),
        decreases v.len() - i,
    {
        r.push(v[i]);
        proof {
            assert(v@.take(i + 1) =~= v@.take(i as int).push(v@[i as int]));
        }
        i += 1;
    }
    proof {
        assert(v@.take(v.len() as int) =~= v@);
    }
    r
}

/// Computes the style of every element of `doc`, parents before children:
/// see [`cascade_step`]. Returns, for each element in that order, the
/// rules applied to it. The first declaration that cannot be applied stops
/// the run with its error.
pub fn apply_cascade(
    doc: &mut Document,
    rules: &Vec<CompiledRule>,
    inline: &Vec<(NodeId, Vec<Declaration>, Vec<Declaration>)>,
) -> (r: Result<Vec<ElementCascade>, LayoutError>)
    requires
        old(doc).wf(),
        rules_wf(rules@),
    ensures
        final(doc).wf(),
        final(doc).root_id() == old(doc).root_id(),
        same_shape(old(doc).nodes(), final(doc).nodes()),
        match r {
            Ok(cas) => {
                &&& run_spec(
                    old(doc).nodes(),
                    rule_views(rules@),
                    inline@,
                    document_order(*old(doc)),
                    styles_of(old(doc).nodes()),
                ) == Ok::<Map<NodeId, ComputedStyleView>, ErrorView>(styles_of(final(doc).nodes()))
                &&& listing_ok(cas@, old(doc).nodes(), rule_views(rules@), document_order(*old(doc)))
            },
            Err(e) => {
                &&& run_spec(
                    old(doc).nodes(),
                    rule_views(rules@),
                    inline@,
                    document_order(*old(doc)),
                    styles_of(old(doc).nodes()),
                ) == Err::<Map<NodeId, ComputedStyleView>, ErrorView>(e@)
                &&& exists|k: int|
                    0 <= k < document_order(*old(doc)).len() && run_spec(
                        old(doc).nodes(),
                        rule_views(rules@),
                        inline@,
                        #[trigger] document_order(*old(doc)).take(k),
                        styles_of(old(doc).nodes()),
                    ) == Ok::<Map<NodeId, ComputedStyleView>, ErrorView>(styles_of(final(doc).nodes()))
            },
        },
{
    let ghost m0 = doc.nodes();
    let ghost d0 = *doc;
    let ghost rs = rule_views(rules@);
    let order = topological_order(doc);
    let mut all_hits: Vec<Vec<usize>> = Vec::new();
    let mut k: usize = 0;
    while k < order.len()
        invariant
            k <= order.len(),
            doc.wf(),
            m0 == doc.nodes(),
            rs == rule_views(rules@),
            rules_wf(rules@),
            all_hits@.len() == k,
            forall|q: int|
                0 <= q < k ==> is_element_node(m0, order@[q]) ==> (#[trigger] all_hits@[q])@ == hits_spec(
                    m0,
                    rs,
                    order@[q],
                ),
            forall|q: int, t: int|
                0 <= q < k && 0 <= t < all_hits@[q]@.len() ==> #[trigger] all_hits@[q]@[t] < rules.len(),
        decreases order.len() - k,
    {
        let id = order[k];
        let is_el = match doc.get(id) {
            Some(n) => n.kind.is_element(),
            None => false,
        };
        if is_el {
            all_hits.push(matching_rules(doc, rules, id));
        } else {
            all_hits.push(Vec::new());
        }
        k += 1;
    }
    let ghost root0 = doc.root_id();
    let mut out: Vec<ElementCascade> = Vec::new();
    let mut k: usize = 0;
    proof {
        assert(order@.take(0) =~= Seq::<NodeId>::empty());
        assert(styles_of(doc.nodes()) =~= styles_of(m0));
    }
    while k < order.len()
        invariant
            k <= order.len(),
            doc.wf(),
            doc.root_id() == root0,
            same_shape(m0, doc.nodes()),
            rs == rule_views(rules@),
            m0 == old(doc).nodes(),
            root0 == old(doc).root_id(),
            d0 == *old(doc),
            order@ == document_order(d0),
            all_hits@.len() == order.len(),
            forall|q: int|
                0 <= q < order.len() ==> is_element_node(m0, order@[q]) ==> (#[trigger] all_hits@[q])@
                    == hits_spec(m0, rs, order@[q]),
            forall|q: int, t: int|
                0 <= q < order.len() && 0 <= t < all_hits@[q]@.len() ==> #[trigger] all_hits@[q]@[t]
                    < rules.len(),
            run_spec(m0, rs, inline@, order@.take(k as int), styles_of(m0))
                == Ok::<Map<NodeId, ComputedStyleView>, ErrorView>(styles_of(doc.nodes())),
            listing_ok(out@, m0, rs, order@.take(k as int)),
        decreases order.len() - k,
    {
        let id = order[k];
        let ghost m = doc.nodes();
        let ghost st = styles_of(m);
        proof {
            assert(order@.take(k + 1).drop_last() =~= order@.take(k as int));
            assert(order@.take(k + 1).last() == id);
        }
        let is_el = match doc.get(id) {
            Some(n) => n.kind.is_element(),
            None => false,
        };
        proof {
            if m0.dom().contains(id) {
                assert(m[id].kind is Element <==> m0[id].kind is Element);
            }
        }
        if is_el {
            proof {
                assert(m[id].parent == m0[id].parent);
                assert(base_style(m, st, id) == base_style(m0, st, id));
            }
            match element_style(doc, rules, &all_hits[k], inline, id) {
                Ok(style) => {
                    let ghost sv = style@;
                    doc.set_computed(id, style);
                    proof {
                        let m2 = doc.nodes();
                        assert(styles_of(m2) =~= st.insert(id, sv));
                    }
                    let ghost before = out@;
                    out.push(ElementCascade { node: id, rules: copy_indices(&all_hits[k]) });
                    proof {
                        assert forall|j: int| 0 <= j < out@.len() implies (#[trigger] out@[j]).node
                            == element_ids(m0, order@.take(k + 1))[j] && out@[j].rules@ == hits_spec(
                            m0,
                            rs,
                            out@[j].node,
                        ) by {
                            if j < before.len() {
                                assert(out@[j] == before[j]);
                            }
                        }
                    }
                },
                Err(e) => {
                    proof {
                        lemma_run_err(m0, rs, inline@, order@, styles_of(m0), k + 1);
                        assert(run_spec(m0, rs, inline@, order@.take(k as int), styles_of(m0))
                            == Ok::<Map<NodeId, ComputedStyleView>, ErrorView>(styles_of(doc.nodes())));
                    }
                    return Err(e);
                },
            }
        }
        k += 1;
    }
    proof {
        assert(order@.take(order.len() as int) =~= order@);
    }
    Ok(out)
}

// ───────────────────────── the whole run ─────────────────────────

/// The result of a cascade run: the compiled rules, and for each element,
/// parents first, the indices of the rules applied to it.
#[derive(Debug)]
pub struct CascadeResult {
    pub rules: Vec<CompiledRule>,
    pub elements: Vec<ElementCascade>,
}

/// What a cascade run over `sheets` and `inline` leaves, from document
/// `d0` to `d1` with result `r`: the tree's shape is kept; a sheet error is
/// returned with the document unchanged; otherwise the computed styles are
/// those of [`run_spec`] (as far as it got, on an error) and the result
/// lists the compiled rules and each element's applied rules.
pub open spec fn run_post(
    d0: Document,
    d1: Document,
    sheets: Seq<Result<Vec<RuleToken>, LayoutError>>,
    inline: Seq<(NodeId, Vec<Declaration>, Vec<Declaration>)>,
    r: Result<CascadeResult, LayoutError>,
) -> bool {
    &&& d1.wf()
    &&& d1.root_id() == d0.root_id()
    &&& same_shape(d0.nodes(), d1.nodes())
    &&& sheets_spec(sheets, 0) matches Err(e) ==> r matches Err(e2) && e2@ == e && d1.nodes() == d0.nodes()
    &&& sheets_spec(sheets, 0) matches Ok(rs) ==> match r {
        Ok(res) => {
            &&& rule_views(res.rules@) == rs
            &&& run_spec(d0.nodes(), rs, inline, document_order(d0), styles_of(d0.nodes()))
                == Ok::<Map<NodeId, ComputedStyleView>, ErrorView>(styles_of(d1.nodes()))
            &&& listing_ok(res.elements@, d0.nodes(), rs, document_order(d0))
        },
        Err(e) => {
            &&& run_spec(d0.nodes(), rs, inline, document_order(d0), styles_of(d0.nodes()))
                == Err::<Map<NodeId, ComputedStyleView>, ErrorView>(e@)
            &&& exists|k: int|
                0 <= k < document_order(d0).len() && run_spec(
                    d0.nodes(),
                    rs,
                    inline,
                    #[trigger] document_order(d0).take(k),
                    styles_of(d0.nodes()),
                ) == Ok::<Map<NodeId, ComputedStyleView>, ErrorView>(styles_of(d1.nodes()))
        },
    }
}

/// Runs the cascade: compiles the style sheets (see [`compile_sheets`]),
/// then computes every element's style (see [`apply_cascade`]). A sheet
/// error leaves the document unchanged.
pub fn run(
    doc: &mut Document,
    sheets: &Vec<Result<Vec<RuleToken>, LayoutError>>,
    inline: &Vec<(NodeId, Vec<Declaration>, Vec<Declaration>)>,
) -> (r: Result<CascadeResult, LayoutError>)
    requires
        old(doc).wf(),
        sheets_selector_count(sheets@) <= u32::MAX,
    ensures
        run_post(*old(doc), *final(doc), sheets@, inline@, r),
{
    let rules = match compile_sheets(sheets) {
        Ok(rules) => rules,
        Err(e) => {
            proof {
                assert(same_shape(doc.nodes(), doc.nodes()));
            }
            return Err(e);
        },
    };
    match apply_cascade(doc, &rules, inline) {
        Ok(elements) => Ok(CascadeResult { rules, elements }),
        Err(e) => Err(e),
    }
}

/// One more than the largest selector number.
pub open spec fn selector_limit() -> nat {
    0x1_0000_0000
}

/// `n`, capped at [`selector_limit`].
pub open spec fn capped(n: int) -> int {
    if n < selector_limit() {
        n
    } else {
        selector_limit() as int
    }
}

/// `acc` plus the number of selectors of `rules`, capped at
/// [`selector_limit`].
fn count_rule_selectors(rules: &Vec<RuleToken>, acc: u64) -> (n: u64)
    requires
        acc <= selector_limit(),
    ensures
        n == capped(acc + selector_count(rules@)),
    decreases rules@,
{
    let limit: u64 = 0x1_0000_0000;
    let mut n: u64 = acc;
    let mut i: usize = 0;
    proof {
        assert(rules@.take(0) =~= Seq::<RuleToken>::empty());
    }
    while i < rules.len()
        invariant
            i <= rules.len(),
            acc <= selector_limit(),
            limit == selector_limit(),
            n == capped(acc + selector_count(rules@.take(i as int))),
        decreases rules.len() - i,
    {
        proof {
            assert(rules@.take(i + 1).drop_last() =~= rules@.take(i as int));
            assert(rules@.take(i + 1).last() == rules@[i as int]);
        }
        match &rules[i] {
            RuleToken::Style { selectors, .. } => {
                let k = selectors.len() as u64;
                if k >= limit - n {
                    n = limit;
                } else {
                    n = n + k;
                }
            },
            RuleToken::LayerBlock(inner) => {
                proof {
                    assert(decreases_to!(rules@ => rules@[i as int]));
                }
                n = count_rule_selectors(inner, n);
                proof {
                    if acc + selector_count(rules@.take(i as int)) >= selector_limit() {
                        assert(capped(capped(acc + selector_count(rules@.take(i as int))) + selector_count(inner@))
                            == selector_limit());
                    }
                }
            },
            _ => {},
        }
        i += 1;
    }
    proof {
        assert(rules@.take(rules.len() as int) =~= rules@);
    }
    n
}

/// The number of selectors of the style sheets that parsed, capped at
/// [`selector_limit`].
pub fn capped_selector_count(sheets: &Vec<Result<Vec<RuleToken>, LayoutError>>) -> (n: u64)
    ensures
        n == capped(sheets_selector_count(sheets@) as int),
{
    let mut n: u64 = 0;
    let mut i: usize = 0;
    proof {
        assert(sheets@.take(0) =~= Seq::<Result<Vec<RuleToken>, LayoutError>>::empty());
    }
    while i < sheets.len()
        invariant
            i <= sheets.len(),
            n == capped(sheets_selector_count(sheets@.take(i as int)) as int),
        decreases sheets.len() - i,
    {
        proof {
            assert(sheets@.take(i + 1).drop_last() =~= sheets@.take(i as int));
            assert(sheets@.take(i + 1).last() == sheets@[i as int]);
        }
        match &sheets[i] {
            Ok(rules) => {
                n = count_rule_selectors(rules, n);
                proof {
                    if sheets_selector_count(sheets@.take(i as int)) >= selector_limit() {
                        assert(capped(capped(sheets_selector_count(sheets@.take(i as int)) as int) + selector_count(rules@))
                            == selector_limit());
                    }
                }
            },
            Err(_) => {},
        }
        i += 1;
    }
    proof {
        assert(sheets@.take(sheets.len() as int) =~= sheets@);
    }
    n
}

/// The error for style sheets with more selectors than can be numbered.
pub open spec fn too_many_selectors_spec() -> ErrorView {
    ErrorView::UnsupportedCss { feature: "more than 4294967295 selectors"@, location: None }
}

/// Runs the cascade (see [`run`]) on style sheets of any size: where the
/// sheets that parsed hold more selectors than a `u32` numbers, the run
/// is refused with `UnsupportedCss` and the document is left unchanged.
pub fn run_checked(
    doc: &mut Document,
    sheets: &Vec<Result<Vec<RuleToken>, LayoutError>>,
    inline: &Vec<(NodeId, Vec<Declaration>, Vec<Declaration>)>,
) -> (r: Result<CascadeResult, LayoutError>)
    requires
        old(doc).wf(),
    ensures
        sheets_selector_count(sheets@) <= u32::MAX ==> run_post(*old(doc), *final(doc), sheets@, inline@, r),
        sheets_selector_count(sheets@) > u32::MAX ==> {
            &&& r matches Err(e) && e@ == too_many_selectors_spec()
            &&& *final(doc) == *old(doc)
        },
{
    if capped_selector_count(sheets) > 0xffff_ffff {
        let e = crate::selectors::unsupported("more than 4294967295 selectors");
        proof {
            reveal_strlit("more than 4294967295 selectors");
        }
        return Err(e);
    }
    run(doc, sheets, inline)
}

// ───────────────────────── replaying the cascade order ─────────────────────────

/// One step of replaying an element's declarations in cascade order: the
/// normal or `!important` declarations of the rule with that index, or the
/// element's inline normal or `!important` declarations.
#[derive(Debug, Clone, Copy, PartialEq, Eq, Structural)]
pub enum ReplayStep {
    RuleNormal(usize),
    InlineNormal,
    RuleImportant(usize),
    InlineImportant,
}

/// One step per rule of `hits`, in order.
pub open spec fn rule_steps(hits: Seq<usize>, important: bool) -> Seq<ReplayStep> {
    hits.map_values(
        |h: usize|
            if important {
                ReplayStep::RuleImportant(h)
            } else {
                ReplayStep::RuleNormal(h)
            },
    )
}

/// The replay of an element that the rules `hits` match: the rules' normal
/// blocks, its inline normal declarations, the rules' `!important` blocks,
/// its inline `!important` declarations.
pub open spec fn replay_spec(hits: Seq<usize>) -> Seq<ReplayStep> {
    rule_steps(hits, false).push(ReplayStep::InlineNormal) + rule_steps(hits, true).push(
        ReplayStep::InlineImportant,
    )
}

/// The declarations that step `st` stands for at element `id`.
pub open spec fn step_decls(
    rs: Seq<CompiledRuleView>,
    inline: Seq<(NodeId, Vec<Declaration>, Vec<Declaration>)>,
    id: NodeId,
    st: ReplayStep,
) -> Seq<Declaration> {
    match st {
        ReplayStep::RuleNormal(h) => rs[h as int].normal,
        ReplayStep::InlineNormal => inline_for(inline, id, false),
        ReplayStep::RuleImportant(h) => rs[h as int].important,
        ReplayStep::InlineImportant => inline_for(inline, id, true),
    }
}

/// The declarations of the steps `steps`, one step after another.
pub open spec fn steps_decls(
    rs: Seq<CompiledRuleView>,
    inline: Seq<(NodeId, Vec<Declaration>, Vec<Declaration>)>,
    id: NodeId,
    steps: Seq<ReplayStep>,
) -> Seq<Declaration>
    decreases steps.len(),
{
    if steps.len() == 0 {
        Seq::empty()
    } else {
        steps_decls(rs, inline, id, steps.drop_last()) + step_decls(rs, inline, id, steps.last())
    }
}

proof fn lemma_steps_concat(
    rs: Seq<CompiledRuleView>,
    inline: Seq<(NodeId, Vec<Declaration>, Vec<Declaration>)>,
    id: NodeId,
    a: Seq<ReplayStep>,
    b: Seq<ReplayStep>,
)
    ensures
        steps_decls(rs, inline, id, a + b) == steps_decls(rs, inline, id, a) + steps_decls(rs, inline, id, b),
    decreases b.len(),
{
    if b.len() == 0 {
        assert(a + b =~= a);
        assert(steps_decls(rs, inline, id, a) + steps_decls(rs, inline, id, b) =~= steps_decls(rs, inline, id, a));
    } else {
        assert((a + b).drop_last() =~= a + b.drop_last());
        assert((a + b).last() == b.last());
        lemma_steps_concat(rs, inline, id, a, b.drop_last());
        assert(steps_decls(rs, inline, id, a) + steps_decls(rs, inline, id, b) =~= steps_decls(rs, inline, id, a)
            + steps_decls(rs, inline, id, b.drop_last()) + step_decls(rs, inline, id, b.last()));
    }
}

proof fn lemma_rule_steps(
    rs: Seq<CompiledRuleView>,
    inline: Seq<(NodeId, Vec<Declaration>, Vec<Declaration>)>,
    id: NodeId,
    hits: Seq<usize>,
    important: bool,
)
    ensures
        steps_decls(rs, inline, id, rule_steps(hits, important)) == block_decls(rs, hits, important),
    decreases hits.len(),
{
    if hits.len() > 0 {
        assert(rule_steps(hits, important).drop_last() =~= rule_steps(hits.drop_last(), important));
        lemma_rule_steps(rs, inline, id, hits.drop_last(), important);
    }
}

/// Replaying the steps of [`replay_steps`] goes through an element's
/// declarations exactly in the cascade's order: the declarations of the
/// steps, one after another, are those the cascade applies to it.
pub proof fn law_replay_follows_cascade(
    rs: Seq<CompiledRuleView>,
    hits: Seq<usize>,
    inline: Seq<(NodeId, Vec<Declaration>, Vec<Declaration>)>,
    id: NodeId,
)
    ensures
        steps_decls(rs, inline, id, replay_spec(hits)) == ordered_decls(rs, hits, inline, id),
{
    let n = rule_steps(hits, false);
    let i = rule_steps(hits, true);
    lemma_rule_steps(rs, inline, id, hits, false);
    lemma_rule_steps(rs, inline, id, hits, true);
    lemma_steps_concat(rs, inline, id, n.push(ReplayStep::InlineNormal), i.push(ReplayStep::InlineImportant));
    assert(n.push(ReplayStep::InlineNormal).drop_last() =~= n);
    assert(i.push(ReplayStep::InlineImportant).drop_last() =~= i);
    assert(ordered_decls(rs, hits, inline, id) =~= steps_decls(rs, inline, id, n.push(ReplayStep::InlineNormal))
        + steps_decls(rs, inline, id, i.push(ReplayStep::InlineImportant)));
}

/// The replay of an element to which the rules `hits` apply (see
/// [`replay_spec`]), for a caller that repeats the cascade's order on
/// declarations it keeps itself.
pub fn replay_steps(hits: &Vec<usize>) -> (r: Vec<ReplayStep>)
    ensures
        r@ == replay_spec(hits@),
{
    let mut r: Vec<ReplayStep> = Vec::new();
    let mut k: usize = 0;
    while k < hits.len()
        invariant
            k <= hits.len(),
            r@ == rule_steps(hits@.take(k as int), false),
        decreases hits.len() - k,
    {
        r.push(ReplayStep::RuleNormal(hits[k]));
        proof {
            assert(rule_steps(hits@.take(k + 1), false) =~= rule_steps(hits@.take(k as int), false).push(
                ReplayStep::RuleNormal(hits@[k as int]),
            ));
        }
        k += 1;
    }
    r.push(ReplayStep::InlineNormal);
    let ghost first = r@;
    let mut k: usize = 0;
    while k < hits.len()
        invariant
            k <= hits.len(),
            first == rule_steps(hits@, false).push(ReplayStep::InlineNormal),
            r@ == first + rule_steps(hits@.take(k as int), true),
        decreases hits.len() - k,
    {
        r.push(ReplayStep::RuleImportant(hits[k]));
        proof {
            assert(rule_steps(hits@.take(k + 1), true) =~= rule_steps(hits@.take(k as int), true).push(
                ReplayStep::RuleImportant(hits@[k as int]),
            ));
            assert(r@ =~= first + rule_steps(hits@.take(k + 1), true));
        }
        k += 1;
    }
    r.push(ReplayStep::InlineImportant);
    proof {
        assert(hits@.take(hits.len() as int) =~= hits@);
        assert(r@ =~= replay_spec(hits@));
    }
    r
}

/// The minimal user-agent style sheet: `html` and `body` fill the
/// viewport, so that percentage sizes below them resolve.
pub open spec fn ua_stylesheet_spec() -> Seq<char> {
    "\nhtml, body { width: 100%; height: 100% }\n"@
}

/// The user-agent style sheet.
pub fn ua_stylesheet() -> (s: &'static str)
    ensures
        s@ == ua_stylesheet_spec(),
{
    "\nhtml, body { width: 100%; height: 100% }\n"
}

/// The texts of a list of strings.
pub open spec fn texts(v: Seq<String>) -> Seq<Seq<char>> {
    v.map_values(|s: String| s@)
}

/// All style sheet sources in cascade order: the user-agent sheet first
/// (lowest priority), then `stylesheets`, then `extra`, then the
/// document's `<style>` elements in document order.
pub fn css_sources(doc: &Document, stylesheets: &Vec<String>, extra: &Vec<String>) -> (all: Vec<String>)
    requires
        doc.wf(),
    ensures
        texts(all@) == seq![ua_stylesheet_spec()] + texts(stylesheets@) + texts(extra@) + style_sheets_of(
            doc.nodes(),
            document_order(*doc),
        ),
{
    let mut all: Vec<String> = Vec::new();
    all.push(copy_str(ua_stylesheet()));
    proof {
        assert(texts(all@) =~= seq![ua_stylesheet_spec()]);
    }
    let mut i: usize = 0;
    while i < stylesheets.len()
        invariant
            i <= stylesheets.len(),
            texts(all@) == seq![ua_stylesheet_spec()] + texts(stylesheets@.take(i as int)),
        decreases stylesheets.len() - i,
    {
        let ghost before = all@;
        all.push(stylesheets[i].clone());
        proof {
            assert(texts(all@) =~= texts(before).push(stylesheets@[i as int]@));
            assert(texts(stylesheets@.take(i + 1)) =~= texts(stylesheets@.take(i as int)).push(stylesheets@[i as int]@));
        }
        i += 1;
    }
    proof {
        assert(stylesheets@.take(stylesheets.len() as int) =~= stylesheets@);
    }
    let ghost mid = texts(all@);
    let mut i: usize = 0;
    while i < extra.len()
        invariant
            i <= extra.len(),
            texts(all@) == mid + texts(extra@.take(i as int)),
        decreases extra.len() - i,
    {
        let ghost before = all@;
        all.push(extra[i].clone());
        proof {
            assert(texts(all@) =~= texts(before).push(extra@[i as int]@));
            assert(texts(extra@.take(i + 1)) =~= texts(extra@.take(i as int)).push(extra@[i as int]@));
        }
        i += 1;
    }
    proof {
        assert(extra@.take(extra.len() as int) =~= extra@);
        assert(texts(all@) =~= seq![ua_stylesheet_spec()] + texts(stylesheets@) + texts(extra@));
    }
    collect_inline_stylesheets(doc, &mut all);
    proof {
        assert(texts(all@) =~= seq![ua_stylesheet_spec()] + texts(stylesheets@) + texts(extra@) + style_sheets_of(
            doc.nodes(),
            document_order(*doc),
        ));
    }
    all
}

/// The `style` attribute values of the elements among `order` that have
/// one, with the element ids, in order.
pub open spec fn inline_sources(m: Map<NodeId, NodeData>, order: Seq<NodeId>) -> Seq<(NodeId, Seq<char>)>
    decreases order.len(),
{
    if order.len() == 0 {
        Seq::empty()
    } else {
        let rest = inline_sources(m, order.drop_last());
        let id = order.last();
        if is_element_node(m, id) && attr_lookup(m[id].kind->attrs@, "style"@) is Some {
            rest.push((id, attr_lookup(m[id].kind->attrs@, "style"@)->0))
        } else {
            rest
        }
    }
}

/// The inline `style` attributes of the document's elements, in document
/// order, each with its element's id.
pub fn inline_styles(doc: &Document) -> (v: Vec<(NodeId, String)>)
    requires
        doc.wf(),
    ensures
        v@.map_values(|p: (NodeId, String)| (p.0, p.1@)) == inline_sources(doc.nodes(), document_order(*doc)),
{
    let order = topological_order(doc);
    let mut v: Vec<(NodeId, String)> = Vec::new();
    let mut i: usize = 0;
    while i < order.len()
        invariant
            i <= order.len(),
            doc.wf(),
            order@ == document_order(*doc),
            v@.map_values(|p: (NodeId, String)| (p.0, p.1@)) == inline_sources(doc.nodes(), order@.take(i as int)),
        decreases order.len() - i,
    {
        proof {
            assert(order@.take(i + 1).drop_last() =~= order@.take(i as int));
        }
        let id = order[i];
        let ghost before = v@;
        match doc.get(id) {
            Some(n) => match &n.kind {
                NodeKind::Element { attrs, .. } => {
                    proof {
                        assert(crate::dom::kind_ok(doc.nodes()[id].kind));
                    }
                    match attr_get(attrs, "style") {
                        Some(val) => {
                            v.push((id, val.clone()));
                            proof {
                                assert(v@.map_values(|p: (NodeId, String)| (p.0, p.1@)) =~= before.map_values(
                                    |p: (NodeId, String)| (p.0, p.1@),
                                ).push((id, val@)));
                            }
                        },
                        None => {},
                    }
                },
                _ => {},
            },
            None => {},
        }
        i += 1;
    }
    proof {
        assert(order@.take(order.len() as int) =~= order@);
    }
    v
}

// ───────────────────────── laws ─────────────────────────

/// The properties of [`ComputedStyle`].
#[derive(Debug, Clone, Copy, PartialEq, Eq, Structural)]
pub enum StyleProperty {
    Display,
    Position,
    OverflowX,
    OverflowY,
    Color,
    BackgroundColor,
    Visibility,
    ZIndex,
    FontFamily,
    FontWeight,
    FontStyle,
    TextAlign,
}

/// Declaration `d` sets property `p`.
pub open spec fn touches(d: Declaration, p: StyleProperty) -> bool {
    match d {
        Declaration::Display(_) => p == StyleProperty::Display,
        Declaration::Position(v) => v != PositionValue::Sticky && p == StyleProperty::Position,
        Declaration::OverflowX(_) => p == StyleProperty::OverflowX,
        Declaration::OverflowY(_) => p == StyleProperty::OverflowY,
        Declaration::Overflow(_, _) => p == StyleProperty::OverflowX || p == StyleProperty::OverflowY,
        Declaration::Color(_) => p == StyleProperty::Color,
        Declaration::BackgroundColor(_) => p == StyleProperty::BackgroundColor,
        Declaration::Visibility(_) => p == StyleProperty::Visibility,
        Declaration::ZIndex(_) => p == StyleProperty::ZIndex,
        Declaration::FontFamily(f) => f is Some && p == StyleProperty::FontFamily,
        Declaration::FontWeight(_) => p == StyleProperty::FontWeight,
        Declaration::FontStyle(_) => p == StyleProperty::FontStyle,
        Declaration::TextAlign(_) => p == StyleProperty::TextAlign,
        Declaration::Metric | Declaration::Ignored | Declaration::Invalid(_) => false,
    }
}

/// `s` and `t` agree on property `p`.
pub open spec fn same_property(s: ComputedStyleView, t: ComputedStyleView, p: StyleProperty) -> bool {
    match p {
        StyleProperty::Display => s.display == t.display,
        StyleProperty::Position => s.position == t.position,
        StyleProperty::OverflowX => s.overflow_x == t.overflow_x,
        StyleProperty::OverflowY => s.overflow_y == t.overflow_y,
        StyleProperty::Color => s.color == t.color,
        StyleProperty::BackgroundColor => s.background_color == t.background_color,
        StyleProperty::Visibility => s.visibility == t.visibility,
        StyleProperty::ZIndex => s.z_index == t.z_index,
        StyleProperty::FontFamily => s.font_family == t.font_family,
        StyleProperty::FontWeight => s.font_weight == t.font_weight,
        StyleProperty::FontStyle => s.font_style == t.font_style,
        StyleProperty::TextAlign => s.text_align == t.text_align,
    }
}

/// Declarations that do not set a property leave it as it was.
pub proof fn law_untouched_property_kept(s: ComputedStyleView, ds: Seq<Declaration>, t: ComputedStyleView, p: StyleProperty)
    requires
        apply_all(s, ds) == Ok::<ComputedStyleView, ErrorView>(t),
        forall|k: int| 0 <= k < ds.len() ==> !touches(#[trigger] ds[k], p),
    ensures
        same_property(s, t, p),
    decreases ds.len(),
{
    if ds.len() > 0 {
        let u = apply_all(s, ds.drop_last())->Ok_0;
        assert forall|k: int| 0 <= k < ds.drop_last().len() implies !touches(#[trigger] ds.drop_last()[k], p) by {
            assert(ds.drop_last()[k] == ds[k]);
        }
        law_untouched_property_kept(s, ds.drop_last(), u, p);
        assert(!touches(ds[ds.len() - 1], p));
    }
}

/// The last declaration that sets a property decides its value: whatever
/// came before it, and whatever follows that does not set the property.
pub proof fn law_last_declaration_wins(
    s1: ComputedStyleView,
    a1: Seq<Declaration>,
    s2: ComputedStyleView,
    a2: Seq<Declaration>,
    d: Declaration,
    b: Seq<Declaration>,
    t1: ComputedStyleView,
    t2: ComputedStyleView,
    p: StyleProperty,
)
    requires
        touches(d, p),
        forall|k: int| 0 <= k < b.len() ==> !touches(#[trigger] b[k], p),
        apply_all(s1, a1.push(d) + b) == Ok::<ComputedStyleView, ErrorView>(t1),
        apply_all(s2, a2.push(d) + b) == Ok::<ComputedStyleView, ErrorView>(t2),
    ensures
        same_property(t1, t2, p),
{
    lemma_apply_all_concat(s1, a1.push(d), b);
    lemma_apply_all_concat(s2, a2.push(d), b);
    assert(a1.push(d).drop_last() =~= a1);
    assert(a2.push(d).drop_last() =~= a2);
    let u1 = apply_all(s1, a1.push(d))->Ok_0;
    let u2 = apply_all(s2, a2.push(d))->Ok_0;
    law_untouched_property_kept(u1, b, t1, p);
    law_untouched_property_kept(u2, b, t2, p);
}

proof fn lemma_decl_sets(x: ComputedStyleView, y: ComputedStyleView, d: Declaration, p: StyleProperty)
    requires
        touches(d, p),
    ensures
        apply_spec(x, d) is Ok,
        apply_spec(y, d) is Ok,
        same_property(apply_spec(x, d)->Ok_0, apply_spec(y, d)->Ok_0, p),
{
}

/// The last declaration `d` that sets `p` in a suffix of an element's
/// declarations decides the element's `p`.
proof fn lemma_last_setter_decides(
    m: Map<NodeId, NodeData>,
    rs: Seq<CompiledRuleView>,
    inline: Seq<(NodeId, Vec<Declaration>, Vec<Declaration>)>,
    st: Map<NodeId, ComputedStyleView>,
    id: NodeId,
    r: Seq<Declaration>,
    a: Seq<Declaration>,
    d: Declaration,
    b: Seq<Declaration>,
    st2: Map<NodeId, ComputedStyleView>,
    p: StyleProperty,
)
    requires
        is_element_node(m, id),
        node_decls(m, rs, inline, id) == r + (a.push(d) + b),
        touches(d, p),
        forall|k: int| 0 <= k < b.len() ==> !touches(#[trigger] b[k], p),
        cascade_step(m, rs, inline, st, id) == Ok::<Map<NodeId, ComputedStyleView>, ErrorView>(st2),
    ensures
        same_property(
            st2[id],
            resolve_color_spec(apply_spec(initial_style_spec(), d)->Ok_0, base_style(m, st, id).color),
            p,
        ),
{
    let base = base_style(m, st, id);
    let pre = (r + a).push(d);
    assert(node_decls(m, rs, inline, id) =~= pre + b);
    lemma_apply_all_concat(base, pre, b);
    assert(pre.drop_last() =~= r + a);
    let x = apply_all(base, r + a)->Ok_0;
    lemma_decl_sets(x, initial_style_spec(), d, p);
    let u = apply_all(base, pre)->Ok_0;
    let t = apply_all(base, node_decls(m, rs, inline, id))->Ok_0;
    law_untouched_property_kept(u, b, t, p);
    assert(st2[id] == resolve_color_spec(t, base.color));
}

/// An element's inline declarations override the normal declarations of
/// every style rule: when, among its inline normal declarations followed
/// by the `!important` declarations of the rules that match it (in cascade
/// order) and its inline `!important` declarations, the last one that sets
/// a property is `d`, the element's computed value of that property is the
/// one `d` sets (`currentColor` taking the inherited colour), whatever the
/// normal declarations of the matching rules say.
pub proof fn law_inline_wins(
    m: Map<NodeId, NodeData>,
    rs: Seq<CompiledRuleView>,
    inline: Seq<(NodeId, Vec<Declaration>, Vec<Declaration>)>,
    st: Map<NodeId, ComputedStyleView>,
    id: NodeId,
    a: Seq<Declaration>,
    d: Declaration,
    b: Seq<Declaration>,
    st2: Map<NodeId, ComputedStyleView>,
    p: StyleProperty,
)
    requires
        is_element_node(m, id),
        inline_for(inline, id, false) + block_decls(rs, hits_spec(m, rs, id), true) + inline_for(inline, id, true)
            == a.push(d) + b,
        touches(d, p),
        forall|k: int| 0 <= k < b.len() ==> !touches(#[trigger] b[k], p),
        cascade_step(m, rs, inline, st, id) == Ok::<Map<NodeId, ComputedStyleView>, ErrorView>(st2),
    ensures
        same_property(
            st2[id],
            resolve_color_spec(apply_spec(initial_style_spec(), d)->Ok_0, base_style(m, st, id).color),
            p,
        ),
{
    let hits = hits_spec(m, rs, id);
    let r = block_decls(rs, hits, false);
    assert(node_decls(m, rs, inline, id) =~= r + (inline_for(inline, id, false) + block_decls(rs, hits, true)
        + inline_for(inline, id, true)));
    lemma_last_setter_decides(m, rs, inline, st, id, r, a, d, b, st2, p);
}

/// `!important` outranks every normal declaration, inline ones included:
/// when, among the `!important` declarations of the rules that match an
/// element (in cascade order) followed by its inline `!important`
/// declarations, the last one that sets a property is `d`, the element's
/// computed value of that property is the one `d` sets (`currentColor`
/// taking the inherited colour), whatever normal declarations of more
/// specific or later rules, or of its `style` attribute, say.
pub proof fn law_important_over_normal(
    m: Map<NodeId, NodeData>,
    rs: Seq<CompiledRuleView>,
    inline: Seq<(NodeId, Vec<Declaration>, Vec<Declaration>)>,
    st: Map<NodeId, ComputedStyleView>,
    id: NodeId,
    a: Seq<Declaration>,
    d: Declaration,
    b: Seq<Declaration>,
    st2: Map<NodeId, ComputedStyleView>,
    p: StyleProperty,
)
    requires
        is_element_node(m, id),
        block_decls(rs, hits_spec(m, rs, id), true) + inline_for(inline, id, true) == a.push(d) + b,
        touches(d, p),
        forall|k: int| 0 <= k < b.len() ==> !touches(#[trigger] b[k], p),
        cascade_step(m, rs, inline, st, id) == Ok::<Map<NodeId, ComputedStyleView>, ErrorView>(st2),
    ensures
        same_property(
            st2[id],
            resolve_color_spec(apply_spec(initial_style_spec(), d)->Ok_0, base_style(m, st, id).color),
            p,
        ),
{
    let hits = hits_spec(m, rs, id);
    let r = block_decls(rs, hits, false) + inline_for(inline, id, false);
    assert(node_decls(m, rs, inline, id) =~= r + (block_decls(rs, hits, true) + inline_for(inline, id, true)));
    lemma_last_setter_decides(m, rs, inline, st, id, r, a, d, b, st2, p);
}

/// A property that no declaration of an element sets keeps the value of
/// the element's base style.
pub proof fn law_unset_property_from_base(
    m: Map<NodeId, NodeData>,
    rs: Seq<CompiledRuleView>,
    inline: Seq<(NodeId, Vec<Declaration>, Vec<Declaration>)>,
    st: Map<NodeId, ComputedStyleView>,
    id: NodeId,
    st2: Map<NodeId, ComputedStyleView>,
    p: StyleProperty,
)
    requires
        is_element_node(m, id),
        forall|k: int| 0 <= k < node_decls(m, rs, inline, id).len() ==> !touches(#[trigger] node_decls(m, rs, inline, id)[k], p),
        cascade_step(m, rs, inline, st, id) == Ok::<Map<NodeId, ComputedStyleView>, ErrorView>(st2),
    ensures
        same_property(st2[id], base_style(m, st, id), p),
{
    let base = base_style(m, st, id);
    let t = apply_all(base, node_decls(m, rs, inline, id))->Ok_0;
    law_untouched_property_kept(base, node_decls(m, rs, inline, id), t, p);
    assert(st2[id] == resolve_color_spec(t, base.color));
}

/// `p` is inherited: `color`, `font-family`, `font-weight`, `font-style`,
/// `text-align` and `visibility`.
pub open spec fn inherited(p: StyleProperty) -> bool {
    p == StyleProperty::Color || p == StyleProperty::FontFamily || p == StyleProperty::FontWeight || p
        == StyleProperty::FontStyle || p == StyleProperty::TextAlign || p == StyleProperty::Visibility
}

/// An element's base style has its element parent's value of every
/// inherited property, and the initial value of every other property.
pub proof fn law_base_style(m: Map<NodeId, NodeData>, st: Map<NodeId, ComputedStyleView>, id: NodeId, p: StyleProperty)
    ensures
        ({
            let par = m[id].parent;
            if par is Some && st.dom().contains(par->0) && inherited(p) {
                same_property(base_style(m, st, id), st[par->0], p)
            } else {
                same_property(base_style(m, st, id), initial_style_spec(), p)
            }
        }),
{
}

/// Indices `s` are in cascade order.
pub open spec fn in_cascade_order(rs: Seq<CompiledRuleView>, s: Seq<usize>) -> bool {
    forall|i: int, j: int| 0 <= i < j < s.len() ==> cascade_le(rs, #[trigger] s[i], #[trigger] s[j])
}

proof fn lemma_insert_sorted(rs: Seq<CompiledRuleView>, s: Seq<usize>, x: usize)
    requires
        in_cascade_order(rs, s),
    ensures
        in_cascade_order(rs, insert_spec(rs, s, x)),
        insert_spec(rs, s, x).to_multiset() == s.to_multiset().insert(x),
    decreases s.len(),
{
    broadcast use vstd::seq_lib::group_to_multiset_ensures;

    if s.len() == 0 {
        assert(seq![x] =~= Seq::<usize>::empty().push(x));
    } else if cascade_le(rs, s.last(), x) {
    } else {
        let t = s.drop_last();
        assert(in_cascade_order(rs, t)) by {
            assert forall|i: int, j: int| 0 <= i < j < t.len() implies cascade_le(rs, #[trigger] t[i], #[trigger] t[j]) by {
                assert(t[i] == s[i] && t[j] == s[j]);
            }
        }
        lemma_insert_sorted(rs, t, x);
        let r = insert_spec(rs, t, x);
        assert(s =~= t.push(s.last()));
        assert forall|i: int| 0 <= i < r.len() implies cascade_le(rs, #[trigger] r[i], s.last()) by {
            assert(r.to_multiset().count(r[i]) > 0);
            if r[i] != x {
                assert(t.to_multiset().count(r[i]) > 0);
                assert(t.contains(r[i]));
                let q = choose|q: int| 0 <= q < t.len() && t[q] == r[i];
                assert(s[q] == t[q]);
            }
        }
        let r2 = r.push(s.last());
        assert forall|i: int, j: int| 0 <= i < j < r2.len() implies cascade_le(rs, #[trigger] r2[i], #[trigger] r2[j]) by {
            if j == r.len() {
                assert(r2[i] == r[i]);
            } else {
                assert(r2[i] == r[i] && r2[j] == r[j]);
            }
        }
    }
}

proof fn lemma_sort_sorted(rs: Seq<CompiledRuleView>, s: Seq<usize>)
    ensures
        in_cascade_order(rs, sort_spec(rs, s)),
        sort_spec(rs, s).to_multiset() == s.to_multiset(),
    decreases s.len(),
{
    broadcast use vstd::seq_lib::group_to_multiset_ensures;

    if s.len() > 0 {
        lemma_sort_sorted(rs, s.drop_last());
        lemma_insert_sorted(rs, sort_spec(rs, s.drop_last()), s.last());
        assert(s =~= s.drop_last().push(s.last()));
    }
}

/// The rules applied to an element are exactly the rules whose selector
/// matches it, each once, and they apply in cascade order: lower
/// specificity first, and on equal specificity the earlier rule first (so
/// the later one wins).
pub proof fn law_hits_in_cascade_order(m: Map<NodeId, NodeData>, rs: Seq<CompiledRuleView>, id: NodeId)
    ensures
        in_cascade_order(rs, hits_spec(m, rs, id)),
        hits_spec(m, rs, id).to_multiset() == matched_prefix(m, rs, id, rs.len() as int).to_multiset(),
{
    lemma_sort_sorted(rs, matched_prefix(m, rs, id, rs.len() as int));
}

proof fn lemma_matched_bound(m: Map<NodeId, NodeData>, rs: Seq<CompiledRuleView>, id: NodeId, n: int)
    requires
        n <= usize::MAX + 1,
    ensures
        forall|q: int| 0 <= q < matched_prefix(m, rs, id, n).len() ==> #[trigger] matched_prefix(m, rs, id, n)[q] < n,
    decreases n,
{
    if n > 0 {
        lemma_matched_bound(m, rs, id, n - 1);
        let prev = matched_prefix(m, rs, id, n - 1);
        let cur = matched_prefix(m, rs, id, n);
        assert forall|q: int| 0 <= q < cur.len() implies #[trigger] cur[q] < n by {
            if q < prev.len() {
                assert(cur[q] == prev[q]);
            }
        }
    }
}

/// The rules listed as matching an element are exactly those whose
/// selector matches it.
pub proof fn law_matched_rules(m: Map<NodeId, NodeData>, rs: Seq<CompiledRuleView>, id: NodeId, n: int, i: usize)
    requires
        n <= rs.len() <= usize::MAX,
    ensures
        matched_prefix(m, rs, id, n).contains(i) <==> (i < n && selector_matches(
            m,
            rs[i as int].selector,
            id,
            walk_depth(m),
        )),
    decreases n,
{
    if n > 0 {
        law_matched_rules(m, rs, id, n - 1, i);
        lemma_matched_bound(m, rs, id, n - 1);
        let prev = matched_prefix(m, rs, id, n - 1);
        if prev.contains(i) {
            let q = choose|q: int| 0 <= q < prev.len() && #[trigger] prev[q] == i;
            assert(prev[q] < n - 1);
        }
        if selector_matches(m, rs[n - 1].selector, id, walk_depth(m)) {
            let cur = prev.push((n - 1) as usize);
            assert(cur[prev.len() as int] == (n - 1) as usize);
            if cur.contains(i) && i != n - 1 {
                let q = choose|q: int| 0 <= q < cur.len() && #[trigger] cur[q] == i;
                assert(q < prev.len());
                assert(prev[q] == i);
            }
            if prev.contains(i) {
                let q = choose|q: int| 0 <= q < prev.len() && #[trigger] prev[q] == i;
                assert(cur[q] == i);
            }
        }
    }
}

proof fn lemma_style_rule_orders(
    sels: Seq<SelectorSource>,
    normal: Seq<Declaration>,
    important: Seq<Declaration>,
    block: usize,
    counter: int,
)
    requires
        0 <= counter,
        counter + sels.len() <= u32::MAX,
    ensures
        style_rule_spec(sels, normal, important, block, counter) matches Ok(more) ==> forall|k: int|
            0 <= k < more.len() ==> (#[trigger] more[k]).source_order == counter + k,
    decreases sels.len(),
{
    if sels.len() > 0 {
        lemma_style_rule_orders(sels.drop_last(), normal, important, block, counter);
        lemma_style_rule_len(sels.drop_last(), normal, important, block, counter);
    }
}

proof fn lemma_walk_orders(rules: Seq<RuleToken>, counter: int)
    requires
        0 <= counter,
        counter + selector_count(rules) <= u32::MAX,
    ensures
        walk_spec(rules, counter) matches Ok(more) ==> forall|k: int|
            0 <= k < more.len() ==> (#[trigger] more[k]).source_order == counter + k,
    decreases rules,
{
    if rules.len() > 0 {
        lemma_walk_orders(rules.drop_last(), counter);
        lemma_walk_len(rules.drop_last(), counter);
        if let Ok(prev) = walk_spec(rules.drop_last(), counter) {
            let c = counter + prev.len();
            match rules.last() {
                RuleToken::Style { selectors, normal, important, block } => {
                    lemma_style_rule_orders(selectors@, normal@, important@, block, c);
                    if let Ok(more) = style_rule_spec(selectors@, normal@, important@, block, c) {
                        let all = prev + more;
                        assert forall|k: int| 0 <= k < all.len() implies (#[trigger] all[k]).source_order == counter + k by {
                            if k >= prev.len() {
                                assert(all[k] == more[k - prev.len()]);
                            }
                        }
                    }
                },
                RuleToken::LayerBlock(inner) => {
                    lemma_walk_orders(inner@, c);
                    if let Ok(more) = walk_spec(inner@, c) {
                        let all = prev + more;
                        assert forall|k: int| 0 <= k < all.len() implies (#[trigger] all[k]).source_order == counter + k by {
                            if k >= prev.len() {
                                assert(all[k] == more[k - prev.len()]);
                            }
                        }
                    }
                },
                _ => {},
            }
        }
    }
}

proof fn lemma_sheets_orders(sheets: Seq<Result<Vec<RuleToken>, LayoutError>>, counter: int)
    requires
        0 <= counter,
        counter + sheets_selector_count(sheets) <= u32::MAX,
    ensures
        sheets_spec(sheets, counter) matches Ok(more) ==> forall|k: int|
            0 <= k < more.len() ==> (#[trigger] more[k]).source_order == counter + k,
    decreases sheets.len(),
{
    if sheets.len() > 0 {
        lemma_sheets_orders(sheets.drop_last(), counter);
        lemma_sheets_len(sheets.drop_last(), counter);
        if let Ok(prev) = sheets_spec(sheets.drop_last(), counter) {
            if let Ok(rules) = sheets.last() {
                let c = counter + prev.len();
                lemma_walk_orders(rules@, c);
                if let Ok(more) = walk_spec(rules@, c) {
                    let all = prev + more;
                    assert forall|k: int| 0 <= k < all.len() implies (#[trigger] all[k]).source_order == counter + k by {
                        if k >= prev.len() {
                            assert(all[k] == more[k - prev.len()]);
                        }
                    }
                }
            }
        }
    }
}

/// Compiled rules are numbered in source order: the `k`-th compiled
/// selector of the sheets, counting every selector of every style rule in
/// order, has source order `k`.
pub proof fn law_source_order(sheets: Seq<Result<Vec<RuleToken>, LayoutError>>)
    requires
        sheets_selector_count(sheets) <= u32::MAX,
    ensures
        sheets_spec(sheets, 0) matches Ok(rs) ==> forall|k: int| 0 <= k < rs.len() ==> (#[trigger] rs[k]).source_order == k,
{
    lemma_sheets_orders(sheets, 0);
}

} // verus!
