//! CSS property values as the style sheet parser delivers them, and their
//! mapping onto computed values. The mapping degrades values outside the
//! supported subset to the nearest supported one (`inline` boxes are laid
//! out as blocks, `clip` as `hidden`, and so on), except `position: sticky`,
//! which the subset defers and which is refused.

use vstd::prelude::*;

use crate::error::{ErrorView, LayoutError};
use crate::font::{FontStyle, FontWeight};
use crate::style::{AlignItems, Display, JustifyContent, Overflow, Position, TextAlign, Visibility};

verus! {

/// `<display-outside>`.
#[derive(Debug, Clone, Copy, PartialEq, Eq, Structural)]
pub enum DisplayOutside {
    Block,
    Inline,
    RunIn,
}

/// `<display-inside>` (vendor prefixes dropped).
#[derive(Debug, Clone, Copy, PartialEq, Eq, Structural)]
pub enum DisplayInside {
    Flow,
    FlowRoot,
    Table,
    Flex,
    Box,
    Grid,
    Ruby,
}

/// The single-keyword `display` values.
#[derive(Debug, Clone, Copy, PartialEq, Eq, Structural)]
pub enum DisplayKeyword {
    /// `display: none`.
    NoBox,
    Contents,
    TableRowGroup,
    TableHeaderGroup,
    TableFooterGroup,
    TableRow,
    TableCell,
    TableColumnGroup,
    TableColumn,
    TableCaption,
    RubyBase,
    RubyText,
    RubyBaseContainer,
    RubyTextContainer,
}

/// A `display` value.
#[derive(Debug, Clone, Copy, PartialEq, Eq, Structural)]
pub enum DisplayValue {
    Keyword(DisplayKeyword),
    Pair { outside: DisplayOutside, inside: DisplayInside, is_list_item: bool },
}

/// `display`: `none` hides the box; flex and grid insides (inline ones
/// included) give flex and grid containers; every other value is laid out
/// as a block.
pub open spec fn display_spec(d: DisplayValue) -> Display {
    match d {
        DisplayValue::Keyword(DisplayKeyword::NoBox) => Display::NoDisplay,
        DisplayValue::Keyword(_) => Display::Block,
        DisplayValue::Pair { inside, .. } => match inside {
            DisplayInside::Flex => Display::Flex,
            DisplayInside::Grid => Display::Grid,
            _ => Display::Block,
        },
    }
}

/// The outer display type never changes a flex or grid layout: every
/// value whose inner display type is flex is laid out as flex (`flex`,
/// `inline-flex`, a list item or not), every grid one as grid, and only
/// those; only `display: none` removes the box.
pub proof fn law_display_follows_inside(d: DisplayValue)
    ensures
        (display_spec(d) == Display::Flex) <==> (d matches DisplayValue::Pair { inside, .. } && inside
            == DisplayInside::Flex),
        (display_spec(d) == Display::Grid) <==> (d matches DisplayValue::Pair { inside, .. } && inside
            == DisplayInside::Grid),
        (display_spec(d) == Display::NoDisplay) <==> d == DisplayValue::Keyword(DisplayKeyword::NoBox),
{
}

/// Maps a `display` value (see [`display_spec`]); it never fails.
pub fn map_display(d: &DisplayValue) -> (r: Result<Display, LayoutError>)
    ensures
        r == Ok::<Display, LayoutError>(display_spec(*d)),
{
    match d {
        DisplayValue::Keyword(DisplayKeyword::NoBox) => Ok(Display::NoDisplay),
        DisplayValue::Keyword(DisplayKeyword::Contents) => Ok(Display::Block),
        DisplayValue::Keyword(_) => Ok(Display::Block),
        DisplayValue::Pair { outside, inside, .. } => match inside {
            DisplayInside::Flex => Ok(Display::Flex),
            DisplayInside::Grid => Ok(Display::Grid),
            _ => match outside {
                DisplayOutside::Block | DisplayOutside::Inline | DisplayOutside::RunIn => Ok(Display::Block),
            },
        },
    }
}

/// A `position` value (vendor prefixes dropped).
#[derive(Debug, Clone, Copy, PartialEq, Eq, Structural)]
pub enum PositionValue {
    Static,
    Relative,
    Absolute,
    Sticky,
    Fixed,
}

/// `position`; `sticky` is outside the supported subset.
pub open spec fn position_spec(p: PositionValue) -> Result<Position, ErrorView> {
    match p {
        PositionValue::Static => Ok(Position::Static),
        PositionValue::Relative => Ok(Position::Relative),
        PositionValue::Absolute => Ok(Position::Absolute),
        PositionValue::Fixed => Ok(Position::Fixed),
        PositionValue::Sticky => Err(ErrorView::UnsupportedCss { feature: "position: sticky"@, location: None }),
    }
}

/// Maps a `position` value (see [`position_spec`]).
pub fn map_position(p: &PositionValue) -> (r: Result<Position, LayoutError>)
    ensures
        match r {
            Ok(v) => position_spec(*p) == Ok::<Position, ErrorView>(v),
            Err(e) => position_spec(*p) == Err::<Position, ErrorView>(e@),
        },
{
    match p {
        PositionValue::Static => Ok(Position::Static),
        PositionValue::Relative => Ok(Position::Relative),
        PositionValue::Absolute => Ok(Position::Absolute),
        PositionValue::Fixed => Ok(Position::Fixed),
        PositionValue::Sticky => Err(crate::selectors::unsupported("position: sticky")),
    }
}

/// An `overflow` keyword.
#[derive(Debug, Clone, Copy, PartialEq, Eq, Structural)]
pub enum OverflowKeyword {
    Visible,
    Hidden,
    Clip,
    Scroll,
    Auto,
}

/// `overflow`: `clip` behaves as `hidden`.
pub open spec fn overflow_spec(v: OverflowKeyword) -> Overflow {
    match v {
        OverflowKeyword::Visible => Overflow::Visible,
        OverflowKeyword::Hidden | OverflowKeyword::Clip => Overflow::Hidden,
        OverflowKeyword::Scroll => Overflow::Scroll,
        OverflowKeyword::Auto => Overflow::Auto,
    }
}

/// Maps an `overflow` keyword (see [`overflow_spec`]).
pub fn map_overflow_keyword(v: &OverflowKeyword) -> (r: Overflow)
    ensures
        r == overflow_spec(*v),
{
    match v {
        OverflowKeyword::Visible => Overflow::Visible,
        OverflowKeyword::Hidden | OverflowKeyword::Clip => Overflow::Hidden,
        OverflowKeyword::Scroll => Overflow::Scroll,
        OverflowKeyword::Auto => Overflow::Auto,
    }
}

/// A `text-align` value.
#[derive(Debug, Clone, Copy, PartialEq, Eq, Structural)]
pub enum TextAlignValue {
    Start,
    End,
    Left,
    Right,
    Center,
    Justify,
    MatchParent,
    JustifyAll,
}

/// `text-align`, for left-to-right text.
pub open spec fn text_align_spec(a: TextAlignValue) -> TextAlign {
    match a {
        TextAlignValue::Left | TextAlignValue::Start | TextAlignValue::MatchParent => TextAlign::Left,
        TextAlignValue::Right | TextAlignValue::End => TextAlign::Right,
        TextAlignValue::Center => TextAlign::Center,
        TextAlignValue::Justify | TextAlignValue::JustifyAll => TextAlign::Justify,
    }
}

/// Maps a `text-align` value (see [`text_align_spec`]).
pub fn map_text_align(a: &TextAlignValue) -> (r: TextAlign)
    ensures
        r == text_align_spec(*a),
{
    match a {
        TextAlignValue::Left | TextAlignValue::Start | TextAlignValue::MatchParent => TextAlign::Left,
        TextAlignValue::Right | TextAlignValue::End => TextAlign::Right,
        TextAlignValue::Center => TextAlign::Center,
        TextAlignValue::Justify | TextAlignValue::JustifyAll => TextAlign::Justify,
    }
}

/// A `font-weight` value; a numeric weight is carried as an integer.
#[derive(Debug, Clone, Copy, PartialEq, Eq, Structural)]
pub enum FontWeightValue {
    Normal,
    Bold,
    Weight(u16),
    Bolder,
    Lighter,
}

/// `font-weight`: relative weights (`bolder`, `lighter`) resolve to normal.
pub open spec fn font_weight_spec(w: FontWeightValue) -> FontWeight {
    match w {
        FontWeightValue::Normal => FontWeight::Normal,
        FontWeightValue::Bold => FontWeight::Bold,
        FontWeightValue::Weight(n) => FontWeight::Weight(n),
        FontWeightValue::Bolder | FontWeightValue::Lighter => FontWeight::Normal,
    }
}

/// Maps a `font-weight` value (see [`font_weight_spec`]).
pub fn map_font_weight(w: &FontWeightValue) -> (r: FontWeight)
    ensures
        r == font_weight_spec(*w),
{
    match w {
        FontWeightValue::Normal => FontWeight::Normal,
        FontWeightValue::Bold => FontWeight::Bold,
        FontWeightValue::Weight(n) => FontWeight::Weight(*n),
        FontWeightValue::Bolder | FontWeightValue::Lighter => FontWeight::Normal,
    }
}

/// A `font-style` value (the oblique angle dropped).
#[derive(Debug, Clone, Copy, PartialEq, Eq, Structural)]
pub enum FontStyleValue {
    Normal,
    Italic,
    Oblique,
}

/// `font-style`.
pub open spec fn font_style_spec(s: FontStyleValue) -> FontStyle {
    match s {
        FontStyleValue::Normal => FontStyle::Normal,
        FontStyleValue::Italic => FontStyle::Italic,
        FontStyleValue::Oblique => FontStyle::Oblique,
    }
}

/// A `visibility` value.
#[derive(Debug, Clone, Copy, PartialEq, Eq, Structural)]
pub enum VisibilityValue {
    Visible,
    Hidden,
    Collapse,
}

/// `visibility`: `collapse` hides like `hidden`.
pub open spec fn visibility_spec(v: VisibilityValue) -> Visibility {
    match v {
        VisibilityValue::Visible => Visibility::Visible,
        _ => Visibility::Hidden,
    }
}

/// A `z-index` value.
#[derive(Debug, Clone, Copy, PartialEq, Eq, Structural)]
pub enum ZIndexValue {
    Auto,
    Integer(i32),
}

/// `z-index`: `auto` is no explicit stacking order.
pub open spec fn z_index_spec(z: ZIndexValue) -> Option<i32> {
    match z {
        ZIndexValue::Auto => None,
        ZIndexValue::Integer(i) => Some(i),
    }
}

// ───────────────────────── box alignment ─────────────────────────

/// `<content-distribution>`.
#[derive(Debug, Clone, Copy, PartialEq, Eq, Structural)]
pub enum ContentDistribution {
    SpaceBetween,
    SpaceAround,
    SpaceEvenly,
    Stretch,
}

/// `<content-position>`.
#[derive(Debug, Clone, Copy, PartialEq, Eq, Structural)]
pub enum ContentPosition {
    Center,
    Start,
    End,
    FlexStart,
    FlexEnd,
}

/// `<self-position>`.
#[derive(Debug, Clone, Copy, PartialEq, Eq, Structural)]
pub enum SelfPosition {
    Center,
    Start,
    End,
    SelfStart,
    SelfEnd,
    FlexStart,
    FlexEnd,
}

/// A `justify-content` value (overflow positions dropped).
#[derive(Debug, Clone, Copy, PartialEq, Eq, Structural)]
pub enum JustifyContentValue {
    Normal,
    Distribution(ContentDistribution),
    Position(ContentPosition),
    Left,
    Right,
}

/// An `align-content` value (baseline kinds and overflow positions dropped).
#[derive(Debug, Clone, Copy, PartialEq, Eq, Structural)]
pub enum AlignContentValue {
    Normal,
    Baseline,
    Distribution(ContentDistribution),
    Position(ContentPosition),
}

/// An `align-items` value.
#[derive(Debug, Clone, Copy, PartialEq, Eq, Structural)]
pub enum AlignItemsValue {
    Normal,
    Stretch,
    Baseline,
    Position(SelfPosition),
}

/// An `align-self` value.
#[derive(Debug, Clone, Copy, PartialEq, Eq, Structural)]
pub enum AlignSelfValue {
    Auto,
    Normal,
    Stretch,
    Baseline,
    Position(SelfPosition),
}

pub open spec fn distribution_spec(cd: ContentDistribution) -> JustifyContent {
    match cd {
        ContentDistribution::SpaceBetween => JustifyContent::SpaceBetween,
        ContentDistribution::SpaceAround => JustifyContent::SpaceAround,
        ContentDistribution::SpaceEvenly => JustifyContent::SpaceEvenly,
        ContentDistribution::Stretch => JustifyContent::Stretch,
    }
}

pub open spec fn content_position_spec(cp: ContentPosition) -> JustifyContent {
    match cp {
        ContentPosition::Start => JustifyContent::Start,
        ContentPosition::End => JustifyContent::End,
        ContentPosition::Center => JustifyContent::Center,
        ContentPosition::FlexStart => JustifyContent::FlexStart,
        ContentPosition::FlexEnd => JustifyContent::FlexEnd,
    }
}

pub open spec fn self_position_spec(sp: SelfPosition) -> AlignItems {
    match sp {
        SelfPosition::Center => AlignItems::Center,
        SelfPosition::Start | SelfPosition::SelfStart => AlignItems::Start,
        SelfPosition::End | SelfPosition::SelfEnd => AlignItems::End,
        SelfPosition::FlexStart => AlignItems::FlexStart,
        SelfPosition::FlexEnd => AlignItems::FlexEnd,
    }
}

fn map_distribution(cd: &ContentDistribution) -> (r: JustifyContent)
    ensures
        r == distribution_spec(*cd),
{
    match cd {
        ContentDistribution::SpaceBetween => JustifyContent::SpaceBetween,
        ContentDistribution::SpaceAround => JustifyContent::SpaceAround,
        ContentDistribution::SpaceEvenly => JustifyContent::SpaceEvenly,
        ContentDistribution::Stretch => JustifyContent::Stretch,
    }
}

fn map_content_position(cp: &ContentPosition) -> (r: JustifyContent)
    ensures
        r == content_position_spec(*cp),
{
    match cp {
        ContentPosition::Start => JustifyContent::Start,
        ContentPosition::End => JustifyContent::End,
        ContentPosition::Center => JustifyContent::Center,
        ContentPosition::FlexStart => JustifyContent::FlexStart,
        ContentPosition::FlexEnd => JustifyContent::FlexEnd,
    }
}

fn map_self_position(sp: &SelfPosition) -> (r: AlignItems)
    ensures
        r == self_position_spec(*sp),
{
    match sp {
        SelfPosition::Center => AlignItems::Center,
        SelfPosition::Start | SelfPosition::SelfStart => AlignItems::Start,
        SelfPosition::End | SelfPosition::SelfEnd => AlignItems::End,
        SelfPosition::FlexStart => AlignItems::FlexStart,
        SelfPosition::FlexEnd => AlignItems::FlexEnd,
    }
}

/// `justify-content`: `normal` leaves it unset; `left` and `right` are
/// start and end.
pub open spec fn justify_content_spec(jc: JustifyContentValue) -> Option<JustifyContent> {
    match jc {
        JustifyContentValue::Normal => None,
        JustifyContentValue::Distribution(cd) => Some(distribution_spec(cd)),
        JustifyContentValue::Position(cp) => Some(content_position_spec(cp)),
        JustifyContentValue::Left => Some(JustifyContent::Start),
        JustifyContentValue::Right => Some(JustifyContent::End),
    }
}

/// Maps a `justify-content` value (see [`justify_content_spec`]).
pub fn map_justify_content(jc: &JustifyContentValue) -> (r: Option<JustifyContent>)
    ensures
        r == justify_content_spec(*jc),
{
    match jc {
        JustifyContentValue::Normal => None,
        JustifyContentValue::Distribution(cd) => Some(map_distribution(cd)),
        JustifyContentValue::Position(cp) => Some(map_content_position(cp)),
        JustifyContentValue::Left => Some(JustifyContent::Start),
        JustifyContentValue::Right => Some(JustifyContent::End),
    }
}

/// `align-content`: `normal` and baseline alignment leave it unset.
pub open spec fn align_content_spec(ac: AlignContentValue) -> Option<JustifyContent> {
    match ac {
        AlignContentValue::Normal | AlignContentValue::Baseline => None,
        AlignContentValue::Distribution(cd) => Some(distribution_spec(cd)),
        AlignContentValue::Position(cp) => Some(content_position_spec(cp)),
    }
}

/// Maps an `align-content` value (see [`align_content_spec`]).
pub fn map_align_content(ac: &AlignContentValue) -> (r: Option<JustifyContent>)
    ensures
        r == align_content_spec(*ac),
{
    match ac {
        AlignContentValue::Normal | AlignContentValue::Baseline => None,
        AlignContentValue::Distribution(cd) => Some(map_distribution(cd)),
        AlignContentValue::Position(cp) => Some(map_content_position(cp)),
    }
}

/// `align-items`: `normal` leaves it unset; self-start and self-end are
/// start and end.
pub open spec fn align_items_spec(ai: AlignItemsValue) -> Option<AlignItems> {
    match ai {
        AlignItemsValue::Normal => None,
        AlignItemsValue::Stretch => Some(AlignItems::Stretch),
        AlignItemsValue::Baseline => Some(AlignItems::Baseline),
        AlignItemsValue::Position(sp) => Some(self_position_spec(sp)),
    }
}

/// Maps an `align-items` value (see [`align_items_spec`]).
pub fn map_align_items(ai: &AlignItemsValue) -> (r: Option<AlignItems>)
    ensures
        r == align_items_spec(*ai),
{
    match ai {
        AlignItemsValue::Normal => None,
        AlignItemsValue::Stretch => Some(AlignItems::Stretch),
        AlignItemsValue::Baseline => Some(AlignItems::Baseline),
        AlignItemsValue::Position(sp) => Some(map_self_position(sp)),
    }
}

/// `align-self`: `auto` and `normal` leave it unset.
pub open spec fn align_self_spec(a: AlignSelfValue) -> Option<AlignItems> {
    match a {
        AlignSelfValue::Auto | AlignSelfValue::Normal => None,
        AlignSelfValue::Stretch => Some(AlignItems::Stretch),
        AlignSelfValue::Baseline => Some(AlignItems::Baseline),
        AlignSelfValue::Position(sp) => Some(self_position_spec(sp)),
    }
}

/// Maps an `align-self` value (see [`align_self_spec`]).
pub fn map_align_self(a: &AlignSelfValue) -> (r: Option<AlignItems>)
    ensures
        r == align_self_spec(*a),
{
    match a {
        AlignSelfValue::Auto | AlignSelfValue::Normal => None,
        AlignSelfValue::Stretch => Some(AlignItems::Stretch),
        AlignSelfValue::Baseline => Some(AlignItems::Baseline),
        AlignSelfValue::Position(sp) => Some(map_self_position(sp)),
    }
}

/// Index of the first character of `s` that is not `"` (`s.len()` when
/// there is none).
pub open spec fn first_non_quote(s: Seq<char>) -> int
    decreases s.len(),
{
    if s.len() == 0 {
        0
    } else if s[0] == '"' {
        1 + first_non_quote(s.drop_first())
    } else {
        0
    }
}

/// One past the last character of `s` that is not `"` (`0` when there is
/// none).
pub open spec fn last_non_quote_end(s: Seq<char>) -> int
    decreases s.len(),
{
    if s.len() == 0 {
        0
    } else if s.last() == '"' {
        last_non_quote_end(s.drop_last())
    } else {
        s.len() as int
    }
}

/// `s` without its leading and trailing `"` characters
/// (`trim_matches('"')`): a family name as the CSS printer writes it,
/// without the quotes it adds around names with spaces.
pub open spec fn strip_quotes_spec(s: Seq<char>) -> Seq<char> {
    if last_non_quote_end(s) <= first_non_quote(s) {
        Seq::empty()
    } else {
        s.subrange(first_non_quote(s), last_non_quote_end(s))
    }
}

proof fn lemma_first_non_quote(s: Seq<char>, i: int)
    requires
        0 <= i <= s.len(),
        forall|k: int| 0 <= k < i ==> #[trigger] s[k] == '"',
        i == s.len() || s[i] != '"',
    ensures
        first_non_quote(s) == i,
    decreases s.len(),
{
    if s.len() > 0 && i > 0 {
        assert(s[0] == '"');
        assert forall|k: int| 0 <= k < i - 1 implies #[trigger] s.drop_first()[k] == '"' by {
            assert(s.drop_first()[k] == s[k + 1]);
        }
        lemma_first_non_quote(s.drop_first(), i - 1);
    }
}

proof fn lemma_last_non_quote(s: Seq<char>, j: int)
    requires
        0 <= j <= s.len(),
        forall|k: int| j <= k < s.len() ==> #[trigger] s[k] == '"',
        j == 0 || s[j - 1] != '"',
    ensures
        last_non_quote_end(s) == j,
    decreases s.len(),
{
    if s.len() > 0 && j < s.len() {
        assert(s[s.len() - 1] == '"');
        assert forall|k: int| j <= k < s.drop_last().len() implies #[trigger] s.drop_last()[k] == '"' by {
            assert(s.drop_last()[k] == s[k]);
        }
        lemma_last_non_quote(s.drop_last(), j);
    }
}

/// Strips leading and trailing `"` characters (see [`strip_quotes_spec`]).
pub fn strip_quotes(s: &str) -> (r: String)
    ensures
        r@ == strip_quotes_spec(s@),
{
    let v = crate::text::chars_of(s);
    let mut i: usize = 0;
    while i < v.len() && v[i] == '"'
        invariant
            v@ == s@,
            i <= v.len(),
            forall|k: int| 0 <= k < i ==> #[trigger] v@[k] == '"',
        decreases v.len() - i,
    {
        i += 1;
    }
    proof {
        lemma_first_non_quote(s@, i as int);
    }
    let mut j: usize = v.len();
    while j > i && v[j - 1] == '"'
        invariant
            v@ == s@,
            i <= j <= v.len(),
            forall|k: int| j <= k < v.len() ==> #[trigger] v@[k] == '"',
        decreases j,
    {
        j -= 1;
    }
    proof {
        if j > i {
            lemma_last_non_quote(s@, j as int);
        } else {
            lemma_last_non_quote(s@, 0);
        }
    }
    crate::text::string_from_range(&v, i, j)
}

} // verus!
