//! The widget tree that engine back ends consume: each element of an HTML
//! page becomes a [`UiNode`] whose [`WidgetKind`] comes from its
//! `data-widget` attribute or, failing that, from its tag and inline style.

use vstd::prelude::*;
use vstd::string::*;

use crate::attrs::{Attr, attr_get, attr_insert, attr_lookup, attrs_sorted};
use crate::dom::{Document, NodeData, NodeId, NodeKind, kind_ok};
use crate::traversal::{collect_text, preorder, subtree_order, texts_of, walk_depth};
use crate::text::{
    copy_str, eq_ignore_ascii_case, eq_ignore_ascii_case_spec, first_whitespace_token, first_ws_token,
    push_char, str_eq, string_from_range, trim, trim_spec,
};

verus! {

/// Orientation of a layout container.
#[derive(Debug, Clone, Copy, PartialEq, Eq, Structural)]
pub enum Orientation {
    Horizontal,
    Vertical,
}

/// The kind of widget a node stands for.
#[derive(Debug, PartialEq, Eq)]
pub enum WidgetKind {
    Layout(Orientation),
    Button,
    Text,
    Image,
    ScrollView,
    ListView,
    TextField,
    CheckBox,
    Slider,
    ProgressBar,
    Unknown(String),
}

/// Mathematical value of a [`WidgetKind`].
pub enum WidgetKindView {
    Layout(Orientation),
    Button,
    Text,
    Image,
    ScrollView,
    ListView,
    TextField,
    CheckBox,
    Slider,
    ProgressBar,
    Unknown(Seq<char>),
}

impl View for WidgetKind {
    type V = WidgetKindView;

    open spec fn view(&self) -> WidgetKindView {
        match self {
            WidgetKind::Layout(o) => WidgetKindView::Layout(*o),
            WidgetKind::Button => WidgetKindView::Button,
            WidgetKind::Text => WidgetKindView::Text,
            WidgetKind::Image => WidgetKindView::Image,
            WidgetKind::ScrollView => WidgetKindView::ScrollView,
            WidgetKind::ListView => WidgetKindView::ListView,
            WidgetKind::TextField => WidgetKindView::TextField,
            WidgetKind::CheckBox => WidgetKindView::CheckBox,
            WidgetKind::Slider => WidgetKindView::Slider,
            WidgetKind::ProgressBar => WidgetKindView::ProgressBar,
            WidgetKind::Unknown(s) => WidgetKindView::Unknown(s@),
        }
    }
}

/// The widget kind a `data-widget` value names; an unrecognised value is
/// kept as `Unknown`.
pub open spec fn data_widget_spec(v: Seq<char>) -> WidgetKindView {
    if v == "Layout"@ || v == "Panel"@ {
        WidgetKindView::Layout(Orientation::Vertical)
    } else if v == "HLayout"@ {
        WidgetKindView::Layout(Orientation::Horizontal)
    } else if v == "VLayout"@ {
        WidgetKindView::Layout(Orientation::Vertical)
    } else if v == "Button"@ {
        WidgetKindView::Button
    } else if v == "Text"@ || v == "Label"@ {
        WidgetKindView::Text
    } else if v == "Image"@ || v == "ImageView"@ {
        WidgetKindView::Image
    } else if v == "ScrollView"@ {
        WidgetKindView::ScrollView
    } else if v == "ListView"@ {
        WidgetKindView::ListView
    } else if v == "TextField"@ {
        WidgetKindView::TextField
    } else if v == "CheckBox"@ {
        WidgetKindView::CheckBox
    } else if v == "Slider"@ {
        WidgetKindView::Slider
    } else if v == "ProgressBar"@ || v == "LoadingBar"@ {
        WidgetKindView::ProgressBar
    } else {
        WidgetKindView::Unknown(v)
    }
}

/// The names of the `data-widget` table are pairwise different.
proof fn lemma_widget_names_distinct()
    ensures
        "Layout"@ != "Panel"@,
        "Layout"@ != "HLayout"@,
        "Layout"@ != "VLayout"@,
        "Layout"@ != "Button"@,
        "Layout"@ != "Text"@,
        "Layout"@ != "Label"@,
        "Layout"@ != "Image"@,
        "Layout"@ != "ImageView"@,
        "Layout"@ != "ScrollView"@,
        "Layout"@ != "ListView"@,
        "Layout"@ != "TextField"@,
        "Layout"@ != "CheckBox"@,
        "Layout"@ != "Slider"@,
        "Layout"@ != "ProgressBar"@,
        "Layout"@ != "LoadingBar"@,
        "Panel"@ != "HLayout"@,
        "Panel"@ != "VLayout"@,
        "Panel"@ != "Button"@,
        "Panel"@ != "Text"@,
        "Panel"@ != "Label"@,
        "Panel"@ != "Image"@,
        "Panel"@ != "ImageView"@,
        "Panel"@ != "ScrollView"@,
        "Panel"@ != "ListView"@,
        "Panel"@ != "TextField"@,
        "Panel"@ != "CheckBox"@,
        "Panel"@ != "Slider"@,
        "Panel"@ != "ProgressBar"@,
        "Panel"@ != "LoadingBar"@,
        "HLayout"@ != "VLayout"@,
        "HLayout"@ != "Button"@,
        "HLayout"@ != "Text"@,
        "HLayout"@ != "Label"@,
        "HLayout"@ != "Image"@,
        "HLayout"@ != "ImageView"@,
        "HLayout"@ != "ScrollView"@,
        "HLayout"@ != "ListView"@,
        "HLayout"@ != "TextField"@,
        "HLayout"@ != "CheckBox"@,
        "HLayout"@ != "Slider"@,
        "HLayout"@ != "ProgressBar"@,
        "HLayout"@ != "LoadingBar"@,
        "VLayout"@ != "Button"@,
        "VLayout"@ != "Text"@,
        "VLayout"@ != "Label"@,
        "VLayout"@ != "Image"@,
        "VLayout"@ != "ImageView"@,
        "VLayout"@ != "ScrollView"@,
        "VLayout"@ != "ListView"@,
        "VLayout"@ != "TextField"@,
        "VLayout"@ != "CheckBox"@,
        "VLayout"@ != "Slider"@,
        "VLayout"@ != "ProgressBar"@,
        "VLayout"@ != "LoadingBar"@,
        "Button"@ != "Text"@,
        "Button"@ != "Label"@,
        "Button"@ != "Image"@,
        "Button"@ != "ImageView"@,
        "Button"@ != "ScrollView"@,
        "Button"@ != "ListView"@,
        "Button"@ != "TextField"@,
        "Button"@ != "CheckBox"@,
        "Button"@ != "Slider"@,
        "Button"@ != "ProgressBar"@,
        "Button"@ != "LoadingBar"@,
        "Text"@ != "Label"@,
        "Text"@ != "Image"@,
        "Text"@ != "ImageView"@,
        "Text"@ != "ScrollView"@,
        "Text"@ != "ListView"@,
        "Text"@ != "TextField"@,
        "Text"@ != "CheckBox"@,
        "Text"@ != "Slider"@,
        "Text"@ != "ProgressBar"@,
        "Text"@ != "LoadingBar"@,
        "Label"@ != "Image"@,
        "Label"@ != "ImageView"@,
        "Label"@ != "ScrollView"@,
        "Label"@ != "ListView"@,
        "Label"@ != "TextField"@,
        "Label"@ != "CheckBox"@,
        "Label"@ != "Slider"@,
        "Label"@ != "ProgressBar"@,
        "Label"@ != "LoadingBar"@,
        "Image"@ != "ImageView"@,
        "Image"@ != "ScrollView"@,
        "Image"@ != "ListView"@,
        "Image"@ != "TextField"@,
        "Image"@ != "CheckBox"@,
        "Image"@ != "Slider"@,
        "Image"@ != "ProgressBar"@,
        "Image"@ != "LoadingBar"@,
        "ImageView"@ != "ScrollView"@,
        "ImageView"@ != "ListView"@,
        "ImageView"@ != "TextField"@,
        "ImageView"@ != "CheckBox"@,
        "ImageView"@ != "Slider"@,
        "ImageView"@ != "ProgressBar"@,
        "ImageView"@ != "LoadingBar"@,
        "ScrollView"@ != "ListView"@,
        "ScrollView"@ != "TextField"@,
        "ScrollView"@ != "CheckBox"@,
        "ScrollView"@ != "Slider"@,
        "ScrollView"@ != "ProgressBar"@,
        "ScrollView"@ != "LoadingBar"@,
        "ListView"@ != "TextField"@,
        "ListView"@ != "CheckBox"@,
        "ListView"@ != "Slider"@,
        "ListView"@ != "ProgressBar"@,
        "ListView"@ != "LoadingBar"@,
        "TextField"@ != "CheckBox"@,
        "TextField"@ != "Slider"@,
        "TextField"@ != "ProgressBar"@,
        "TextField"@ != "LoadingBar"@,
        "CheckBox"@ != "Slider"@,
        "CheckBox"@ != "ProgressBar"@,
        "CheckBox"@ != "LoadingBar"@,
        "Slider"@ != "ProgressBar"@,
        "Slider"@ != "LoadingBar"@,
        "ProgressBar"@ != "LoadingBar"@,
{
    reveal_strlit("Layout");
    reveal_strlit("Panel");
    reveal_strlit("HLayout");
    reveal_strlit("VLayout");
    reveal_strlit("Button");
    reveal_strlit("Text");
    reveal_strlit("Label");
    reveal_strlit("Image");
    reveal_strlit("ImageView");
    reveal_strlit("ScrollView");
    reveal_strlit("ListView");
    reveal_strlit("TextField");
    reveal_strlit("CheckBox");
    reveal_strlit("Slider");
    reveal_strlit("ProgressBar");
    reveal_strlit("LoadingBar");
    assert("Layout"@.len() != "Panel"@.len());
    assert("Layout"@.len() != "HLayout"@.len());
    assert("Layout"@.len() != "VLayout"@.len());
    assert("Layout"@.len() != "Text"@.len());
    assert("Layout"@.len() != "Label"@.len());
    assert("Layout"@.len() != "Image"@.len());
    assert("Layout"@.len() != "ImageView"@.len());
    assert("Layout"@.len() != "ScrollView"@.len());
    assert("Layout"@.len() != "ListView"@.len());
    assert("Layout"@.len() != "TextField"@.len());
    assert("Layout"@.len() != "CheckBox"@.len());
    assert("Layout"@.len() != "ProgressBar"@.len());
    assert("Layout"@.len() != "LoadingBar"@.len());
    assert("Panel"@.len() != "HLayout"@.len());
    assert("Panel"@.len() != "VLayout"@.len());
    assert("Panel"@.len() != "Button"@.len());
    assert("Panel"@.len() != "Text"@.len());
    assert("Panel"@.len() != "ImageView"@.len());
    assert("Panel"@.len() != "ScrollView"@.len());
    assert("Panel"@.len() != "ListView"@.len());
    assert("Panel"@.len() != "TextField"@.len());
    assert("Panel"@.len() != "CheckBox"@.len());
    assert("Panel"@.len() != "Slider"@.len());
    assert("Panel"@.len() != "ProgressBar"@.len());
    assert("Panel"@.len() != "LoadingBar"@.len());
    assert("HLayout"@.len() != "Button"@.len());
    assert("HLayout"@.len() != "Text"@.len());
    assert("HLayout"@.len() != "Label"@.len());
    assert("HLayout"@.len() != "Image"@.len());
    assert("HLayout"@.len() != "ImageView"@.len());
    assert("HLayout"@.len() != "ScrollView"@.len());
    assert("HLayout"@.len() != "ListView"@.len());
    assert("HLayout"@.len() != "TextField"@.len());
    assert("HLayout"@.len() != "CheckBox"@.len());
    assert("HLayout"@.len() != "Slider"@.len());
    assert("HLayout"@.len() != "ProgressBar"@.len());
    assert("HLayout"@.len() != "LoadingBar"@.len());
    assert("VLayout"@.len() != "Button"@.len());
    assert("VLayout"@.len() != "Text"@.len());
    assert("VLayout"@.len() != "Label"@.len());
    assert("VLayout"@.len() != "Image"@.len());
    assert("VLayout"@.len() != "ImageView"@.len());
    assert("VLayout"@.len() != "ScrollView"@.len());
    assert("VLayout"@.len() != "ListView"@.len());
    assert("VLayout"@.len() != "TextField"@.len());
    assert("VLayout"@.len() != "CheckBox"@.len());
    assert("VLayout"@.len() != "Slider"@.len());
    assert("VLayout"@.len() != "ProgressBar"@.len());
    assert("VLayout"@.len() != "LoadingBar"@.len());
    assert("Button"@.len() != "Text"@.len());
    assert("Button"@.len() != "Label"@.len());
    assert("Button"@.len() != "Image"@.len());
    assert("Button"@.len() != "ImageView"@.len());
    assert("Button"@.len() != "ScrollView"@.len());
    assert("Button"@.len() != "ListView"@.len());
    assert("Button"@.len() != "TextField"@.len());
    assert("Button"@.len() != "CheckBox"@.len());
    assert("Button"@.len() != "ProgressBar"@.len());
    assert("Button"@.len() != "LoadingBar"@.len());
    assert("Text"@.len() != "Label"@.len());
    assert("Text"@.len() != "Image"@.len());
    assert("Text"@.len() != "ImageView"@.len());
    assert("Text"@.len() != "ScrollView"@.len());
    assert("Text"@.len() != "ListView"@.len());
    assert("Text"@.len() != "TextField"@.len());
    assert("Text"@.len() != "CheckBox"@.len());
    assert("Text"@.len() != "Slider"@.len());
    assert("Text"@.len() != "ProgressBar"@.len());
    assert("Text"@.len() != "LoadingBar"@.len());
    assert("Label"@.len() != "ImageView"@.len());
    assert("Label"@.len() != "ScrollView"@.len());
    assert("Label"@.len() != "ListView"@.len());
    assert("Label"@.len() != "TextField"@.len());
    assert("Label"@.len() != "CheckBox"@.len());
    assert("Label"@.len() != "Slider"@.len());
    assert("Label"@.len() != "ProgressBar"@.len());
    assert("Label"@.len() != "LoadingBar"@.len());
    assert("Image"@.len() != "ImageView"@.len());
    assert("Image"@.len() != "ScrollView"@.len());
    assert("Image"@.len() != "ListView"@.len());
    assert("Image"@.len() != "TextField"@.len());
    assert("Image"@.len() != "CheckBox"@.len());
    assert("Image"@.len() != "Slider"@.len());
    assert("Image"@.len() != "ProgressBar"@.len());
    assert("Image"@.len() != "LoadingBar"@.len());
    assert("ImageView"@.len() != "ScrollView"@.len());
    assert("ImageView"@.len() != "ListView"@.len());
    assert("ImageView"@.len() != "CheckBox"@.len());
    assert("ImageView"@.len() != "Slider"@.len());
    assert("ImageView"@.len() != "ProgressBar"@.len());
    assert("ImageView"@.len() != "LoadingBar"@.len());
    assert("ScrollView"@.len() != "ListView"@.len());
    assert("ScrollView"@.len() != "TextField"@.len());
    assert("ScrollView"@.len() != "CheckBox"@.len());
    assert("ScrollView"@.len() != "Slider"@.len());
    assert("ScrollView"@.len() != "ProgressBar"@.len());
    assert("ListView"@.len() != "TextField"@.len());
    assert("ListView"@.len() != "Slider"@.len());
    assert("ListView"@.len() != "ProgressBar"@.len());
    assert("ListView"@.len() != "LoadingBar"@.len());
    assert("TextField"@.len() != "CheckBox"@.len());
    assert("TextField"@.len() != "Slider"@.len());
    assert("TextField"@.len() != "ProgressBar"@.len());
    assert("TextField"@.len() != "LoadingBar"@.len());
    assert("CheckBox"@.len() != "Slider"@.len());
    assert("CheckBox"@.len() != "ProgressBar"@.len());
    assert("CheckBox"@.len() != "LoadingBar"@.len());
    assert("Slider"@.len() != "ProgressBar"@.len());
    assert("Slider"@.len() != "LoadingBar"@.len());
    assert("ProgressBar"@.len() != "LoadingBar"@.len());
    assert("Layout"@[0] != "Button"@[0]);
    assert("Layout"@[0] != "Slider"@[0]);
    assert("Panel"@[0] != "Label"@[0]);
    assert("Panel"@[0] != "Image"@[0]);
    assert("HLayout"@[0] != "VLayout"@[0]);
    assert("Button"@[0] != "Slider"@[0]);
    assert("Label"@[0] != "Image"@[0]);
    assert("ImageView"@[0] != "TextField"@[0]);
    assert("ScrollView"@[0] != "LoadingBar"@[0]);
    assert("ListView"@[0] != "CheckBox"@[0]);
}

/// The `data-widget` values that name a layout: `VLayout`, `Layout` and
/// `Panel` give a vertical layout, and only `HLayout` a horizontal one.
pub proof fn law_layout_orientation(v: Seq<char>)
    ensures
        v == "VLayout"@ || v == "Layout"@ || v == "Panel"@ ==> data_widget_spec(v) == WidgetKindView::Layout(
            Orientation::Vertical,
        ),
        (data_widget_spec(v) == WidgetKindView::Layout(Orientation::Horizontal)) <==> v == "HLayout"@,
{
    lemma_widget_names_distinct();
}

/// Which `data-widget` values name which widget: each kind has exactly the
/// names of the table, and any other value is kept as `Unknown` with the
/// value itself.
pub proof fn law_data_widget_names(v: Seq<char>)
    ensures
        (data_widget_spec(v) == WidgetKindView::Button) <==> v == "Button"@,
        (data_widget_spec(v) == WidgetKindView::Text) <==> (v == "Text"@ || v == "Label"@),
        (data_widget_spec(v) == WidgetKindView::Image) <==> (v == "Image"@ || v == "ImageView"@),
        (data_widget_spec(v) == WidgetKindView::ScrollView) <==> v == "ScrollView"@,
        (data_widget_spec(v) == WidgetKindView::ListView) <==> v == "ListView"@,
        (data_widget_spec(v) == WidgetKindView::TextField) <==> v == "TextField"@,
        (data_widget_spec(v) == WidgetKindView::CheckBox) <==> v == "CheckBox"@,
        (data_widget_spec(v) == WidgetKindView::Slider) <==> v == "Slider"@,
        (data_widget_spec(v) == WidgetKindView::ProgressBar) <==> (v == "ProgressBar"@ || v == "LoadingBar"@),
        data_widget_spec(v) is Unknown ==> data_widget_spec(v) == WidgetKindView::Unknown(v),
{
    lemma_widget_names_distinct();
}

/// Parses a `data-widget` attribute value into a [`WidgetKind`].
pub fn parse_data_widget(value: &str) -> (k: WidgetKind)
    ensures
        k@ == data_widget_spec(value@),
{
    if str_eq(value, "Layout") || str_eq(value, "Panel") {
        WidgetKind::Layout(Orientation::Vertical)
    } else if str_eq(value, "HLayout") {
        WidgetKind::Layout(Orientation::Horizontal)
    } else if str_eq(value, "VLayout") {
        WidgetKind::Layout(Orientation::Vertical)
    } else if str_eq(value, "Button") {
        WidgetKind::Button
    } else if str_eq(value, "Text") || str_eq(value, "Label") {
        WidgetKind::Text
    } else if str_eq(value, "Image") || str_eq(value, "ImageView") {
        WidgetKind::Image
    } else if str_eq(value, "ScrollView") {
        WidgetKind::ScrollView
    } else if str_eq(value, "ListView") {
        WidgetKind::ListView
    } else if str_eq(value, "TextField") {
        WidgetKind::TextField
    } else if str_eq(value, "CheckBox") {
        WidgetKind::CheckBox
    } else if str_eq(value, "Slider") {
        WidgetKind::Slider
    } else if str_eq(value, "ProgressBar") || str_eq(value, "LoadingBar") {
        WidgetKind::ProgressBar
    } else {
        WidgetKind::Unknown(copy_str(value))
    }
}

/// The engine-specific widget names that carry text like a leaf.
pub open spec fn is_text_like_unknown(name: Seq<char>) -> bool {
    name == "TextBMFont"@ || name == "TextAtlas"@ || name == "Sprite"@ || name == "ProjectNode"@
}

/// A leaf widget collects the text of its content instead of converting
/// its children.
pub open spec fn is_leaf_spec(k: WidgetKindView) -> bool {
    match k {
        WidgetKindView::Button | WidgetKindView::Text | WidgetKindView::TextField => true,
        WidgetKindView::Unknown(name) => is_text_like_unknown(name),
        _ => false,
    }
}

/// A container widget converts its children.
pub open spec fn is_container_spec(k: WidgetKindView) -> bool {
    match k {
        WidgetKindView::Layout(_) | WidgetKindView::ScrollView | WidgetKindView::ListView => true,
        _ => false,
    }
}

/// Whether this widget kind is a leaf that collects its text content.
pub fn is_leaf_widget(kind: &WidgetKind) -> (b: bool)
    ensures
        b == is_leaf_spec(kind@),
{
    match kind {
        WidgetKind::Button | WidgetKind::Text | WidgetKind::TextField => true,
        WidgetKind::Unknown(name) => str_eq(name.as_str(), "TextBMFont") || str_eq(name.as_str(), "TextAtlas")
            || str_eq(name.as_str(), "Sprite") || str_eq(name.as_str(), "ProjectNode"),
        _ => false,
    }
}

/// Whether this widget kind is a container whose children are converted.
pub fn is_container_widget(kind: &WidgetKind) -> (b: bool)
    ensures
        b == is_container_spec(kind@),
{
    match kind {
        WidgetKind::Layout(_) | WidgetKind::ScrollView | WidgetKind::ListView => true,
        _ => false,
    }
}

/// The display name of a widget kind.
pub open spec fn format_widget_spec(k: WidgetKindView) -> Seq<char> {
    match k {
        WidgetKindView::Layout(Orientation::Horizontal) => "Layout(Horizontal)"@,
        WidgetKindView::Layout(Orientation::Vertical) => "Layout(Vertical)"@,
        WidgetKindView::Button => "Button"@,
        WidgetKindView::Text => "Text"@,
        WidgetKindView::Image => "Image"@,
        WidgetKindView::ScrollView => "ScrollView"@,
        WidgetKindView::ListView => "ListView"@,
        WidgetKindView::TextField => "TextField"@,
        WidgetKindView::CheckBox => "CheckBox"@,
        WidgetKindView::Slider => "Slider"@,
        WidgetKindView::ProgressBar => "ProgressBar"@,
        WidgetKindView::Unknown(_) => "Unknown"@,
    }
}

/// The display name of a widget kind.
pub fn format_widget(widget: &WidgetKind) -> (s: &'static str)
    ensures
        s@ == format_widget_spec(widget@),
{
    match widget {
        WidgetKind::Layout(Orientation::Horizontal) => "Layout(Horizontal)",
        WidgetKind::Layout(Orientation::Vertical) => "Layout(Vertical)",
        WidgetKind::Button => "Button",
        WidgetKind::Text => "Text",
        WidgetKind::Image => "Image",
        WidgetKind::ScrollView => "ScrollView",
        WidgetKind::ListView => "ListView",
        WidgetKind::TextField => "TextField",
        WidgetKind::CheckBox => "CheckBox",
        WidgetKind::Slider => "Slider",
        WidgetKind::ProgressBar => "ProgressBar",
        WidgetKind::Unknown(_) => "Unknown",
    }
}

impl WidgetKind {
    /// A copy with the same value.
    pub fn duplicate(&self) -> (k: Self)
        ensures
            k@ == self@,
    {
        match self {
            WidgetKind::Layout(o) => WidgetKind::Layout(*o),
            WidgetKind::Button => WidgetKind::Button,
            WidgetKind::Text => WidgetKind::Text,
            WidgetKind::Image => WidgetKind::Image,
            WidgetKind::ScrollView => WidgetKind::ScrollView,
            WidgetKind::ListView => WidgetKind::ListView,
            WidgetKind::TextField => WidgetKind::TextField,
            WidgetKind::CheckBox => WidgetKind::CheckBox,
            WidgetKind::Slider => WidgetKind::Slider,
            WidgetKind::ProgressBar => WidgetKind::ProgressBar,
            WidgetKind::Unknown(s) => WidgetKind::Unknown(copy_str(s.as_str())),
        }
    }
}

// ───────────────────────── inline style declarations ─────────────────────────

/// The pieces of `s` between occurrences of `sep`.
pub open spec fn split_at_char(s: Seq<char>, sep: char) -> Seq<Seq<char>>
    decreases s.len(),
{
    if s.len() == 0 {
        seq![Seq::empty()]
    } else {
        let p = split_at_char(s.drop_last(), sep);
        if s.last() == sep {
            p.push(Seq::empty())
        } else {
            p.update(p.len() - 1, p.last().push(s.last()))
        }
    }
}

proof fn lemma_split_nonempty(s: Seq<char>, sep: char)
    ensures
        split_at_char(s, sep).len() >= 1,
    decreases s.len(),
{
    if s.len() > 0 {
        lemma_split_nonempty(s.drop_last(), sep);
    }
}

/// Index of the first `c` in `s` (`s.len()` when absent).
pub open spec fn char_index(s: Seq<char>, c: char) -> int
    decreases s.len(),
{
    if s.len() == 0 {
        0
    } else if s[0] == c {
        0
    } else {
        1 + char_index(s.drop_first(), c)
    }
}

proof fn lemma_char_index(s: Seq<char>, c: char, i: int)
    requires
        0 <= i <= s.len(),
        forall|k: int| 0 <= k < i ==> s[k] != c,
        i == s.len() || s[i] == c,
    ensures
        char_index(s, c) == i,
    decreases s.len(),
{
    if s.len() > 0 && i > 0 {
        assert forall|k: int| 0 <= k < i - 1 implies s.drop_first()[k] != c by {
            assert(s.drop_first()[k] == s[k + 1]);
        }
        lemma_char_index(s.drop_first(), c, i - 1);
    }
}

/// One `name: value` declaration of an inline style, both parts trimmed;
/// `None` for a piece without a colon.
pub open spec fn declaration_of(piece: Seq<char>) -> Option<(Seq<char>, Seq<char>)> {
    let i = char_index(piece, ':');
    if i < piece.len() {
        Some((trim_spec(piece.subrange(0, i)), trim_spec(piece.subrange(i + 1, piece.len() as int))))
    } else {
        None
    }
}

/// The declarations of the pieces `ps`, in order.
pub open spec fn declarations_of(ps: Seq<Seq<char>>) -> Seq<(Seq<char>, Seq<char>)>
    decreases ps.len(),
{
    if ps.len() == 0 {
        Seq::empty()
    } else {
        let rest = declarations_of(ps.drop_last());
        match declaration_of(ps.last()) {
            Some(d) => rest.push(d),
            None => rest,
        }
    }
}

/// The declarations of an inline `style` attribute: its `;`-separated
/// pieces that hold a colon, split at the first colon.
pub open spec fn inline_declarations(style: Seq<char>) -> Seq<(Seq<char>, Seq<char>)> {
    declarations_of(split_at_char(style, ';'))
}

/// The `;`-separated pieces of `s`.
fn split_semicolons(s: &str) -> (pieces: Vec<Vec<char>>)
    ensures
        pieces@.map_values(|p: Vec<char>| p@) == split_at_char(s@, ';'),
{
    let v = crate::text::chars_of(s);
    let mut pieces: Vec<Vec<char>> = Vec::new();
    let mut cur: Vec<char> = Vec::new();
    let mut i: usize = 0;
    proof {
        assert(v@.take(0) =~= Seq::<char>::empty());
        assert(pieces@.map_values(|p: Vec<char>| p@).push(cur@) =~= seq![Seq::<char>::empty()]);
    }
    while i < v.len()
        invariant
            i <= v.len(),
            v@ == s@,
            pieces@.map_values(|p: Vec<char>| p@).push(cur@) == split_at_char(v@.take(i as int), ';'),
        decreases v.len() - i,
    {
        let ghost before = pieces@.map_values(|p: Vec<char>| p@);
        let ghost cur0 = cur@;
        proof {
            assert(v@.take(i + 1).drop_last() =~= v@.take(i as int));
            assert(v@.take(i + 1).last() == v@[i as int]);
        }
        if v[i] == ';' {
            pieces.push(cur);
            cur = Vec::new();
            proof {
                assert(pieces@.map_values(|p: Vec<char>| p@) =~= before.push(cur0));
                assert(pieces@.map_values(|p: Vec<char>| p@).push(cur@) =~= before.push(cur0).push(
                    Seq::empty(),
                ));
            }
        } else {
            cur.push(v[i]);
            proof {
                assert(pieces@.map_values(|p: Vec<char>| p@).push(cur@) =~= before.push(cur0).update(
                    before.len() as int,
                    cur0.push(v@[i as int]),
                ));
            }
        }
        i += 1;
    }
    proof {
        assert(v@.take(v.len() as int) =~= v@);
    }
    let ghost before = pieces@.map_values(|p: Vec<char>| p@);
    pieces.push(cur);
    proof {
        assert(pieces@.map_values(|p: Vec<char>| p@) =~= before.push(cur@));
    }
    pieces
}

/// The declaration held by one piece, if it has a colon.
fn piece_declaration(piece: &Vec<char>) -> (r: Option<(String, String)>)
    ensures
        match r {
            Some(d) => declaration_of(piece@) == Some((d.0@, d.1@)),
            None => declaration_of(piece@) is None,
        },
{
    let mut i: usize = 0;
    while i < piece.len() && piece[i] != ':'
        invariant
            i <= piece.len(),
            forall|k: int| 0 <= k < i ==> piece@[k] != ':',
        decreases piece.len() - i,
    {
        i += 1;
    }
    proof {
        lemma_char_index(piece@, ':', i as int);
    }
    if i == piece.len() {
        return None;
    }
    let name = string_from_range(piece, 0, i);
    let value = string_from_range(piece, i + 1, piece.len());
    Some((trim(name.as_str()), trim(value.as_str())))
}

/// The declarations of an inline `style` attribute (see
/// [`inline_declarations`]).
pub fn style_declarations(style: &str) -> (r: Vec<(String, String)>)
    ensures
        r@.map_values(|d: (String, String)| (d.0@, d.1@)) == inline_declarations(style@),
{
    let pieces = split_semicolons(style);
    let ghost ps = pieces@.map_values(|p: Vec<char>| p@);
    let mut r: Vec<(String, String)> = Vec::new();
    let mut i: usize = 0;
    proof {
        assert(ps.take(0) =~= Seq::<Seq<char>>::empty());
        assert(r@.map_values(|d: (String, String)| (d.0@, d.1@)) =~= Seq::<(Seq<char>, Seq<char>)>::empty());
    }
    while i < pieces.len()
        invariant
            i <= pieces.len(),
            ps == pieces@.map_values(|p: Vec<char>| p@),
            r@.map_values(|d: (String, String)| (d.0@, d.1@)) == declarations_of(ps.take(i as int)),
        decreases pieces.len() - i,
    {
        proof {
            assert(ps.take(i + 1).drop_last() =~= ps.take(i as int));
            assert(ps.take(i + 1).last() == pieces@[i as int]@);
        }
        let ghost before = r@.map_values(|d: (String, String)| (d.0@, d.1@));
        match piece_declaration(&pieces[i]) {
            Some(d) => {
                let ghost dv = (d.0@, d.1@);
                r.push(d);
                proof {
                    assert(r@.map_values(|d: (String, String)| (d.0@, d.1@)) =~= before.push(dv));
                }
            },
            None => {},
        }
        i += 1;
    }
    proof {
        assert(ps.take(pieces.len() as int) =~= ps);
    }
    r
}

/// `n` names an overflow property (`overflow`, `overflow-x` or
/// `overflow-y`, in any ASCII case).
pub open spec fn is_overflow_name(n: Seq<char>) -> bool {
    eq_ignore_ascii_case_spec(n, "overflow"@) || eq_ignore_ascii_case_spec(n, "overflow-x"@)
        || eq_ignore_ascii_case_spec(n, "overflow-y"@)
}

/// An inline style declares an overflow property with the value `scroll`.
pub open spec fn has_overflow_scroll_spec(style: Seq<char>) -> bool {
    let ds = inline_declarations(style);
    exists|k: int| 0 <= k < ds.len() && is_overflow_name(#[trigger] ds[k].0) && eq_ignore_ascii_case_spec(ds[k].1, "scroll"@)
}

/// Whether an inline style declares `overflow: scroll` (or its `-x` / `-y`
/// form).
pub fn has_overflow_scroll(style: &str) -> (b: bool)
    ensures
        b == has_overflow_scroll_spec(style@),
{
    let ds = style_declarations(style);
    let ghost dv = ds@.map_values(|d: (String, String)| (d.0@, d.1@));
    let mut i: usize = 0;
    while i < ds.len()
        invariant
            i <= ds.len(),
            dv == ds@.map_values(|d: (String, String)| (d.0@, d.1@)),
            dv == inline_declarations(style@),
            forall|k: int| 0 <= k < i ==> !(is_overflow_name(#[trigger] dv[k].0) && eq_ignore_ascii_case_spec(dv[k].1, "scroll"@)),
        decreases ds.len() - i,
    {
        let name = ds[i].0.as_str();
        let value = ds[i].1.as_str();
        assert(dv[i as int] == (ds@[i as int].0@, ds@[i as int].1@));
        if (eq_ignore_ascii_case(name, "overflow") || eq_ignore_ascii_case(name, "overflow-x") || eq_ignore_ascii_case(
            name,
            "overflow-y",
        )) && eq_ignore_ascii_case(value, "scroll") {
            assert(is_overflow_name(dv[i as int].0) && eq_ignore_ascii_case_spec(dv[i as int].1, "scroll"@));
            return true;
        }
        i += 1;
    }
    false
}

/// The orientation a `flex-direction` value gives: rows are horizontal,
/// columns vertical.
pub open spec fn flex_orientation(v: Seq<char>) -> Option<Orientation> {
    if eq_ignore_ascii_case_spec(v, "row"@) || eq_ignore_ascii_case_spec(v, "row-reverse"@) {
        Some(Orientation::Horizontal)
    } else if eq_ignore_ascii_case_spec(v, "column"@) || eq_ignore_ascii_case_spec(v, "column-reverse"@) {
        Some(Orientation::Vertical)
    } else {
        None
    }
}

/// The orientation of the last valid `flex-direction` declaration of `ds`.
pub open spec fn last_flex_direction(ds: Seq<(Seq<char>, Seq<char>)>) -> Option<Orientation>
    decreases ds.len(),
{
    if ds.len() == 0 {
        None
    } else if eq_ignore_ascii_case_spec(ds.last().0, "flex-direction"@) && flex_orientation(ds.last().1) is Some {
        flex_orientation(ds.last().1)
    } else {
        last_flex_direction(ds.drop_last())
    }
}

fn flex_orientation_of(v: &str) -> (r: Option<Orientation>)
    ensures
        r == flex_orientation(v@),
{
    if eq_ignore_ascii_case(v, "row") || eq_ignore_ascii_case(v, "row-reverse") {
        Some(Orientation::Horizontal)
    } else if eq_ignore_ascii_case(v, "column") || eq_ignore_ascii_case(v, "column-reverse") {
        Some(Orientation::Vertical)
    } else {
        None
    }
}

/// The orientation an inline style's `flex-direction` gives, if any.
pub fn parse_flex_direction(style: &str) -> (r: Option<Orientation>)
    ensures
        r == last_flex_direction(inline_declarations(style@)),
{
    let ds = style_declarations(style);
    let ghost dv = ds@.map_values(|d: (String, String)| (d.0@, d.1@));
    let mut r: Option<Orientation> = None;
    let mut i: usize = 0;
    proof {
        assert(dv.take(0) =~= Seq::<(Seq<char>, Seq<char>)>::empty());
    }
    while i < ds.len()
        invariant
            i <= ds.len(),
            dv == ds@.map_values(|d: (String, String)| (d.0@, d.1@)),
            r == last_flex_direction(dv.take(i as int)),
        decreases ds.len() - i,
    {
        proof {
            assert(dv.take(i + 1).drop_last() =~= dv.take(i as int));
            assert(dv.take(i + 1).last() == (ds@[i as int].0@, ds@[i as int].1@));
        }
        if eq_ignore_ascii_case(ds[i].0.as_str(), "flex-direction") {
            match flex_orientation_of(ds[i].1.as_str()) {
                Some(o) => {
                    r = Some(o);
                },
                None => {},
            }
        }
        i += 1;
    }
    proof {
        assert(dv.take(ds.len() as int) =~= dv);
    }
    r
}

/// The name of a node: its non-empty `data-name`, else its non-empty `id`,
/// else the first token of its `class`, else its tag.
pub open spec fn name_spec(tag: Seq<char>, attrs: Seq<Attr>) -> Seq<char> {
    let dn = attr_lookup(attrs, "data-name"@);
    let id = attr_lookup(attrs, "id"@);
    let class = attr_lookup(attrs, "class"@);
    if dn is Some && dn->0.len() > 0 {
        dn->0
    } else if id is Some && id->0.len() > 0 {
        id->0
    } else if class is Some && first_ws_token(class->0) is Some && first_ws_token(class->0)->0.len() > 0 {
        first_ws_token(class->0)->0
    } else {
        tag
    }
}

/// The name of a node (see [`name_spec`]).
pub fn extract_name(tag: &str, attrs: &Vec<Attr>) -> (name: String)
    requires
        attrs_sorted(attrs@),
    ensures
        name@ == name_spec(tag@, attrs@),
{
    match attr_get(attrs, "data-name") {
        Some(n) => {
            if n.unicode_len() > 0 {
                return n.clone();
            }
        },
        None => {},
    }
    match attr_get(attrs, "id") {
        Some(n) => {
            if n.unicode_len() > 0 {
                return n.clone();
            }
        },
        None => {},
    }
    match attr_get(attrs, "class") {
        Some(c) => match first_whitespace_token(c.as_str()) {
            Some(t) => {
                if t.unicode_len() > 0 {
                    return t;
                }
            },
            None => {},
        },
        None => {},
    }
    copy_str(tag)
}

/// Tags that become text widgets.
pub open spec fn is_text_tag(t: Seq<char>) -> bool {
    t == "span"@ || t == "p"@ || t == "label"@ || t == "h1"@ || t == "h2"@ || t == "h3"@ || t == "h4"@
        || t == "h5"@ || t == "h6"@
}

/// Tags that behave like `div`.
pub open spec fn is_container_tag(t: Seq<char>) -> bool {
    t == "div"@ || t == "section"@ || t == "header"@ || t == "footer"@ || t == "nav"@ || t == "aside"@
        || t == "article"@ || t == "main"@ || t == "form"@ || t == "button"@ || t == "a"@ || t == "ul"@
        || t == "ol"@ || t == "input"@ || t == "textarea"@ || t == "progress"@
}

/// Tags that are skipped with their content.
pub open spec fn is_skip_tag(t: Seq<char>) -> bool {
    t == "head"@ || t == "script"@ || t == "style"@ || t == "link"@ || t == "meta"@
}

fn text_tag(t: &str) -> (b: bool)
    ensures
        b == is_text_tag(t@),
{
    str_eq(t, "span") || str_eq(t, "p") || str_eq(t, "label") || str_eq(t, "h1") || str_eq(t, "h2")
        || str_eq(t, "h3") || str_eq(t, "h4") || str_eq(t, "h5") || str_eq(t, "h6")
}

fn container_tag(t: &str) -> (b: bool)
    ensures
        b == is_container_tag(t@),
{
    str_eq(t, "div") || str_eq(t, "section") || str_eq(t, "header") || str_eq(t, "footer") || str_eq(t, "nav")
        || str_eq(t, "aside") || str_eq(t, "article") || str_eq(t, "main") || str_eq(t, "form") || str_eq(
        t,
        "button",
    ) || str_eq(t, "a") || str_eq(t, "ul") || str_eq(t, "ol") || str_eq(t, "input") || str_eq(t, "textarea")
        || str_eq(t, "progress")
}

fn skip_tag(t: &str) -> (b: bool)
    ensures
        b == is_skip_tag(t@),
{
    str_eq(t, "head") || str_eq(t, "script") || str_eq(t, "style") || str_eq(t, "link") || str_eq(t, "meta")
}

/// The widget kind of an element without `data-widget`, from its tag and
/// inline style: images, text tags, containers (a scroll view when the
/// style scrolls, else a layout along the style's flex direction), list
/// items; any other tag is kept as `Unknown`.
pub open spec fn classify_spec(tag: Seq<char>, style: Seq<char>) -> WidgetKindView {
    if tag == "img"@ {
        WidgetKindView::Image
    } else if is_text_tag(tag) {
        WidgetKindView::Text
    } else if is_container_tag(tag) {
        if has_overflow_scroll_spec(style) {
            WidgetKindView::ScrollView
        } else {
            match last_flex_direction(inline_declarations(style)) {
                Some(o) => WidgetKindView::Layout(o),
                None => WidgetKindView::Layout(Orientation::Vertical),
            }
        }
    } else if tag == "li"@ {
        WidgetKindView::Layout(Orientation::Vertical)
    } else {
        WidgetKindView::Unknown(tag)
    }
}

/// Classifies an element without `data-widget` (see [`classify_spec`]).
pub fn classify_element(tag: &str, style: &str) -> (k: WidgetKind)
    ensures
        k@ == classify_spec(tag@, style@),
{
    if str_eq(tag, "img") {
        WidgetKind::Image
    } else if text_tag(tag) {
        WidgetKind::Text
    } else if container_tag(tag) {
        if has_overflow_scroll(style) {
            WidgetKind::ScrollView
        } else {
            match parse_flex_direction(style) {
                Some(o) => WidgetKind::Layout(o),
                None => WidgetKind::Layout(Orientation::Vertical),
            }
        }
    } else if str_eq(tag, "li") {
        WidgetKind::Layout(Orientation::Vertical)
    } else {
        WidgetKind::Unknown(copy_str(tag))
    }
}

/// Attributes copied onto a widget node: `src`, `href`, `alt`,
/// `placeholder`, `type`, `value` and every `data-*` attribute.
pub open spec fn kept_attribute(n: Seq<char>) -> bool {
    n == "src"@ || n == "href"@ || n == "alt"@ || n == "placeholder"@ || n == "type"@ || n == "value"@ || (
    n.len() >= 5 && n.subrange(0, 5) == "data-"@)
}

fn keep_attribute(n: &str) -> (b: bool)
    ensures
        b == kept_attribute(n@),
{
    proof {
        reveal_strlit("data-");
    }
    str_eq(n, "src") || str_eq(n, "href") || str_eq(n, "alt") || str_eq(n, "placeholder") || str_eq(n, "type")
        || str_eq(n, "value") || crate::text::starts_with(n, "data-")
}

// ───────────────────────── the widget tree ─────────────────────────

/// The raw inline style of a node.
#[derive(Debug)]
pub struct CssProperties {
    pub raw: String,
}

/// One node of the widget tree.
#[derive(Debug)]
pub struct UiNode {
    pub name: String,
    pub widget: WidgetKind,
    pub children: Vec<UiNode>,
    /// Attributes kept for the back end, sorted by name.
    pub attrs: Vec<Attr>,
    pub css: CssProperties,
}

/// Mathematical value of a widget tree.
pub struct UiTree {
    pub name: Seq<char>,
    pub widget: WidgetKindView,
    pub children: Seq<UiTree>,
    pub attrs: Map<Seq<char>, Seq<char>>,
    pub css: Seq<char>,
}

/// The map an attribute list stands for.
pub open spec fn attr_map(a: Seq<Attr>) -> Map<Seq<char>, Seq<char>> {
    Map::new(|n: Seq<char>| attr_lookup(a, n) is Some, |n: Seq<char>| attr_lookup(a, n)->0)
}

/// The value of a widget tree.
pub open spec fn tree_of(n: UiNode) -> UiTree
    decreases n,
{
    UiTree {
        name: n.name@,
        widget: n.widget@,
        children: trees_of(n.children@),
        attrs: attr_map(n.attrs@),
        css: n.css.raw@,
    }
}

/// The values of a list of widget trees.
pub open spec fn trees_of(ns: Seq<UiNode>) -> Seq<UiTree>
    decreases ns,
{
    if ns.len() == 0 {
        Seq::empty()
    } else {
        trees_of(ns.drop_last()).push(tree_of(ns.last()))
    }
}

/// The lower-case form of a string (`str::to_lowercase`).
pub uninterp spec fn lowercase_of(s: Seq<char>) -> Seq<char>;

/// `str::to_lowercase`: the string with every character mapped to its
/// Unicode lower-case form. The mapping itself is left to the name.
#[verifier::external_body]
fn to_lowercase(s: &str) -> (r: String)
    ensures
        r@ == lowercase_of(s@),
{
    s.to_lowercase()
}

/// The kept attributes of an element (see [`kept_attribute`]).
pub open spec fn kept_map(a: Seq<Attr>) -> Map<Seq<char>, Seq<char>> {
    Map::new(|n: Seq<char>| kept_attribute(n) && attr_lookup(a, n) is Some, |n: Seq<char>| attr_lookup(a, n)->0)
}

/// The kept attributes of an element, as a sorted list.
fn kept_attributes(a: &Vec<Attr>) -> (r: Vec<Attr>)
    ensures
        attrs_sorted(r@),
        forall|n: Seq<char>|
            #![trigger attr_lookup(r@, n)]
            attr_lookup(r@, n) == if kept_attribute(n) {
                attr_lookup(a@, n)
            } else {
                None
            },
{
    let mut r: Vec<Attr> = Vec::new();
    let mut k: usize = 0;
    proof {
        assert(a@.take(0) =~= Seq::<Attr>::empty());
    }
    while k < a.len()
        invariant
            k <= a.len(),
            attrs_sorted(r@),
            forall|n: Seq<char>|
                #![trigger attr_lookup(r@, n)]
                attr_lookup(r@, n) == if kept_attribute(n) {
                    attr_lookup(a@.take(k as int), n)
                } else {
                    None
                },
        decreases a.len() - k,
    {
        proof {
            assert(a@.take(k + 1).drop_last() =~= a@.take(k as int));
            assert(a@.take(k + 1).last() == a@[k as int]);
        }
        if keep_attribute(a[k].name.as_str()) {
            attr_insert(&mut r, copy_str(a[k].name.as_str()), copy_str(a[k].value.as_str()), true);
        }
        k += 1;
    }
    proof {
        assert(a@.take(a.len() as int) =~= a@);
    }
    r
}

/// `id` is an element marked `data-x-internal`.
pub open spec fn is_internal_spec(m: Map<NodeId, NodeData>, id: NodeId) -> bool {
    m.dom().contains(id) && m[id].kind is Element && attr_lookup(m[id].kind->attrs@, "data-x-internal"@) is Some
}

/// Some element strictly below `id` has a `data-widget` attribute.
pub open spec fn has_widget_descendants_spec(m: Map<NodeId, NodeData>, id: NodeId) -> bool {
    let sub = preorder(m, id, walk_depth(m));
    exists|k: int|
        1 <= k < sub.len() && m.dom().contains(#[trigger] sub[k]) && m[sub[k]].kind is Element && attr_lookup(
            m[sub[k]].kind->attrs@,
            "data-widget"@,
        ) is Some
}

fn is_internal_node(doc: &Document, id: NodeId) -> (b: bool)
    requires
        doc.wf(),
    ensures
        b == is_internal_spec(doc.nodes(), id),
{
    match doc.get(id) {
        Some(n) => match &n.kind {
            NodeKind::Element { attrs, .. } => {
                proof {
                    assert(kind_ok(doc.nodes()[id].kind));
                }
                attr_get(attrs, "data-x-internal").is_some()
            },
            _ => false,
        },
        None => false,
    }
}

fn has_widget_descendants(doc: &Document, id: NodeId) -> (b: bool)
    requires
        doc.wf(),
    ensures
        b == has_widget_descendants_spec(doc.nodes(), id),
{
    let ghost m = doc.nodes();
    let sub = subtree_order(doc, id, doc.len() as u128 + 1);
    let mut k: usize = 1;
    while k < sub.len()
        invariant
            1 <= k,
            doc.wf(),
            m == doc.nodes(),
            sub@ == preorder(m, id, walk_depth(m)),
            forall|q: int|
                1 <= q < k && q < sub@.len() ==> !(m.dom().contains(#[trigger] sub@[q]) && m[sub@[q]].kind is Element
                    && attr_lookup(m[sub@[q]].kind->attrs@, "data-widget"@) is Some),
        decreases sub.len() - k,
    {
        let c = sub[k];
        match doc.get(c) {
            Some(n) => match &n.kind {
                NodeKind::Element { attrs, .. } => {
                    proof {
                        assert(kind_ok(m[c].kind));
                    }
                    if attr_get(attrs, "data-widget").is_some() {
                        return true;
                    }
                },
                _ => {},
            },
            None => {},
        }
        k += 1;
    }
    false
}

/// Converting node `id` (children to `fuel` levels): elements other than
/// `html`, `body` and the skipped tags become widgets, named and
/// classified from their attributes; a leaf widget (or a `data-widget`
/// that is not a container) takes its trimmed text content as its `text`
/// attribute, any other widget converts its children; non-blank text
/// becomes a `Text` widget under a container; anything else is dropped.
pub open spec fn convert_spec(m: Map<NodeId, NodeData>, id: NodeId, parent_is_container: bool, fuel: nat) -> Option<UiTree>
    decreases fuel, 0nat,
{
    if fuel == 0 || !m.dom().contains(id) {
        None
    } else {
        match m[id].kind {
            NodeKind::Element { tag, attrs, .. } => {
                let t = lowercase_of(tag@);
                if is_skip_tag(t) || t == "html"@ || t == "body"@ {
                    None
                } else {
                    let a = attrs@;
                    let style = match attr_lookup(a, "style"@) {
                        Some(v) => v,
                        None => Seq::empty(),
                    };
                    let dw = attr_lookup(a, "data-widget"@);
                    let widget = match dw {
                        Some(v) => data_widget_spec(v),
                        None => classify_spec(t, style),
                    };
                    let kept = kept_map(a);
                    if is_leaf_spec(widget) || (dw is Some && !is_container_spec(widget)) {
                        let text = trim_spec(texts_of(m, preorder(m, id, walk_depth(m))));
                        Some(
                            UiTree {
                                name: name_spec(t, a),
                                widget,
                                children: Seq::empty(),
                                attrs: if text.len() > 0 {
                                    kept.insert("text"@, text)
                                } else {
                                    kept
                                },
                                css: style,
                            },
                        )
                    } else {
                        Some(
                            UiTree {
                                name: name_spec(t, a),
                                widget,
                                children: children_spec(m, m[id].children@, true, (fuel - 1) as nat),
                                attrs: kept,
                                css: style,
                            },
                        )
                    }
                }
            },
            NodeKind::Text(s) => {
                let t = trim_spec(s@);
                if t.len() == 0 || !parent_is_container {
                    None
                } else {
                    Some(
                        UiTree {
                            name: "text"@,
                            widget: WidgetKindView::Text,
                            children: Seq::empty(),
                            attrs: Map::empty().insert("text"@, t),
                            css: Seq::empty(),
                        },
                    )
                }
            },
            NodeKind::Comment(_) => None,
        }
    }
}

/// Converting the nodes `kids` in order; a `data-x-internal` element is
/// kept (as a container child) only when some element below it has a
/// `data-widget`.
pub open spec fn children_spec(m: Map<NodeId, NodeData>, kids: Seq<NodeId>, is_container: bool, fuel: nat) -> Seq<UiTree>
    decreases fuel, kids.len(),
{
    if kids.len() == 0 {
        Seq::empty()
    } else {
        let rest = children_spec(m, kids.drop_last(), is_container, fuel);
        let c = kids.last();
        let this = if is_internal_spec(m, c) {
            if has_widget_descendants_spec(m, c) {
                convert_spec(m, c, true, fuel)
            } else {
                None
            }
        } else {
            convert_spec(m, c, is_container, fuel)
        };
        match this {
            Some(t) => rest.push(t),
            None => rest,
        }
    }
}

/// Converts node `id` (see [`convert_spec`]).
fn convert_node(doc: &Document, id: NodeId, parent_is_container: bool, fuel: u128) -> (r: Option<UiNode>)
    requires
        doc.wf(),
    ensures
        match r {
            Some(n) => convert_spec(doc.nodes(), id, parent_is_container, fuel as nat) == Some(tree_of(n)),
            None => convert_spec(doc.nodes(), id, parent_is_container, fuel as nat) is None,
        },
    decreases fuel, 0nat,
{
    let ghost m = doc.nodes();
    if fuel == 0 {
        return None;
    }
    let node = match doc.get(id) {
        Some(n) => n,
        None => return None,
    };
    match &node.kind {
        NodeKind::Element { tag, attrs, .. } => {
            proof {
                assert(kind_ok(m[id].kind));
            }
            let t = to_lowercase(tag.as_str());
            if skip_tag(t.as_str()) || str_eq(t.as_str(), "html") || str_eq(t.as_str(), "body") {
                return None;
            }
            let style = match attr_get(attrs, "style") {
                Some(v) => v.clone(),
                None => String::new(),
            };
            let dw = attr_get(attrs, "data-widget");
            let has_dw = dw.is_some();
            let widget = match dw {
                Some(v) => parse_data_widget(v.as_str()),
                None => classify_element(t.as_str(), style.as_str()),
            };
            let name = extract_name(t.as_str(), attrs);
            let mut node_attrs = kept_attributes(attrs);
            let atomic = is_leaf_widget(&widget) || (has_dw && !is_container_widget(&widget));
            if atomic {
                let all_text = collect_text(doc, id);
                let text = trim(all_text.as_str());
                if text.unicode_len() > 0 {
                    attr_insert(&mut node_attrs, copy_str("text"), text, true);
                }
                let n = UiNode {
                    name,
                    widget,
                    children: Vec::new(),
                    attrs: node_attrs,
                    css: CssProperties { raw: style },
                };
                proof {
                    let spec_t = convert_spec(m, id, parent_is_container, fuel as nat)->Some_0;
                    assert(trees_of(n.children@) =~= Seq::<UiTree>::empty());
                    assert(attr_map(n.attrs@) =~= spec_t.attrs);
                }
                Some(n)
            } else {
                let children = convert_children(doc, &node.children, true, fuel - 1);
                let n = UiNode { name, widget, children, attrs: node_attrs, css: CssProperties { raw: style } };
                proof {
                    let spec_t = convert_spec(m, id, parent_is_container, fuel as nat)->Some_0;
                    assert(attr_map(n.attrs@) =~= spec_t.attrs);
                }
                Some(n)
            }
        },
        NodeKind::Text(s) => {
            let t = trim(s.as_str());
            if t.unicode_len() == 0 || !parent_is_container {
                return None;
            }
            let mut a: Vec<Attr> = Vec::new();
            proof {
                assert(attrs_sorted(a@));
            }
            attr_insert(&mut a, copy_str("text"), t, true);
            let n = UiNode {
                name: copy_str("text"),
                widget: WidgetKind::Text,
                children: Vec::new(),
                attrs: a,
                css: CssProperties { raw: String::new() },
            };
            proof {
                let spec_t = convert_spec(m, id, parent_is_container, fuel as nat)->Some_0;
                assert(trees_of(n.children@) =~= Seq::<UiTree>::empty());
                assert(attr_map(n.attrs@) =~= spec_t.attrs);
            }
            Some(n)
        },
        NodeKind::Comment(_) => None,
    }
}

/// Converts the nodes `kids` in order (see [`children_spec`]).
fn convert_children(doc: &Document, kids: &Vec<NodeId>, is_container: bool, fuel: u128) -> (r: Vec<UiNode>)
    requires
        doc.wf(),
    ensures
        trees_of(r@) == children_spec(doc.nodes(), kids@, is_container, fuel as nat),
    decreases fuel, 1nat,
{
    let ghost m = doc.nodes();
    let mut out: Vec<UiNode> = Vec::new();
    let mut i: usize = 0;
    proof {
        assert(kids@.take(0) =~= Seq::<NodeId>::empty());
        assert(trees_of(out@) =~= Seq::<UiTree>::empty());
    }
    while i < kids.len()
        invariant
            i <= kids.len(),
            doc.wf(),
            m == doc.nodes(),
            trees_of(out@) == children_spec(m, kids@.take(i as int), is_container, fuel as nat),
        decreases kids.len() - i,
    {
        proof {
            assert(kids@.take(i + 1).drop_last() =~= kids@.take(i as int));
            assert(kids@.take(i + 1).last() == kids@[i as int]);
        }
        let c = kids[i];
        let converted = if is_internal_node(doc, c) {
            if has_widget_descendants(doc, c) {
                convert_node(doc, c, true, fuel)
            } else {
                None
            }
        } else {
            convert_node(doc, c, is_container, fuel)
        };
        match converted {
            Some(n) => {
                let ghost before = out@;
                out.push(n);
                proof {
                    assert(out@.drop_last() =~= before);
                }
            },
            None => {},
        }
        i += 1;
    }
    proof {
        assert(kids@.take(kids.len() as int) =~= kids@);
    }
    out
}

/// `id` is a `body` element.
pub open spec fn is_body(m: Map<NodeId, NodeData>, id: NodeId) -> bool {
    m.dom().contains(id) && m[id].kind is Element && m[id].kind->tag@ == "body"@
}

/// The first `body` element of `order`.
pub open spec fn first_body(m: Map<NodeId, NodeData>, order: Seq<NodeId>) -> Option<NodeId>
    decreases order.len(),
{
    if order.len() == 0 {
        None
    } else if is_body(m, order[0]) {
        Some(order[0])
    } else {
        first_body(m, order.drop_first())
    }
}

proof fn lemma_first_body(m: Map<NodeId, NodeData>, order: Seq<NodeId>, i: int)
    requires
        0 <= i <= order.len(),
        forall|k: int| 0 <= k < i ==> !is_body(m, #[trigger] order[k]),
    ensures
        first_body(m, order) == if i < order.len() && is_body(m, order[i]) {
            Some(order[i])
        } else {
            first_body(m, order.skip(i))
        },
    decreases i,
{
    if i > 0 {
        assert(!is_body(m, order[0]));
        assert forall|k: int| 0 <= k < i - 1 implies !is_body(m, #[trigger] order.drop_first()[k]) by {
            assert(order.drop_first()[k] == order[k + 1]);
        }
        lemma_first_body(m, order.drop_first(), i - 1);
        assert(order.drop_first().skip(i - 1) =~= order.skip(i));
        if i < order.len() {
            assert(order.drop_first()[i - 1] == order[i]);
        }
    } else {
        assert(order.skip(0) =~= order);
        if order.len() > 0 && is_body(m, order[0]) {
        }
    }
}

/// The first `body` element of the document, in document order.
fn find_body(doc: &Document) -> (r: Option<NodeId>)
    requires
        doc.wf(),
    ensures
        r == first_body(doc.nodes(), preorder(doc.nodes(), doc.root_id(), walk_depth(doc.nodes()))),
        r matches Some(b) ==> is_body(doc.nodes(), b),
{
    let ghost m = doc.nodes();
    let order = subtree_order(doc, doc.root_id(), doc.len() as u128 + 1);
    let mut i: usize = 0;
    while i < order.len()
        invariant
            i <= order.len(),
            m == doc.nodes(),
            order@ == preorder(m, doc.root_id(), walk_depth(m)),
            forall|k: int| 0 <= k < i ==> !is_body(m, #[trigger] order@[k]),
        decreases order.len() - i,
    {
        let id = order[i];
        let b = match doc.get(id) {
            Some(n) => match &n.kind {
                NodeKind::Element { tag, .. } => str_eq(tag.as_str(), "body"),
                _ => false,
            },
            None => false,
        };
        if b {
            proof {
                lemma_first_body(m, order@, i as int);
            }
            return Some(id);
        }
        i += 1;
    }
    proof {
        lemma_first_body(m, order@, i as int);
        assert(order@.skip(i as int) =~= Seq::<NodeId>::empty());
    }
    None
}

/// The widgets converted from the children of the document's first `body`
/// (or, without a `body`, from the root element itself).
pub open spec fn ui_children_spec(m: Map<NodeId, NodeData>, root: NodeId) -> Seq<UiTree> {
    let f = walk_depth(m);
    match first_body(m, preorder(m, root, f)) {
        Some(b) => children_spec(m, m[b].children@, true, f),
        None => children_spec(m, seq![root], true, f),
    }
}

/// The widget tree of a document: its single top widget, or a vertical
/// layout named `root` holding all of them.
pub open spec fn ui_tree_spec(m: Map<NodeId, NodeData>, root: NodeId) -> UiTree {
    let cs = ui_children_spec(m, root);
    if cs.len() == 1 {
        cs[0]
    } else {
        UiTree {
            name: "root"@,
            widget: WidgetKindView::Layout(Orientation::Vertical),
            children: cs,
            attrs: Map::empty(),
            css: Seq::empty(),
        }
    }
}

/// Converts a parsed document into its widget tree (see [`ui_tree_spec`]).
pub fn document_to_ui(doc: &Document) -> (n: UiNode)
    requires
        doc.wf(),
    ensures
        tree_of(n) == ui_tree_spec(doc.nodes(), doc.root_id()),
{
    let ghost m = doc.nodes();
    let fuel: u128 = doc.len() as u128 + 1;
    let mut children = match find_body(doc) {
        Some(b) => match doc.get(b) {
            Some(bn) => convert_children(doc, &bn.children, true, fuel),
            None => Vec::new(),
        },
        None => {
            let top = vec![doc.root_id()];
            proof {
                assert(top@ =~= seq![doc.root_id()]);
            }
            convert_children(doc, &top, true, fuel)
        },
    };
    assert(trees_of(children@) == ui_children_spec(m, doc.root_id()));
    proof {
        reveal_with_fuel(trees_of, 2);
    }
    if children.len() == 1 {
        let ghost before = children@;
        match children.pop() {
            Some(c) => {
                assert(before.drop_last() =~= Seq::<UiNode>::empty());
                assert(trees_of(before)[0] == tree_of(c));
                c
            },
            None => {
                proof {
                    assert(false);
                }
                UiNode {
                    name: String::new(),
                    widget: WidgetKind::Text,
                    children: Vec::new(),
                    attrs: Vec::new(),
                    css: CssProperties { raw: String::new() },
                }
            },
        }
    } else {
        let n = UiNode {
            name: copy_str("root"),
            widget: WidgetKind::Layout(Orientation::Vertical),
            children,
            attrs: Vec::new(),
            css: CssProperties { raw: String::new() },
        };
        proof {
            assert(attr_map(n.attrs@) =~= Map::<Seq<char>, Seq<char>>::empty());
        }
        n
    }
}

// ───────────────────────── printing ─────────────────────────

/// The value of the last entry named `name` (any order of entries).
fn attr_find<'a>(attrs: &'a Vec<Attr>, name: &str) -> (r: Option<&'a String>)
    ensures
        match r {
            Some(v) => attr_lookup(attrs@, name@) == Some(v@),
            None => attr_lookup(attrs@, name@) is None,
        },
{
    let mut i: usize = attrs.len();
    proof {
        assert(attrs@.take(i as int) =~= attrs@);
    }
    while i > 0
        invariant
            i <= attrs.len(),
            attr_lookup(attrs@, name@) == attr_lookup(attrs@.take(i as int), name@),
        decreases i,
    {
        proof {
            assert(attrs@.take(i as int).drop_last() =~= attrs@.take(i - 1));
            assert(attrs@.take(i as int).last() == attrs@[i - 1]);
        }
        if str_eq(attrs[i - 1].name.as_str(), name) {
            return Some(&attrs[i - 1].value);
        }
        i -= 1;
    }
    None
}

/// The `Debug` form of a string: quoted, with escapes.
pub uninterp spec fn debug_quoted(s: Seq<char>) -> Seq<char>;

/// The `Debug` form of a string (`format!("{:?}", s)`). Which characters
/// are escaped, and how, is left to the name.
#[verifier::external_body]
fn debug_str(s: &str) -> (r: String)
    ensures
        r@ == debug_quoted(s@),
{
    format!("{:?}", s)
}

/// ` {text: "..."}` for a node with a `text` attribute.
pub open spec fn text_suffix(a: Seq<Attr>) -> Seq<char> {
    match attr_lookup(a, "text"@) {
        Some(t) => " {text: "@ + debug_quoted(t) + "}"@,
        None => Seq::empty(),
    }
}

/// The listing of a widget tree: one line per node, `prefix` before the
/// root's line and two more spaces per level below it.
pub open spec fn format_spec(n: UiNode, prefix: Seq<char>) -> Seq<char>
    decreases n,
{
    prefix + n.name@ + ": "@ + format_widget_spec(n.widget@) + text_suffix(n.attrs@) + "\n"@ + format_list_spec(
        n.children@,
        prefix + "  "@,
    )
}

/// The listings of the trees `ns`, one after another.
pub open spec fn format_list_spec(ns: Seq<UiNode>, prefix: Seq<char>) -> Seq<char>
    decreases ns,
{
    if ns.len() == 0 {
        Seq::empty()
    } else {
        format_list_spec(ns.drop_last(), prefix) + format_spec(ns.last(), prefix)
    }
}

/// `d` levels of indentation: two spaces per level.
pub open spec fn indent(d: nat) -> Seq<char> {
    Seq::new(2 * d, |_i: int| ' ')
}

/// A node's line in the listing, without its indentation.
pub open spec fn node_label(n: UiNode) -> Seq<char> {
    n.name@ + ": "@ + format_widget_spec(n.widget@) + text_suffix(n.attrs@) + "\n"@
}

/// The nodes of a tree in preorder, each with its depth, the root being
/// at depth `d`.
pub open spec fn outline(n: UiNode, d: nat) -> Seq<(nat, UiNode)>
    decreases n,
{
    seq![(d, n)] + outline_list(n.children@, d + 1)
}

/// The outlines of the trees `ns`, one after another, all at depth `d`.
pub open spec fn outline_list(ns: Seq<UiNode>, d: nat) -> Seq<(nat, UiNode)>
    decreases ns,
{
    if ns.len() == 0 {
        Seq::empty()
    } else {
        outline_list(ns.drop_last(), d) + outline(ns.last(), d)
    }
}

/// One line per entry: the entry's depth in indentation, then its node's
/// label.
pub open spec fn render(lines: Seq<(nat, UiNode)>) -> Seq<char>
    decreases lines.len(),
{
    if lines.len() == 0 {
        Seq::empty()
    } else {
        render(lines.drop_last()) + indent(lines.last().0) + node_label(lines.last().1)
    }
}

proof fn lemma_render_concat(a: Seq<(nat, UiNode)>, b: Seq<(nat, UiNode)>)
    ensures
        render(a + b) == render(a) + render(b),
    decreases b.len(),
{
    if b.len() == 0 {
        assert(a + b =~= a);
        assert(render(a) + render(b) =~= render(a));
    } else {
        assert((a + b).drop_last() =~= a + b.drop_last());
        assert((a + b).last() == b.last());
        lemma_render_concat(a, b.drop_last());
        assert(render(a) + render(b) =~= render(a) + render(b.drop_last()) + indent(b.last().0) + node_label(
            b.last().1,
        ));
    }
}

proof fn lemma_format_outline(n: UiNode, d: nat)
    ensures
        format_spec(n, indent(d)) == render(outline(n, d)),
    decreases n,
{
    lemma_format_list_outline(n.children@, d + 1);
    assert(indent(d) + "  "@ =~= indent(d + 1)) by {
        reveal_strlit("  ");
    }
    let head = seq![(d, n)];
    lemma_render_concat(head, outline_list(n.children@, d + 1));
    assert(head.drop_last() =~= Seq::<(nat, UiNode)>::empty());
    assert(render(head.drop_last()) == Seq::<char>::empty());
    assert(head.last() == (d, n));
    assert(render(head) == Seq::<char>::empty() + indent(d) + node_label(n));
    assert(render(head) =~= indent(d) + node_label(n));
    assert(format_spec(n, indent(d)) =~= render(head) + render(outline_list(n.children@, d + 1)));
}

proof fn lemma_format_list_outline(ns: Seq<UiNode>, d: nat)
    ensures
        format_list_spec(ns, indent(d)) == render(outline_list(ns, d)),
    decreases ns,
{
    if ns.len() > 0 {
        lemma_format_list_outline(ns.drop_last(), d);
        lemma_format_outline(ns.last(), d);
        lemma_render_concat(outline_list(ns.drop_last(), d), outline(ns.last(), d));
    }
}

/// The listing of a tree is its nodes in preorder, one line each, the line
/// of a node at depth `d` (the root at depth 0) being exactly `2 * d`
/// spaces followed by the node's label: each level below indents two
/// spaces more than the one above.
pub proof fn law_listing_indents_by_depth(n: UiNode)
    ensures
        format_spec(n, Seq::empty()) == render(outline(n, 0)),
{
    assert(indent(0) =~= Seq::<char>::empty());
    lemma_format_outline(n, 0);
}

/// Appends the listing of `node` with `prefix` to `out`.
fn format_node(node: &UiNode, prefix: &str, out: &mut String)
    ensures
        final(out)@ == old(out)@ + format_spec(*node, prefix@),
    decreases node,
{
    let ghost start = out@;
    out.append(prefix);
    out.append(node.name.as_str());
    out.append(": ");
    out.append(format_widget(&node.widget));
    match attr_find(&node.attrs, "text") {
        Some(t) => {
            out.append(" {text: ");
            let q = debug_str(t.as_str());
            out.append(q.as_str());
            out.append("}");
        },
        None => {},
    }
    out.append("\n");
    let ghost head = out@;
    proof {
        assert(head == start + (prefix@ + node.name@ + ": "@ + format_widget_spec(node.widget@) + text_suffix(
            node.attrs@,
        ) + "\n"@));
    }
    let mut child_prefix = copy_str(prefix);
    child_prefix.append("  ");
    let mut k: usize = 0;
    proof {
        assert(node.children@.take(0) =~= Seq::<UiNode>::empty());
    }
    while k < node.children.len()
        invariant
            k <= node.children.len(),
            child_prefix@ == prefix@ + "  "@,
            out@ == head + format_list_spec(node.children@.take(k as int), prefix@ + "  "@),
        decreases node.children.len() - k,
    {
        proof {
            assert(node.children@.take(k + 1).drop_last() =~= node.children@.take(k as int));
            assert(node.children@.take(k + 1).last() == node.children@[k as int]);
            assert(decreases_to!(*node => node.children));
        }
        format_node(&node.children[k], child_prefix.as_str(), out);
        k += 1;
    }
    proof {
        assert(node.children@.take(node.children.len() as int) =~= node.children@);
    }
}

/// The tree as an indented listing, one `name: Kind` line per node, with
/// ` {text: "..."}` after nodes that carry text.
pub fn format_tree(node: &UiNode) -> (s: String)
    ensures
        s@ == format_spec(*node, Seq::empty()),
{
    let mut output = String::new();
    proof {
        reveal_strlit("");
    }
    format_node(node, "", &mut output);
    output
}

} // verus!
