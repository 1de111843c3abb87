//! Computed-style values.
//!
//! `ComputedStyle` holds the properties whose values are keywords, colours,
//! integers and names. Lengths, font sizes, opacity and the other metric
//! properties are resolved beside it by the layout layer.

use vstd::prelude::*;

use crate::font::{FontStyle, FontWeight};
use crate::text::copy_str;

verus! {

#[derive(Debug, Clone, Copy, PartialEq, Eq, Structural)]
pub enum Display {
    Block,
    Flex,
    Grid,
    /// `display: none`.
    NoDisplay,
}

#[derive(Debug, Clone, Copy, PartialEq, Eq, Structural)]
pub enum Position {
    Static,
    Relative,
    Absolute,
    Fixed,
}

#[derive(Debug, Clone, Copy, PartialEq, Eq, Structural)]
pub enum Overflow {
    Visible,
    Hidden,
    Scroll,
    Auto,
}

#[derive(Debug, Clone, Copy, PartialEq, Eq, Structural)]
pub enum Visibility {
    Visible,
    Hidden,
}

#[derive(Debug, Clone, Copy, PartialEq, Eq, Structural)]
pub enum TextAlign {
    Left,
    Center,
    Right,
    Justify,
}

#[derive(Debug, Clone, Copy, PartialEq, Eq, Structural)]
pub enum Color {
    Rgba(u8, u8, u8, u8),
    /// `currentColor`. As the value of `color` the cascade resolves it to
    /// the inherited colour; as a background colour it is kept.
    CurrentColor,
}

impl Default for Color {
    fn default() -> (c: Self)
        ensures
            c == Color::Rgba(0, 0, 0, 255),
    {
        Color::Rgba(0, 0, 0, 255)
    }
}

#[derive(Debug, Clone, Copy, PartialEq, Eq, Structural)]
pub enum BorderStyleKind {
    /// `border-style: none`.
    NoBorder,
    Solid,
    Dashed,
    Dotted,
}

#[derive(Debug, Clone, Copy, PartialEq, Eq, Structural)]
pub enum FlexDirection {
    Row,
    RowReverse,
    Column,
    ColumnReverse,
}

#[derive(Debug, Clone, Copy, PartialEq, Eq, Structural)]
pub enum FlexWrap {
    NoWrap,
    Wrap,
    WrapReverse,
}

#[derive(Debug, Clone, Copy, PartialEq, Eq, Structural)]
pub enum JustifyContent {
    Start,
    End,
    FlexStart,
    FlexEnd,
    Center,
    Stretch,
    SpaceBetween,
    SpaceAround,
    SpaceEvenly,
}

#[derive(Debug, Clone, Copy, PartialEq, Eq, Structural)]
pub enum AlignItems {
    Start,
    End,
    FlexStart,
    FlexEnd,
    Center,
    Baseline,
    Stretch,
}

/// Background of a box. Images are carried as their raw `url(...)` text;
/// the engine does not load them.
#[derive(Debug)]
pub struct Background {
    pub color: Option<Color>,
    pub image_url: Option<String>,
    pub repeat: Option<String>,
    pub position: Option<String>,
    pub size: Option<String>,
}

/// Grid container slot kept for the grid milestone.
#[derive(Debug, Clone, Copy, Default)]
pub struct GridProps {
    pub reserved: (),
}

/// The layout-independent computed properties of one element.
#[derive(Debug)]
pub struct ComputedStyle {
    pub display: Display,
    pub position: Position,
    pub overflow_x: Overflow,
    pub overflow_y: Overflow,
    pub font_family: String,
    pub font_weight: FontWeight,
    pub font_style: FontStyle,
    pub color: Color,
    pub text_align: TextAlign,
    pub background_color: Option<Color>,
    pub visibility: Visibility,
    pub z_index: Option<i32>,
}

/// The CSS initial values of the properties in [`ComputedStyle`].
pub open spec fn initial_style_spec() -> ComputedStyleView {
    ComputedStyleView {
        display: Display::Block,
        position: Position::Static,
        overflow_x: Overflow::Visible,
        overflow_y: Overflow::Visible,
        font_family: "sans-serif"@,
        font_weight: FontWeight::Normal,
        font_style: FontStyle::Normal,
        color: Color::Rgba(0, 0, 0, 255),
        text_align: TextAlign::Left,
        background_color: None,
        visibility: Visibility::Visible,
        z_index: None,
    }
}

/// Mathematical value of a [`ComputedStyle`].
pub struct ComputedStyleView {
    pub display: Display,
    pub position: Position,
    pub overflow_x: Overflow,
    pub overflow_y: Overflow,
    pub font_family: Seq<char>,
    pub font_weight: FontWeight,
    pub font_style: FontStyle,
    pub color: Color,
    pub text_align: TextAlign,
    pub background_color: Option<Color>,
    pub visibility: Visibility,
    pub z_index: Option<i32>,
}

impl View for ComputedStyle {
    type V = ComputedStyleView;

    open spec fn view(&self) -> ComputedStyleView {
        ComputedStyleView {
            display: self.display,
            position: self.position,
            overflow_x: self.overflow_x,
            overflow_y: self.overflow_y,
            font_family: self.font_family@,
            font_weight: self.font_weight,
            font_style: self.font_style,
            color: self.color,
            text_align: self.text_align,
            background_color: self.background_color,
            visibility: self.visibility,
            z_index: self.z_index,
        }
    }
}

impl ComputedStyle {
    /// Initial values per the CSS specification.
    pub fn initial() -> (s: Self)
        ensures
            s@ == initial_style_spec(),
    {
        ComputedStyle {
            display: Display::Block,
            position: Position::Static,
            overflow_x: Overflow::Visible,
            overflow_y: Overflow::Visible,
            font_family: copy_str("sans-serif"),
            font_weight: FontWeight::Normal,
            font_style: FontStyle::Normal,
            color: Color::Rgba(0, 0, 0, 255),
            text_align: TextAlign::Left,
            background_color: None,
            visibility: Visibility::Visible,
            z_index: None,
        }
    }

    /// A copy with the same value.
    pub fn duplicate(&self) -> (s: Self)
        ensures
            s@ == self@,
    {
        ComputedStyle {
            display: self.display,
            position: self.position,
            overflow_x: self.overflow_x,
            overflow_y: self.overflow_y,
            font_family: copy_str(self.font_family.as_str()),
            font_weight: self.font_weight,
            font_style: self.font_style,
            color: self.color,
            text_align: self.text_align,
            background_color: self.background_color,
            visibility: self.visibility,
            z_index: self.z_index,
        }
    }
}

} // verus!
