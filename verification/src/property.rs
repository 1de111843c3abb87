//! The decisions that turn parsed property values into the cascade's
//! [`Declaration`]s: how a colour resolves, which font family is kept, and
//! whether a property outside the layout-independent set is a supported
//! metric value, a refused one or an ignored one.

use vstd::prelude::*;

use crate::cascade::Declaration;
use crate::error::{ErrorView, LayoutError};
use crate::metric::{MetricValue, metric_declaration, metric_spec};
use crate::style::Color;
use crate::text::copy_str;

verus! {

/// What resolving a parsed colour to RGBA gave: `currentColor` (which is
/// not resolved), the RGBA channels, a failure to resolve, or a resolved
/// value that is not RGBA.
#[derive(Debug, Clone, Copy, PartialEq, Eq, Structural)]
pub enum ColorResolution {
    CurrentColor,
    Rgba(u8, u8, u8, u8),
    Unresolved,
    NotRgba,
}

/// The colour of a resolution, or the parse error for one that did not
/// give RGBA.
pub open spec fn color_spec(c: ColorResolution) -> Result<Color, ErrorView> {
    match c {
        ColorResolution::CurrentColor => Ok(Color::CurrentColor),
        ColorResolution::Rgba(r, g, b, a) => Ok(Color::Rgba(r, g, b, a)),
        ColorResolution::Unresolved => Err(ErrorView::CssParse("color: failed to resolve to rgba"@)),
        ColorResolution::NotRgba => Err(ErrorView::CssParse("color: not RGBA after resolve"@)),
    }
}

/// The colour of a resolution (see [`color_spec`]).
pub fn map_color(c: ColorResolution) -> (r: Result<Color, LayoutError>)
    ensures
        match r {
            Ok(col) => color_spec(c) == Ok::<Color, ErrorView>(col),
            Err(e) => color_spec(c) == Err::<Color, ErrorView>(e@),
        },
{
    match c {
        ColorResolution::CurrentColor => Ok(Color::CurrentColor),
        ColorResolution::Rgba(r, g, b, a) => Ok(Color::Rgba(r, g, b, a)),
        ColorResolution::Unresolved => {
            let m = copy_str("color: failed to resolve to rgba");
            proof {
                reveal_strlit("color: failed to resolve to rgba");
            }
            Err(LayoutError::CssParse(m))
        },
        ColorResolution::NotRgba => {
            let m = copy_str("color: not RGBA after resolve");
            proof {
                reveal_strlit("color: not RGBA after resolve");
            }
            Err(LayoutError::CssParse(m))
        },
    }
}

/// The declaration of `color` (or, with `background`, of
/// `background-color`): the resolved colour, or the error as an invalid
/// declaration.
pub fn color_declaration(background: bool, c: ColorResolution) -> (d: Declaration)
    ensures
        match color_spec(c) {
            Ok(col) => d == if background {
                Declaration::BackgroundColor(col)
            } else {
                Declaration::Color(col)
            },
            Err(e) => d matches Declaration::Invalid(x) && x@ == e,
        },
{
    match map_color(c) {
        Ok(col) => if background {
            Declaration::BackgroundColor(col)
        } else {
            Declaration::Color(col)
        },
        Err(e) => Declaration::Invalid(e),
    }
}

/// The declaration of `font-family`: only the first family of the list is
/// kept.
pub fn font_family_declaration(families: Vec<String>) -> (d: Declaration)
    ensures
        families@.len() == 0 ==> d == Declaration::FontFamily(None),
        families@.len() > 0 ==> (d matches Declaration::FontFamily(Some(s)) && s@ == families@[0]@),
{
    let mut families = families;
    if families.len() == 0 {
        Declaration::FontFamily(None)
    } else {
        Declaration::FontFamily(Some(families.remove(0)))
    }
}

/// The declaration of a property outside the layout-independent set: a
/// metric value (with `v` its kind) is supported or refused (see
/// [`metric_declaration`]); any other property is ignored.
pub fn unlisted_declaration(v: Option<MetricValue>) -> (d: Declaration)
    ensures
        match v {
            Some(m) => match metric_spec(m) {
                Ok(_) => d is Metric,
                Err(e) => d matches Declaration::Invalid(x) && x@ == e,
            },
            None => d is Ignored,
        },
{
    match v {
        Some(m) => metric_declaration(&m),
        None => Declaration::Ignored,
    }
}

} // verus!
