//! xiangxue: an HTML+CSS layout front end.
//!
//! The verified library holds the document tree, CSS selector compilation
//! and matching, the cascade of the layout-independent properties, and the
//! widget tree used by engine back ends.

use vstd::prelude::*;

pub mod attrs;
pub mod cascade;
pub mod css_values;
pub mod box_model;
pub mod dom;
pub mod error;
pub mod font;
pub mod grid;
pub mod metric;
pub mod property;
pub mod selectors;
pub mod style;
pub mod text;
pub mod traversal;
pub mod tree_builder;
pub mod widget;

pub use box_model::Sides;
pub use error::{LayoutError, SourceSpan};
pub use font::{FontStyle, FontWeight, NoOpFontProvider};

verus! {

} // verus!
