//! Which values of the metric properties (lengths, sizes, flex and grid
//! values, transforms) lie inside the supported subset. The values
//! themselves are resolved by the layout layer; what decides support is
//! the kind of each grid track, grid line and transform function.

use vstd::prelude::*;

use crate::cascade::Declaration;
use crate::error::{ErrorView, LayoutError};
use crate::grid::{GridLineValue, grid_line_spec, map_grid_line};
use crate::selectors::unsupported;

verus! {

/// The form of one grid track size.
#[derive(Debug, Clone, Copy, PartialEq, Eq, Structural)]
pub enum TrackKind {
    /// A single breadth: a length, a percentage, `fr`, `auto`,
    /// `min-content` or `max-content`.
    Breadth,
    /// `minmax(..)`.
    MinMax,
    /// `fit-content(..)`.
    FitContent,
}

/// The transform functions.
#[derive(Debug, Clone, Copy, PartialEq, Eq, Structural)]
pub enum TransformKind {
    Translate,
    TranslateX,
    TranslateY,
    TranslateZ,
    Translate3d,
    Scale,
    ScaleX,
    ScaleY,
    ScaleZ,
    Scale3d,
    Rotate,
    RotateX,
    RotateY,
    RotateZ,
    Rotate3d,
    Skew,
    SkewX,
    SkewY,
    Perspective,
    Matrix,
    Matrix3d,
}

/// The value of a metric declaration, as far as support is concerned.
#[derive(Debug)]
pub enum MetricValue {
    /// A value every form of which is supported (lengths, sizes, font
    /// size, line height, opacity, flex values, gaps, auto flow, areas).
    Plain,
    /// A grid track list: the form of every track size, in order.
    Tracks(Vec<TrackKind>),
    /// Grid placement lines, in order.
    Lines(Vec<GridLineValue>),
    /// A transform list: its functions, in order.
    Transforms(Vec<TransformKind>),
}

/// The feature name under which a transform function is refused, or none
/// for the 2D translations, scales and rotations.
pub open spec fn transform_refusal(k: TransformKind) -> Option<Seq<char>> {
    match k {
        TransformKind::TranslateZ | TransformKind::Translate3d => Some("transform: 3D translate"@),
        TransformKind::ScaleZ | TransformKind::Scale3d => Some("transform: 3D scale"@),
        TransformKind::RotateX | TransformKind::RotateY | TransformKind::Rotate3d => Some("transform: 3D rotate"@),
        TransformKind::Skew | TransformKind::SkewX | TransformKind::SkewY => Some("transform: skew()"@),
        TransformKind::Matrix | TransformKind::Matrix3d => Some("transform: matrix()"@),
        TransformKind::Perspective => Some("transform: perspective()"@),
        _ => None,
    }
}

/// A track size is refused when it is `fit-content(..)`.
pub open spec fn track_refusal(k: TrackKind) -> Option<Seq<char>> {
    if k == TrackKind::FitContent {
        Some("grid track size: fit-content()"@)
    } else {
        None
    }
}

/// The first refused track size among `ks`.
pub open spec fn first_track_refusal(ks: Seq<TrackKind>) -> Option<Seq<char>>
    decreases ks.len(),
{
    if ks.len() == 0 {
        None
    } else {
        match first_track_refusal(ks.drop_last()) {
            Some(f) => Some(f),
            None => track_refusal(ks.last()),
        }
    }
}

/// The first refused transform function among `ks`.
pub open spec fn first_transform_refusal(ks: Seq<TransformKind>) -> Option<Seq<char>>
    decreases ks.len(),
{
    if ks.len() == 0 {
        None
    } else {
        match first_transform_refusal(ks.drop_last()) {
            Some(f) => Some(f),
            None => transform_refusal(ks.last()),
        }
    }
}

/// The first line among `ls` that cannot be mapped.
pub open spec fn first_line_error(ls: Seq<GridLineValue>) -> Option<ErrorView>
    decreases ls.len(),
{
    if ls.len() == 0 {
        None
    } else {
        match first_line_error(ls.drop_last()) {
            Some(e) => Some(e),
            None => match grid_line_spec(ls.last()) {
                Err(e) => Some(e),
                Ok(_) => None,
            },
        }
    }
}

/// Whether a metric value is inside the supported subset: the first
/// refused track size, grid line or transform function gives the error.
pub open spec fn metric_spec(v: MetricValue) -> Result<(), ErrorView> {
    match v {
        MetricValue::Plain => Ok(()),
        MetricValue::Tracks(ts) => match first_track_refusal(ts@) {
            Some(f) => Err(ErrorView::UnsupportedCss { feature: f, location: None }),
            None => Ok(()),
        },
        MetricValue::Lines(ls) => match first_line_error(ls@) {
            Some(e) => Err(e),
            None => Ok(()),
        },
        MetricValue::Transforms(ts) => match first_transform_refusal(ts@) {
            Some(f) => Err(ErrorView::UnsupportedCss { feature: f, location: None }),
            None => Ok(()),
        },
    }
}

fn transform_check(k: TransformKind) -> (r: Option<&'static str>)
    ensures
        match r {
            Some(f) => transform_refusal(k) == Some(f@),
            None => transform_refusal(k) is None,
        },
{
    match k {
        TransformKind::TranslateZ | TransformKind::Translate3d => Some("transform: 3D translate"),
        TransformKind::ScaleZ | TransformKind::Scale3d => Some("transform: 3D scale"),
        TransformKind::RotateX | TransformKind::RotateY | TransformKind::Rotate3d => Some("transform: 3D rotate"),
        TransformKind::Skew | TransformKind::SkewX | TransformKind::SkewY => Some("transform: skew()"),
        TransformKind::Matrix | TransformKind::Matrix3d => Some("transform: matrix()"),
        TransformKind::Perspective => Some("transform: perspective()"),
        _ => None,
    }
}

/// Checks a metric value against the supported subset (see
/// [`metric_spec`]).
pub fn check_metric(v: &MetricValue) -> (r: Result<(), LayoutError>)
    ensures
        r is Ok <==> metric_spec(*v) is Ok,
        r matches Err(e) ==> metric_spec(*v) == Err::<(), ErrorView>(e@),
{
    match v {
        MetricValue::Plain => Ok(()),
        MetricValue::Tracks(ts) => {
            let mut i: usize = 0;
            while i < ts.len()
                invariant
                    i <= ts.len(),
                    first_track_refusal(ts@.take(i as int)) is None,
                    *v == MetricValue::Tracks(*ts),
                decreases ts.len() - i,
            {
                proof {
                    assert(ts@.take(i + 1).drop_last() =~= ts@.take(i as int));
                }
                if ts[i] == TrackKind::FitContent {
                    proof {
                        assert(ts@.take(i + 1).last() == ts@[i as int]);
                        lemma_first_track_refusal_prefix(ts@, i + 1);
                    }
                    return Err(unsupported("grid track size: fit-content()"));
                }
                i += 1;
            }
            proof {
                assert(ts@.take(ts.len() as int) =~= ts@);
            }
            Ok(())
        },
        MetricValue::Lines(ls) => {
            let mut i: usize = 0;
            while i < ls.len()
                invariant
                    i <= ls.len(),
                    first_line_error(ls@.take(i as int)) is None,
                    *v == MetricValue::Lines(*ls),
                decreases ls.len() - i,
            {
                proof {
                    assert(ls@.take(i + 1).drop_last() =~= ls@.take(i as int));
                }
                match map_grid_line(&ls[i]) {
                    Ok(_) => {},
                    Err(e) => {
                        proof {
                            assert(ls@.take(i + 1).last() == ls@[i as int]);
                            assert(first_line_error(ls@.take(i + 1)) == Some(e@));
                            lemma_first_line_error_prefix(ls@, i + 1);
                        }
                        return Err(e);
                    },
                }
                i += 1;
            }
            proof {
                assert(ls@.take(ls.len() as int) =~= ls@);
            }
            Ok(())
        },
        MetricValue::Transforms(ts) => {
            let mut i: usize = 0;
            while i < ts.len()
                invariant
                    i <= ts.len(),
                    first_transform_refusal(ts@.take(i as int)) is None,
                    *v == MetricValue::Transforms(*ts),
                decreases ts.len() - i,
            {
                proof {
                    assert(ts@.take(i + 1).drop_last() =~= ts@.take(i as int));
                }
                match transform_check(ts[i]) {
                    Some(f) => {
                        proof {
                            assert(ts@.take(i + 1).last() == ts@[i as int]);
                            lemma_first_transform_refusal_prefix(ts@, i + 1);
                        }
                        return Err(unsupported(f));
                    },
                    None => {},
                }
                i += 1;
            }
            proof {
                assert(ts@.take(ts.len() as int) =~= ts@);
            }
            Ok(())
        },
    }
}

/// The cascade's declaration for a metric value: [`Declaration::Metric`]
/// when the value is supported, otherwise the refusal.
pub fn metric_declaration(v: &MetricValue) -> (d: Declaration)
    ensures
        match metric_spec(*v) {
            Ok(_) => d is Metric,
            Err(e) => d matches Declaration::Invalid(x) && x@ == e,
        },
{
    match check_metric(v) {
        Ok(()) => Declaration::Metric,
        Err(e) => Declaration::Invalid(e),
    }
}

/// A refusal found in a prefix is the first refusal of the whole list.
proof fn lemma_first_track_refusal_prefix(ks: Seq<TrackKind>, k: int)
    requires
        0 <= k <= ks.len(),
        first_track_refusal(ks.take(k)) is Some,
    ensures
        first_track_refusal(ks) == first_track_refusal(ks.take(k)),
    decreases ks.len(),
{
    if k < ks.len() {
        assert(ks.drop_last().take(k) =~= ks.take(k));
        lemma_first_track_refusal_prefix(ks.drop_last(), k);
    } else {
        assert(ks.take(k) =~= ks);
    }
}

/// A refusal found in a prefix is the first refusal of the whole list.
proof fn lemma_first_transform_refusal_prefix(ks: Seq<TransformKind>, k: int)
    requires
        0 <= k <= ks.len(),
        first_transform_refusal(ks.take(k)) is Some,
    ensures
        first_transform_refusal(ks) == first_transform_refusal(ks.take(k)),
    decreases ks.len(),
{
    if k < ks.len() {
        assert(ks.drop_last().take(k) =~= ks.take(k));
        lemma_first_transform_refusal_prefix(ks.drop_last(), k);
    } else {
        assert(ks.take(k) =~= ks);
    }
}

/// A line error found in a prefix is the first line error of the whole
/// list.
proof fn lemma_first_line_error_prefix(ls: Seq<GridLineValue>, k: int)
    requires
        0 <= k <= ls.len(),
        first_line_error(ls.take(k)) is Some,
    ensures
        first_line_error(ls) == first_line_error(ls.take(k)),
    decreases ls.len(),
{
    if k < ls.len() {
        assert(ls.drop_last().take(k) =~= ls.take(k));
        lemma_first_line_error_prefix(ls.drop_last(), k);
    } else {
        assert(ls.take(k) =~= ls);
    }
}

} // verus!
