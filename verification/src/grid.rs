//! Named grid areas: from a `grid-template-areas` value to the lines each
//! named area spans.

use vstd::prelude::*;

use crate::error::{ErrorView, LayoutError};
use crate::attrs::{Attr, attr_insert, attr_lookup, attrs_sorted, lemma_lookup_absent, lemma_lookup_at};
use crate::text::{copy_str, seq_lt, str_eq};

verus! {

/// A `grid-template-areas` value: the column count and the cell names,
/// row after row (`None` for a `.` cell).
#[derive(Debug)]
pub struct GridTemplateAreas {
    pub columns: u32,
    pub areas: Vec<Option<String>>,
}

/// A named area as 1-based grid lines; each end line is one past the
/// area's last row or column.
#[derive(Debug)]
pub struct GridArea {
    pub name: String,
    pub row_start: u16,
    pub row_end: u16,
    pub column_start: u16,
    pub column_end: u16,
}

/// The column count used to split the cells into rows (at least one).
pub open spec fn effective_columns(columns: u32) -> int {
    if columns == 0 {
        1
    } else {
        columns as int
    }
}

/// Cell `idx` holds the name `n`.
pub open spec fn cell_has(cells: Seq<Option<String>>, idx: int, n: Seq<char>) -> bool {
    0 <= idx < cells.len() && cells[idx] is Some && cells[idx]->0@ == n
}

/// The row of cell `idx`, as a 16-bit index.
pub open spec fn row_of(idx: int, cols: int) -> int {
    (idx / cols) % 65536
}

/// The column of cell `idx`, as a 16-bit index.
pub open spec fn col_of(idx: int, cols: int) -> int {
    (idx % cols) % 65536
}

/// Every named cell's 16-bit row and column stay below 65534, so that the
/// end lines fit in 16 bits.
pub open spec fn areas_fit(a: GridTemplateAreas) -> bool {
    forall|idx: int|
        0 <= idx < a.areas@.len() && (#[trigger] a.areas@[idx]) is Some ==> row_of(idx, effective_columns(a.columns))
            <= 65533 && col_of(idx, effective_columns(a.columns)) <= 65533
}

/// Some cell holds the name `n`.
pub open spec fn named_somewhere(cells: Seq<Option<String>>, n: Seq<char>) -> bool {
    exists|idx: int| #[trigger] cell_has(cells, idx, n)
}

/// `v` is the least value of `f` over the cells named `n` among the first
/// `k` cells.
pub open spec fn is_min_over(cells: Seq<Option<String>>, k: int, n: Seq<char>, f: spec_fn(int) -> int, v: int) -> bool {
    &&& exists|idx: int| 0 <= idx < k && #[trigger] cell_has(cells, idx, n) && f(idx) == v
    &&& forall|idx: int| 0 <= idx < k && #[trigger] cell_has(cells, idx, n) ==> v <= f(idx)
}

/// `v` is the greatest value of `f` over the cells named `n` among the
/// first `k` cells.
pub open spec fn is_max_over(cells: Seq<Option<String>>, k: int, n: Seq<char>, f: spec_fn(int) -> int, v: int) -> bool {
    &&& exists|idx: int| 0 <= idx < k && #[trigger] cell_has(cells, idx, n) && f(idx) == v
    &&& forall|idx: int| 0 <= idx < k && #[trigger] cell_has(cells, idx, n) ==> f(idx) <= v
}

/// The areas of a `grid-template-areas` value: one per distinct name, in
/// name order, spanning from the first to the last row and column that
/// name occupies.
pub open spec fn areas_result(a: GridTemplateAreas, r: Seq<GridArea>) -> bool {
    let cells = a.areas@;
    let cols = effective_columns(a.columns);
    &&& forall|i: int, j: int| 0 <= i < j < r.len() ==> seq_lt(#[trigger] r[i].name@, #[trigger] r[j].name@)
    &&& forall|i: int| 0 <= i < r.len() ==> named_somewhere(cells, (#[trigger] r[i]).name@)
    &&& forall|idx: int, n: Seq<char>|
        #[trigger] cell_has(cells, idx, n) ==> exists|i: int| 0 <= i < r.len() && (#[trigger] r[i]).name@ == n
    &&& forall|i: int|
        0 <= i < r.len() ==> {
            let n = (#[trigger] r[i]).name@;
            &&& is_min_over(cells, cells.len() as int, n, |idx: int| row_of(idx, cols), r[i].row_start - 1)
            &&& is_max_over(cells, cells.len() as int, n, |idx: int| row_of(idx, cols), r[i].row_end - 2)
            &&& is_min_over(cells, cells.len() as int, n, |idx: int| col_of(idx, cols), r[i].column_start - 1)
            &&& is_max_over(cells, cells.len() as int, n, |idx: int| col_of(idx, cols), r[i].column_end - 2)
        }
}

/// The distinct names of the cells, as the keys of a list sorted by name.
/// The list stands for a name-keyed ordered map: vstd's contracts for
/// `BTreeMap` hold only when the key's `Ord` obeys its model (`obeys_cmp`),
/// which nothing establishes for `String`, while a sorted list of
/// [`Attr`]s carries the order and the lookup as proved facts.
fn area_names(cells: &Vec<Option<String>>) -> (names: Vec<Attr>)
    ensures
        attrs_sorted(names@),
        forall|n: Seq<char>|
            #![trigger attr_lookup(names@, n)]
            attr_lookup(names@, n) is Some <==> exists|idx: int| #[trigger] cell_has(cells@, idx, n),
{
    let mut names: Vec<Attr> = Vec::new();
    let mut k: usize = 0;
    while k < cells.len()
        invariant
            k <= cells.len(),
            attrs_sorted(names@),
            forall|n: Seq<char>|
                #![trigger attr_lookup(names@, n)]
                attr_lookup(names@, n) is Some <==> exists|idx: int| 0 <= idx < k && #[trigger] cell_has(cells@, idx, n),
        decreases cells.len() - k,
    {
        match &cells[k] {
            Some(name) => {
                let ghost before = names@;
                attr_insert(&mut names, copy_str(name.as_str()), String::new(), false);
                proof {
                    assert forall|n: Seq<char>| #![trigger attr_lookup(names@, n)]
                        attr_lookup(names@, n) is Some <==> exists|idx: int| 0 <= idx < k + 1 && #[trigger] cell_has(cells@, idx, n) by {
                        if n == name@ {
                            assert(cell_has(cells@, k as int, n));
                        }
                        if exists|idx: int| 0 <= idx < k + 1 && #[trigger] cell_has(cells@, idx, n) {
                            let idx = choose|idx: int| 0 <= idx < k + 1 && #[trigger] cell_has(cells@, idx, n);
                            if idx < k {
                                assert(attr_lookup(before, n) is Some);
                            }
                        }
                    }
                }
            },
            None => {
                proof {
                    assert forall|n: Seq<char>| #![trigger attr_lookup(names@, n)]
                        attr_lookup(names@, n) is Some <==> exists|idx: int| 0 <= idx < k + 1 && #[trigger] cell_has(cells@, idx, n) by {
                        if exists|idx: int| 0 <= idx < k + 1 && #[trigger] cell_has(cells@, idx, n) {
                            let idx = choose|idx: int| 0 <= idx < k + 1 && #[trigger] cell_has(cells@, idx, n);
                            assert(idx < k);
                        }
                    }
                }
            },
        }
        k += 1;
    }
    names
}

/// The bounds of the cells named `name`: least and greatest row, least
/// and greatest column.
fn area_bounds(cells: &Vec<Option<String>>, cols: usize, name: &str) -> (b: (u16, u16, u16, u16))
    requires
        cols >= 1,
        exists|idx: int| #[trigger] cell_has(cells@, idx, name@),
        forall|idx: int|
            0 <= idx < cells@.len() && (#[trigger] cells@[idx]) is Some ==> row_of(idx, cols as int) <= 65533
                && col_of(idx, cols as int) <= 65533,
    ensures
        is_min_over(cells@, cells@.len() as int, name@, |idx: int| row_of(idx, cols as int), b.0 as int),
        is_max_over(cells@, cells@.len() as int, name@, |idx: int| row_of(idx, cols as int), b.1 as int),
        is_min_over(cells@, cells@.len() as int, name@, |idx: int| col_of(idx, cols as int), b.2 as int),
        is_max_over(cells@, cells@.len() as int, name@, |idx: int| col_of(idx, cols as int), b.3 as int),
        b.1 <= 65533,
        b.3 <= 65533,
{
    let ghost rf = |idx: int| row_of(idx, cols as int);
    let ghost cf = |idx: int| col_of(idx, cols as int);
    let mut found = false;
    let mut rs: u16 = 0;
    let mut re: u16 = 0;
    let mut cs: u16 = 0;
    let mut ce: u16 = 0;
    let mut k: usize = 0;
    while k < cells.len()
        invariant
            k <= cells.len(),
            cols >= 1,
            rf == (|idx: int| row_of(idx, cols as int)),
            cf == (|idx: int| col_of(idx, cols as int)),
            forall|idx: int|
                0 <= idx < cells@.len() && (#[trigger] cells@[idx]) is Some ==> row_of(idx, cols as int) <= 65533
                    && col_of(idx, cols as int) <= 65533,
            !found ==> forall|idx: int| 0 <= idx < k ==> !#[trigger] cell_has(cells@, idx, name@),
            found ==> is_min_over(cells@, k as int, name@, rf, rs as int) && is_max_over(cells@, k as int, name@, rf, re as int)
                && is_min_over(cells@, k as int, name@, cf, cs as int) && is_max_over(cells@, k as int, name@, cf, ce as int),
            found ==> re <= 65533 && ce <= 65533,
        decreases cells.len() - k,
    {
        let here = match &cells[k] {
            Some(n) => str_eq(n.as_str(), name),
            None => false,
        };
        if here {
            let r: u16 = ((k / cols) % 65536) as u16;
            let c: u16 = ((k % cols) % 65536) as u16;
            proof {
                assert(cell_has(cells@, k as int, name@));
                assert(cells@[k as int] is Some);
                assert(rf(k as int) == r as int);
                assert(cf(k as int) == c as int);
            }
            if !found {
                rs = r;
                re = r;
                cs = c;
                ce = c;
                found = true;
            } else {
                if r < rs {
                    rs = r;
                }
                if r > re {
                    re = r;
                }
                if c < cs {
                    cs = c;
                }
                if c > ce {
                    ce = c;
                }
            }
        }
        proof {
            if !here {
                assert(!cell_has(cells@, k as int, name@));
            }
        }
        k += 1;
    }
    (rs, re, cs, ce)
}

/// Expands a `grid-template-areas` value into its named areas (see
/// [`areas_result`]).
pub fn expand_template_areas(areas: &GridTemplateAreas) -> (r: Vec<GridArea>)
    requires
        areas_fit(*areas),
    ensures
        areas_result(*areas, r@),
{
    let cols: usize = if areas.columns == 0 {
        1
    } else {
        areas.columns as usize
    };
    let names = area_names(&areas.areas);
    let mut out: Vec<GridArea> = Vec::new();
    let mut j: usize = 0;
    while j < names.len()
        invariant
            j <= names.len(),
            cols as int == effective_columns(areas.columns),
            areas_fit(*areas),
            attrs_sorted(names@),
            forall|n: Seq<char>|
                #![trigger attr_lookup(names@, n)]
                attr_lookup(names@, n) is Some <==> exists|idx: int| #[trigger] cell_has(areas.areas@, idx, n),
            out@.len() == j,
            forall|i: int| 0 <= i < j ==> (#[trigger] out@[i]).name@ == names@[i].name@,
            forall|i: int|
                0 <= i < j ==> {
                    let n = (#[trigger] out@[i]).name@;
                    let cells = areas.areas@;
                    &&& is_min_over(cells, cells.len() as int, n, |idx: int| row_of(idx, cols as int), out@[i].row_start - 1)
                    &&& is_max_over(cells, cells.len() as int, n, |idx: int| row_of(idx, cols as int), out@[i].row_end - 2)
                    &&& is_min_over(cells, cells.len() as int, n, |idx: int| col_of(idx, cols as int), out@[i].column_start - 1)
                    &&& is_max_over(cells, cells.len() as int, n, |idx: int| col_of(idx, cols as int), out@[i].column_end - 2)
                },
        decreases names.len() - j,
    {
        proof {
            lemma_lookup_at(names@, j as int);
        }
        let (rs, re, cs, ce) = area_bounds(&areas.areas, cols, names[j].name.as_str());
        let ghost before = out@;
        out.push(
            GridArea {
                name: copy_str(names[j].name.as_str()),
                row_start: rs + 1,
                row_end: re + 2,
                column_start: cs + 1,
                column_end: ce + 2,
            },
        );
        proof {
            assert forall|i: int| 0 <= i < j implies out@[i] == before[i] by {}
        }
        j += 1;
    }
    proof {
        let cells = areas.areas@;
        assert forall|i: int| 0 <= i < out@.len() implies named_somewhere(cells, (#[trigger] out@[i]).name@) by {
            lemma_lookup_at(names@, i);
            assert(attr_lookup(names@, out@[i].name@) is Some);
        }
        assert forall|idx: int, n: Seq<char>| #[trigger] cell_has(cells, idx, n) implies exists|i: int|
            0 <= i < out@.len() && (#[trigger] out@[i]).name@ == n by {
            assert(attr_lookup(names@, n) is Some);
            if forall|i: int| 0 <= i < names@.len() ==> (#[trigger] names@[i]).name@ != n {
                lemma_lookup_absent(names@, n);
            }
            let i = choose|i: int| 0 <= i < names@.len() && (#[trigger] names@[i]).name@ == n;
            assert(out@[i].name@ == n);
        }
        let ecols = effective_columns(areas.columns);
        assert((|idx: int| row_of(idx, cols as int)) =~= (|idx: int| row_of(idx, ecols)));
        assert((|idx: int| col_of(idx, cols as int)) =~= (|idx: int| col_of(idx, ecols)));
        assert forall|i: int, k: int| 0 <= i < k < out@.len() implies seq_lt(#[trigger] out@[i].name@, #[trigger] out@[k].name@) by {
            assert(seq_lt(names@[i].name@, names@[k].name@));
        }
    }
    out
}

// ───────────────────────── grid values ─────────────────────────

/// The count of a `repeat()` track list, as parsed.
#[derive(Debug, Clone, Copy, PartialEq, Eq, Structural)]
pub enum RepeatCountValue {
    Number(i32),
    AutoFill,
    AutoFit,
}

/// The count of a `repeat()` track list.
#[derive(Debug, Clone, Copy, PartialEq, Eq, Structural)]
pub enum GridRepeatCount {
    Count(u16),
    AutoFill,
    AutoFit,
}

/// A repeat count: a negative number counts as zero, and the count is
/// taken as a 16-bit number.
pub open spec fn repeat_count_spec(c: RepeatCountValue) -> GridRepeatCount {
    match c {
        RepeatCountValue::Number(n) => GridRepeatCount::Count((if n > 0 { n as int } else { 0 }) as u16),
        RepeatCountValue::AutoFill => GridRepeatCount::AutoFill,
        RepeatCountValue::AutoFit => GridRepeatCount::AutoFit,
    }
}

/// Maps a `repeat()` count (see [`repeat_count_spec`]).
pub fn map_repeat_count(c: &RepeatCountValue) -> (r: GridRepeatCount)
    ensures
        r == repeat_count_spec(*c),
{
    match c {
        RepeatCountValue::Number(n) => {
            let m: i32 = if *n > 0 {
                *n
            } else {
                0
            };
            GridRepeatCount::Count(m as u16)
        },
        RepeatCountValue::AutoFill => GridRepeatCount::AutoFill,
        RepeatCountValue::AutoFit => GridRepeatCount::AutoFit,
    }
}

/// A grid line, as parsed.
#[derive(Debug)]
pub enum GridLineValue {
    Auto,
    /// A named area's line.
    Area(String),
    /// A line number (a line name beside it is ignored).
    Line(i32),
    /// `span N`.
    Span(i32),
    /// `span N <name>`.
    NamedSpan,
}

/// A grid line of a placement.
#[derive(Debug, PartialEq, Eq)]
pub enum GridLine {
    Auto,
    Named(String),
    Index(i16),
    Span(u16),
}

pub enum GridLineView {
    Auto,
    Named(Seq<char>),
    Index(i16),
    Span(u16),
}

impl View for GridLine {
    type V = GridLineView;

    open spec fn view(&self) -> GridLineView {
        match self {
            GridLine::Auto => GridLineView::Auto,
            GridLine::Named(s) => GridLineView::Named(s@),
            GridLine::Index(i) => GridLineView::Index(*i),
            GridLine::Span(n) => GridLineView::Span(*n),
        }
    }
}

/// A grid line: line numbers are taken as 16-bit numbers, a span is at
/// least one track, and a named span is refused.
pub open spec fn grid_line_spec(l: GridLineValue) -> Result<GridLineView, ErrorView> {
    match l {
        GridLineValue::Auto => Ok(GridLineView::Auto),
        GridLineValue::Area(name) => Ok(GridLineView::Named(name@)),
        GridLineValue::Line(i) => Ok(GridLineView::Index(i as i16)),
        GridLineValue::Span(i) => Ok(GridLineView::Span((if i > 1 { i as int } else { 1 }) as u16)),
        GridLineValue::NamedSpan => Err(ErrorView::UnsupportedCss { feature: "grid line: span N <name>"@, location: None }),
    }
}

/// Maps a grid line (see [`grid_line_spec`]).
pub fn map_grid_line(l: &GridLineValue) -> (r: Result<GridLine, LayoutError>)
    ensures
        match r {
            Ok(g) => grid_line_spec(*l) == Ok::<GridLineView, ErrorView>(g@),
            Err(e) => grid_line_spec(*l) == Err::<GridLineView, ErrorView>(e@),
        },
{
    match l {
        GridLineValue::Auto => Ok(GridLine::Auto),
        GridLineValue::Area(name) => Ok(GridLine::Named(copy_str(name.as_str()))),
        GridLineValue::Line(i) => Ok(GridLine::Index(*i as i16)),
        GridLineValue::Span(i) => {
            let n: i32 = if *i > 1 {
                *i
            } else {
                1
            };
            Ok(GridLine::Span(n as u16))
        },
        GridLineValue::NamedSpan => Err(crate::selectors::unsupported("grid line: span N <name>")),
    }
}

/// `grid-auto-flow`.
#[derive(Debug, Clone, Copy, PartialEq, Eq, Structural)]
pub enum GridAutoFlow {
    Row,
    RowDense,
    Column,
    ColumnDense,
}

/// The auto-placement direction from the `column` and `dense` flags.
pub open spec fn grid_auto_flow_spec(column: bool, dense: bool) -> GridAutoFlow {
    if column {
        if dense {
            GridAutoFlow::ColumnDense
        } else {
            GridAutoFlow::Column
        }
    } else if dense {
        GridAutoFlow::RowDense
    } else {
        GridAutoFlow::Row
    }
}

/// Maps `grid-auto-flow` flags (see [`grid_auto_flow_spec`]).
pub fn map_grid_auto_flow(column: bool, dense: bool) -> (r: GridAutoFlow)
    ensures
        r == grid_auto_flow_spec(column, dense),
{
    match (column, dense) {
        (false, false) => GridAutoFlow::Row,
        (false, true) => GridAutoFlow::RowDense,
        (true, false) => GridAutoFlow::Column,
        (true, true) => GridAutoFlow::ColumnDense,
    }
}

} // verus!
