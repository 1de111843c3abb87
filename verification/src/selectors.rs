//! CSS selector compilation and matching for the supported subset: type,
//! `#id`, `.class`, `[attr]` and `[attr=value]` selectors, the structural
//! pseudo-classes `:first-child`, `:last-child` and `:nth-child(an+b)`, and
//! the descendant and child combinators. Everything else is refused with
//! `LayoutError::UnsupportedCss`.
//!
//! A selector arrives as the parser's component list in match order
//! (rightmost compound first) and is compiled to a [`MatchSelector`], which
//! is then matched against document elements.

use vstd::prelude::*;
use vstd::arithmetic::div_mod::{lemma_fundamental_div_mod, lemma_mod_multiples_basic};

use crate::attrs::{Attr, attr_get, attr_lookup, attrs_sorted};
use crate::dom::{Document, NodeData, NodeId, NodeKind, kind_ok, position_of, lemma_position_of};
use crate::error::LayoutError;
use crate::traversal::{is_path, lemma_path_fits, path_from, reachable, walk_depth};
use crate::text::{
    contains_ascii_ws_token, copy_str, eq_ignore_ascii_case, eq_ignore_ascii_case_spec,
    has_ascii_ws_token, str_eq,
};

verus! {

// ───────────────────────── parser components ─────────────────────────

/// A combinator between two compound selectors.
#[derive(Debug, Clone, Copy, PartialEq, Eq, Structural)]
pub enum CombinatorKind {
    Child,
    Descendant,
    NextSibling,
    LaterSibling,
    PseudoElement,
    SlotAssignment,
    Part,
    DeepDescendant,
    Deep,
}

/// The kind of an `:nth-*` pseudo-class.
#[derive(Debug, Clone, Copy, PartialEq, Eq, Structural)]
pub enum NthType {
    Child,
    LastChild,
    OnlyChild,
    OfType,
    LastOfType,
    OnlyOfType,
    Col,
    LastCol,
}

impl NthType {
    pub open spec fn spec_is_of_type(self) -> bool {
        self == NthType::OfType || self == NthType::LastOfType || self == NthType::OnlyOfType
    }

    pub open spec fn spec_is_from_end(self) -> bool {
        self == NthType::LastChild || self == NthType::LastOfType || self == NthType::LastCol
    }
}

/// One component of a parsed selector, in the parser's match order.
#[derive(Debug)]
pub enum SelectorToken {
    Combinator(CombinatorKind),
    ExplicitAnyNamespace,
    ExplicitNoNamespace,
    DefaultNamespace,
    Namespace,
    ExplicitUniversalType,
    /// A type selector, with the name lower-cased.
    LocalName(String),
    Id(String),
    Class(String),
    AttributeExists(String),
    /// `[name op value]`; `is_equal` tells whether the operator is `=`.
    Attribute { name: String, is_equal: bool, value: String, never_matches: bool },
    AttributeOther,
    Negation,
    Root,
    Empty,
    Scope,
    Nth { ty: NthType, a: i32, b: i32 },
    NthOf,
    NonTSPseudoClass,
    Slotted,
    Part,
    Host,
    Where,
    Is,
    Any,
    Has,
    PseudoElement,
    Nesting,
}

// ───────────────────────── compiled form ─────────────────────────

/// How the target element relates to the element matched by the next
/// compound.
#[derive(Debug, Clone, Copy, PartialEq, Eq, Structural)]
pub enum MatchCombinator {
    Descendant,
    Child,
}

#[derive(Debug, Clone, Copy, PartialEq, Eq, Structural)]
pub enum StructuralPseudo {
    FirstChild,
    LastChild,
    /// `:nth-child(an+b)`.
    NthChild { a: i32, b: i32 },
}

#[derive(Debug)]
pub enum AttrOp {
    Exists,
    Equals(String),
}

#[derive(Debug)]
pub struct AttrMatch {
    pub name: String,
    pub op: AttrOp,
}

/// One compound selector (e.g. `div.foo#bar[data-x]:first-child`).
#[derive(Debug)]
pub struct Compound {
    /// `None` when no type selector is given; matches any tag.
    pub tag: Option<String>,
    pub id: Option<String>,
    pub classes: Vec<String>,
    pub attrs: Vec<AttrMatch>,
    pub structural: Vec<StructuralPseudo>,
    /// Set when the compound holds a test that can never succeed.
    pub never_matches: bool,
}

/// One compiled selector.
#[derive(Debug)]
pub struct MatchSelector {
    /// Compound selectors, rightmost (the target element's) first.
    pub compounds: Vec<Compound>,
    /// `combinators[i]` relates `compounds[i]` (descendant side) and
    /// `compounds[i + 1]` (ancestor side).
    pub combinators: Vec<MatchCombinator>,
    /// Specificity (a, b, c) packed as the parser packs it.
    pub specificity: u32,
}

pub enum AttrOpView {
    Exists,
    Equals(Seq<char>),
}

pub struct AttrMatchView {
    pub name: Seq<char>,
    pub op: AttrOpView,
}

pub struct CompoundView {
    pub tag: Option<Seq<char>>,
    pub id: Option<Seq<char>>,
    pub classes: Seq<Seq<char>>,
    pub attrs: Seq<AttrMatchView>,
    pub structural: Seq<StructuralPseudo>,
    pub never_matches: bool,
}

pub open spec fn opt_view(o: Option<String>) -> Option<Seq<char>> {
    match o {
        Some(s) => Some(s@),
        None => None,
    }
}

impl View for AttrMatch {
    type V = AttrMatchView;

    open spec fn view(&self) -> AttrMatchView {
        AttrMatchView {
            name: self.name@,
            op: match self.op {
                AttrOp::Exists => AttrOpView::Exists,
                AttrOp::Equals(v) => AttrOpView::Equals(v@),
            },
        }
    }
}

impl View for Compound {
    type V = CompoundView;

    open spec fn view(&self) -> CompoundView {
        CompoundView {
            tag: opt_view(self.tag),
            id: opt_view(self.id),
            classes: self.classes@.map_values(|s: String| s@),
            attrs: self.attrs@.map_values(|a: AttrMatch| a@),
            structural: self.structural@,
            never_matches: self.never_matches,
        }
    }
}

/// The compound with no test.
pub open spec fn empty_compound() -> CompoundView {
    CompoundView {
        tag: None,
        id: None,
        classes: Seq::empty(),
        attrs: Seq::empty(),
        structural: Seq::empty(),
        never_matches: false,
    }
}

/// A compiled selector as compounds and combinators.
pub struct SelectorView {
    pub compounds: Seq<CompoundView>,
    pub combinators: Seq<MatchCombinator>,
}

impl MatchSelector {
    pub open spec fn view_parts(&self) -> SelectorView {
        SelectorView {
            compounds: self.compounds@.map_values(|c: Compound| c@),
            combinators: self.combinators@,
        }
    }

    /// One more compound than combinators.
    pub open spec fn wf(&self) -> bool {
        self.compounds@.len() == self.combinators@.len() + 1
    }

    /// The selector's specificity.
    pub fn specificity(&self) -> (s: u32)
        ensures
            s == self.specificity,
    {
        self.specificity
    }
}

// ───────────────────────── compilation, specified ─────────────────────────

/// The selector `s` with its last compound replaced by `c`.
pub open spec fn with_last(s: SelectorView, c: CompoundView) -> SelectorView {
    SelectorView { compounds: s.compounds.update(s.compounds.len() - 1, c), combinators: s.combinators }
}

/// The feature name under which component `t` is refused, or `None` for a
/// component of the supported subset: the descendant and child
/// combinators; type, universal and namespace-default selectors; ids and
/// classes; `[attr]` and `[attr=value]`; `:first-child`, `:last-child` and
/// `:nth-child(an+b)`.
pub open spec fn refusal(t: SelectorToken) -> Option<Seq<char>> {
    match t {
        SelectorToken::Combinator(k) => match k {
            CombinatorKind::Descendant | CombinatorKind::Child => None,
            CombinatorKind::NextSibling | CombinatorKind::LaterSibling => Some("sibling combinator (+ / ~)"@),
            CombinatorKind::PseudoElement | CombinatorKind::SlotAssignment | CombinatorKind::Part => Some(
                "pseudo-element / slot / part combinator"@,
            ),
            _ => Some("unknown combinator"@),
        },
        SelectorToken::Attribute { is_equal, never_matches, .. } => if never_matches || is_equal {
            None
        } else {
            Some("attribute operators other than `=`"@)
        },
        SelectorToken::AttributeOther => Some("namespaced attribute selector"@),
        SelectorToken::Nth { ty, a, b } => if ty.spec_is_of_type() {
            Some(":nth-of-type / :first-of-type"@)
        } else if ty.spec_is_from_end() {
            if a == 0 && b == 1 && ty == NthType::LastChild {
                None
            } else {
                Some(":nth-last-child / :last-of-type"@)
            }
        } else if ty == NthType::Child {
            None
        } else if ty == NthType::OnlyChild {
            Some(":only-child"@)
        } else {
            Some("Nth pseudo variant"@)
        },
        SelectorToken::NthOf => Some(":nth-child(... of ...)"@),
        SelectorToken::Negation => Some(":not()"@),
        SelectorToken::Where => Some(":where()"@),
        SelectorToken::Is => Some(":is()"@),
        SelectorToken::Has => Some(":has()"@),
        SelectorToken::Any => Some(":any()"@),
        SelectorToken::PseudoElement => Some("pseudo-element ::*"@),
        SelectorToken::NonTSPseudoClass => Some("non-tree-structural pseudo-class (e.g. :hover)"@),
        SelectorToken::Root | SelectorToken::Empty | SelectorToken::Scope | SelectorToken::Nesting => Some(
            ":root / :empty / :scope / nesting"@,
        ),
        SelectorToken::Slotted | SelectorToken::Part | SelectorToken::Host => Some("shadow-DOM selectors"@),
        SelectorToken::Namespace => Some("namespaced selector"@),
        _ => None,
    }
}

/// What an accepted component adds to a partly compiled selector: a
/// combinator closes the current compound and opens an empty one; every
/// other component adds its condition to the current (last) compound.
pub open spec fn accept(s: SelectorView, t: SelectorToken) -> SelectorView {
    let last = s.compounds.last();
    match t {
        SelectorToken::Combinator(k) => SelectorView {
            compounds: s.compounds.push(empty_compound()),
            combinators: s.combinators.push(
                if k == CombinatorKind::Descendant {
                    MatchCombinator::Descendant
                } else {
                    MatchCombinator::Child
                },
            ),
        },
        SelectorToken::LocalName(n) => with_last(s, CompoundView { tag: Some(n@), ..last }),
        SelectorToken::Id(n) => with_last(s, CompoundView { id: Some(n@), ..last }),
        SelectorToken::Class(n) => with_last(s, CompoundView { classes: last.classes.push(n@), ..last }),
        SelectorToken::AttributeExists(n) => with_last(
            s,
            CompoundView { attrs: last.attrs.push(AttrMatchView { name: n@, op: AttrOpView::Exists }), ..last },
        ),
        SelectorToken::Attribute { name, value, never_matches, .. } => if never_matches {
            with_last(s, CompoundView { never_matches: true, ..last })
        } else {
            with_last(
                s,
                CompoundView {
                    attrs: last.attrs.push(AttrMatchView { name: name@, op: AttrOpView::Equals(value@) }),
                    ..last
                },
            )
        },
        SelectorToken::Nth { ty, a, b } => {
            let p = if ty == NthType::LastChild {
                StructuralPseudo::LastChild
            } else if a == 0 && b == 1 {
                StructuralPseudo::FirstChild
            } else {
                StructuralPseudo::NthChild { a, b }
            };
            with_last(s, CompoundView { structural: last.structural.push(p), ..last })
        },
        _ => s,
    }
}

/// The effect of one parser component on a partly compiled selector:
/// `Err` with the feature name of a refused component, `Ok` with what an
/// accepted one adds.
pub open spec fn compile_step(s: SelectorView, t: SelectorToken) -> Result<SelectorView, Seq<char>> {
    match refusal(t) {
        Some(f) => Err(f),
        None => Ok(accept(s, t)),
    }
}

/// Compiling the components `ts` in order from one empty compound: the
/// first refused component's feature name, or the compiled selector.
pub open spec fn compile_spec(ts: Seq<SelectorToken>) -> Result<SelectorView, Seq<char>>
    decreases ts.len(),
{
    if ts.len() == 0 {
        Ok(SelectorView { compounds: seq![empty_compound()], combinators: Seq::empty() })
    } else {
        match compile_spec(ts.drop_last()) {
            Ok(s) => compile_step(s, ts.last()),
            Err(e) => Err(e),
        }
    }
}


/// The class names among the components after the last combinator of
/// `ts` (all of them when there is none), in order.
pub open spec fn trailing_classes(ts: Seq<SelectorToken>) -> Seq<Seq<char>>
    decreases ts.len(),
{
    if ts.len() == 0 {
        Seq::empty()
    } else {
        match ts.last() {
            SelectorToken::Combinator(_) => Seq::empty(),
            SelectorToken::Class(n) => trailing_classes(ts.drop_last()).push(n@),
            _ => trailing_classes(ts.drop_last()),
        }
    }
}

/// The name of the last type selector after the last combinator of
/// `ts`, if any.
pub open spec fn trailing_tag(ts: Seq<SelectorToken>) -> Option<Seq<char>>
    decreases ts.len(),
{
    if ts.len() == 0 {
        None
    } else {
        match ts.last() {
            SelectorToken::Combinator(_) => None,
            SelectorToken::LocalName(n) => Some(n@),
            _ => trailing_tag(ts.drop_last()),
        }
    }
}

/// The name of the last id selector after the last combinator of `ts`, if
/// any.
pub open spec fn trailing_id(ts: Seq<SelectorToken>) -> Option<Seq<char>>
    decreases ts.len(),
{
    if ts.len() == 0 {
        None
    } else {
        match ts.last() {
            SelectorToken::Combinator(_) => None,
            SelectorToken::Id(n) => Some(n@),
            _ => trailing_id(ts.drop_last()),
        }
    }
}

/// The attribute tests after the last combinator of `ts`, in order: `[n]`
/// tests presence and `[n=v]` equality; a test that can never succeed
/// adds none.
pub open spec fn trailing_attrs(ts: Seq<SelectorToken>) -> Seq<AttrMatchView>
    decreases ts.len(),
{
    if ts.len() == 0 {
        Seq::empty()
    } else {
        match ts.last() {
            SelectorToken::Combinator(_) => Seq::empty(),
            SelectorToken::AttributeExists(n) => trailing_attrs(ts.drop_last()).push(
                AttrMatchView { name: n@, op: AttrOpView::Exists },
            ),
            SelectorToken::Attribute { name, value, never_matches, .. } => if never_matches {
                trailing_attrs(ts.drop_last())
            } else {
                trailing_attrs(ts.drop_last()).push(AttrMatchView { name: name@, op: AttrOpView::Equals(value@) })
            },
            _ => trailing_attrs(ts.drop_last()),
        }
    }
}

/// Some attribute test after the last combinator of `ts` can never
/// succeed.
pub open spec fn trailing_never(ts: Seq<SelectorToken>) -> bool
    decreases ts.len(),
{
    if ts.len() == 0 {
        false
    } else {
        match ts.last() {
            SelectorToken::Combinator(_) => false,
            SelectorToken::Attribute { never_matches, .. } => never_matches || trailing_never(ts.drop_last()),
            _ => trailing_never(ts.drop_last()),
        }
    }
}

/// The combinators of `ts` in order, a child component giving the child
/// combinator and every other accepted one the descendant combinator.
pub open spec fn combinator_kinds(ts: Seq<SelectorToken>) -> Seq<MatchCombinator>
    decreases ts.len(),
{
    if ts.len() == 0 {
        Seq::empty()
    } else {
        match ts.last() {
            SelectorToken::Combinator(k) => combinator_kinds(ts.drop_last()).push(
                if k == CombinatorKind::Child {
                    MatchCombinator::Child
                } else {
                    MatchCombinator::Descendant
                },
            ),
            _ => combinator_kinds(ts.drop_last()),
        }
    }
}

/// The number of combinator components of `ts`.
pub open spec fn combinator_count(ts: Seq<SelectorToken>) -> nat
    decreases ts.len(),
{
    if ts.len() == 0 {
        0
    } else {
        combinator_count(ts.drop_last()) + if ts.last() is Combinator {
            1nat
        } else {
            0nat
        }
    }
}

/// The last compound of a compiled selector holds what the components
/// after the last combinator give: their classes in order, the last type
/// and id selectors, the attribute tests in order, and whether some test
/// can never succeed; a compiled selector has one compound more than the
/// list has combinators, and its combinators are the list's, in order
/// (`>` the child combinator, whitespace the descendant one).
pub proof fn law_last_compound(ts: Seq<SelectorToken>)
    requires
        compile_spec(ts) is Ok,
    ensures
        compile_spec(ts)->Ok_0.compounds.len() == combinator_count(ts) + 1,
        compile_spec(ts)->Ok_0.combinators == combinator_kinds(ts),
        compile_spec(ts)->Ok_0.compounds.last().classes == trailing_classes(ts),
        compile_spec(ts)->Ok_0.compounds.last().tag == trailing_tag(ts),
        compile_spec(ts)->Ok_0.compounds.last().id == trailing_id(ts),
        compile_spec(ts)->Ok_0.compounds.last().attrs == trailing_attrs(ts),
        compile_spec(ts)->Ok_0.compounds.last().never_matches == trailing_never(ts),
    decreases ts.len(),
{
    if ts.len() > 0 {
        let s0 = compile_spec(ts.drop_last())->Ok_0;
        law_last_compound(ts.drop_last());
        let t = ts.last();
        let s = compile_spec(ts)->Ok_0;
        assert(refusal(t) is None);
        assert(s == accept(s0, t));
        match t {
            SelectorToken::Combinator(_) => {
                assert(s.compounds.last() == empty_compound());
            },
            _ => {},
        }
    } else {
        assert(compile_spec(ts)->Ok_0.compounds =~= seq![empty_compound()]);
    }
}

/// Compiling more components never changes a compound that a combinator
/// has already closed: the compounds of a prefix's compilation, but its
/// last, are those of the whole list's.
pub proof fn law_closed_compounds_kept(ts: Seq<SelectorToken>, j: int)
    requires
        compile_spec(ts) is Ok,
        0 <= j <= ts.len(),
    ensures
        compile_spec(ts.take(j)) is Ok,
        compile_spec(ts.take(j))->Ok_0.compounds.len() <= compile_spec(ts)->Ok_0.compounds.len(),
        forall|k: int|
            0 <= k < compile_spec(ts.take(j))->Ok_0.compounds.len() - 1 ==> compile_spec(ts)->Ok_0.compounds[k]
                == #[trigger] compile_spec(ts.take(j))->Ok_0.compounds[k],
    decreases ts.len(),
{
    if j == ts.len() {
        assert(ts.take(j) =~= ts);
    } else {
        assert(ts.drop_last().take(j) =~= ts.take(j));
        law_closed_compounds_kept(ts.drop_last(), j);
        law_last_compound(ts.drop_last());
        let s0 = compile_spec(ts.drop_last())->Ok_0;
        let s = compile_spec(ts)->Ok_0;
        assert(s == accept(s0, ts.last()));
        assert forall|k: int| 0 <= k < s0.compounds.len() - 1 implies s.compounds[k] == s0.compounds[k] by {}
    }
}

/// Every compiled compound holds exactly what its own components give:
/// the compound closed by the combinator at `j` (or, with `j` the list's
/// length, the last compound) is compound number "combinators before
/// `j`", and its classes (all of them, in order), type, id, attribute
/// tests and never-matching flag are those of the components between the
/// previous combinator and `j`.
pub proof fn law_compound_contents(ts: Seq<SelectorToken>, j: int)
    requires
        compile_spec(ts) is Ok,
        0 <= j <= ts.len(),
        j == ts.len() || ts[j] is Combinator,
    ensures
        combinator_count(ts.take(j)) < compile_spec(ts)->Ok_0.compounds.len(),
        compile_spec(ts)->Ok_0.compounds[combinator_count(ts.take(j)) as int].classes == trailing_classes(ts.take(j)),
        compile_spec(ts)->Ok_0.compounds[combinator_count(ts.take(j)) as int].tag == trailing_tag(ts.take(j)),
        compile_spec(ts)->Ok_0.compounds[combinator_count(ts.take(j)) as int].id == trailing_id(ts.take(j)),
        compile_spec(ts)->Ok_0.compounds[combinator_count(ts.take(j)) as int].attrs == trailing_attrs(ts.take(j)),
        compile_spec(ts)->Ok_0.compounds[combinator_count(ts.take(j)) as int].never_matches == trailing_never(
            ts.take(j),
        ),
{
    let s = compile_spec(ts)->Ok_0;
    law_closed_compounds_kept(ts, j);
    law_last_compound(ts.take(j));
    let s1 = compile_spec(ts.take(j))->Ok_0;
    let c = combinator_count(ts.take(j)) as int;
    if j == ts.len() {
        assert(ts.take(j) =~= ts);
    } else {
        law_closed_compounds_kept(ts, j + 1);
        assert(ts.take(j + 1).drop_last() =~= ts.take(j));
        assert(ts.take(j + 1).last() == ts[j]);
        let s2 = compile_spec(ts.take(j + 1))->Ok_0;
        assert(s2 == accept(s1, ts[j]));
        assert(s2.compounds[c] == s1.compounds[c]);
        assert(s.compounds[c] == s2.compounds[c]);
    }
}

/// Once a prefix of the components is refused, so is the whole list, with
/// the same feature.
pub proof fn lemma_compile_err_extends(ts: Seq<SelectorToken>, k: int)
    requires
        0 <= k <= ts.len(),
        compile_spec(ts.take(k)) is Err,
    ensures
        compile_spec(ts) == compile_spec(ts.take(k)),
    decreases ts.len(),
{
    if k < ts.len() {
        assert(ts.drop_last().take(k) =~= ts.take(k));
        lemma_compile_err_extends(ts.drop_last(), k);
    } else {
        assert(ts.take(k) =~= ts);
    }
}

/// The error for a CSS feature outside the supported subset.
pub fn unsupported(feature: &str) -> (e: LayoutError)
    ensures
        e matches LayoutError::UnsupportedCss { feature: f, location } && f@ == feature@ && location is None,
{
    LayoutError::UnsupportedCss { feature: copy_str(feature), location: None }
}

fn empty_compound_exec() -> (c: Compound)
    ensures
        c@ == empty_compound(),
{
    let c = Compound {
        tag: None,
        id: None,
        classes: Vec::new(),
        attrs: Vec::new(),
        structural: Vec::new(),
        never_matches: false,
    };
    proof {
        assert(c@.classes =~= Seq::<Seq<char>>::empty());
        assert(c@.attrs =~= Seq::<AttrMatchView>::empty());
        assert(c@.structural =~= Seq::<StructuralPseudo>::empty());
    }
    c
}

/// The compiled state `done ++ [cur]` with `combinators`.
pub open spec fn state_of(done: Seq<Compound>, cur: Compound, combinators: Seq<MatchCombinator>) -> SelectorView {
    SelectorView {
        compounds: done.map_values(|c: Compound| c@).push(cur@),
        combinators: combinators,
    }
}

/// Compiles a parsed selector (its components in match order, and its
/// specificity) for matching. Fails with `UnsupportedCss` naming the first
/// component outside the supported subset.
pub fn compile(tokens: &Vec<SelectorToken>, specificity: u32) -> (r: Result<MatchSelector, LayoutError>)
    ensures
        match r {
            Ok(sel) => {
                &&& compile_spec(tokens@) == Ok::<SelectorView, Seq<char>>(sel.view_parts())
                &&& sel.wf()
                &&& sel.specificity == specificity
            },
            Err(e) => compile_spec(tokens@) matches Err(f) && e matches LayoutError::UnsupportedCss {
                feature,
                location,
            } && feature@ == f && location is None,
        },
{
    let mut done: Vec<Compound> = Vec::new();
    let mut cur: Compound = empty_compound_exec();
    let mut combinators: Vec<MatchCombinator> = Vec::new();
    let mut i: usize = 0;
    proof {
        assert(tokens@.take(0) =~= Seq::<SelectorToken>::empty());
        assert(state_of(done@, cur, combinators@).compounds =~= seq![empty_compound()]);
        assert(state_of(done@, cur, combinators@).combinators =~= Seq::<MatchCombinator>::empty());
    }
    while i < tokens.len()
        invariant
            i <= tokens.len(),
            compile_spec(tokens@.take(i as int)) == Ok::<SelectorView, Seq<char>>(state_of(done@, cur, combinators@)),
            done@.len() == combinators@.len(),
        decreases tokens.len() - i,
    {
        let ghost s = state_of(done@, cur, combinators@);
        let ghost last = cur@;
        proof {
            assert(tokens@.take(i + 1).drop_last() =~= tokens@.take(i as int));
            assert(tokens@.take(i + 1).last() == tokens@[i as int]);
            assert(s.compounds.last() == cur@);
        }
        let ghost step = compile_step(s, tokens@[i as int]);
        proof {
            assert(compile_spec(tokens@.take(i + 1)) == step);
            if step is Err {
                lemma_compile_err_extends(tokens@, i + 1);
            }
        }
        match &tokens[i] {
            SelectorToken::Combinator(k) => {
                match k {
                    CombinatorKind::Descendant | CombinatorKind::Child => {
                        done.push(cur);
                        cur = empty_compound_exec();
                        if *k == CombinatorKind::Descendant {
                            combinators.push(MatchCombinator::Descendant);
                        } else {
                            combinators.push(MatchCombinator::Child);
                        }
                        proof {
                            assert(done@.map_values(|c: Compound| c@) =~= s.compounds);
                        }
                    },
                    CombinatorKind::NextSibling | CombinatorKind::LaterSibling => {
                        return Err(unsupported("sibling combinator (+ / ~)"));
                    },
                    CombinatorKind::PseudoElement | CombinatorKind::SlotAssignment | CombinatorKind::Part => {
                        return Err(unsupported("pseudo-element / slot / part combinator"));
                    },
                    _ => {
                        return Err(unsupported("unknown combinator"));
                    },
                }
            },
            SelectorToken::ExplicitUniversalType | SelectorToken::ExplicitAnyNamespace
            | SelectorToken::ExplicitNoNamespace | SelectorToken::DefaultNamespace => {},
            SelectorToken::LocalName(n) => {
                cur.tag = Some(copy_str(n.as_str()));
            },
            SelectorToken::Id(n) => {
                cur.id = Some(copy_str(n.as_str()));
            },
            SelectorToken::Class(n) => {
                cur.classes.push(copy_str(n.as_str()));
                proof {
                    assert(cur@.classes =~= last.classes.push(n@));
                }
            },
            SelectorToken::AttributeExists(n) => {
                cur.attrs.push(AttrMatch { name: copy_str(n.as_str()), op: AttrOp::Exists });
                proof {
                    assert(cur@.attrs =~= last.attrs.push(AttrMatchView { name: n@, op: AttrOpView::Exists }));
                }
            },
            SelectorToken::Attribute { name, is_equal, value, never_matches } => {
                if *never_matches {
                    cur.never_matches = true;
                } else if *is_equal {
                    cur.attrs.push(
                        AttrMatch { name: copy_str(name.as_str()), op: AttrOp::Equals(copy_str(value.as_str())) },
                    );
                    proof {
                        assert(cur@.attrs =~= last.attrs.push(
                            AttrMatchView { name: name@, op: AttrOpView::Equals(value@) },
                        ));
                    }
                } else {
                    return Err(unsupported("attribute operators other than `=`"));
                }
            },
            SelectorToken::AttributeOther => {
                return Err(unsupported("namespaced attribute selector"));
            },
            SelectorToken::Nth { ty, a, b } => {
                let of_type = *ty == NthType::OfType || *ty == NthType::LastOfType || *ty == NthType::OnlyOfType;
                let from_end = *ty == NthType::LastChild || *ty == NthType::LastOfType || *ty == NthType::LastCol;
                if of_type {
                    return Err(unsupported(":nth-of-type / :first-of-type"));
                }
                if from_end {
                    if *a == 0 && *b == 1 && *ty == NthType::LastChild {
                        cur.structural.push(StructuralPseudo::LastChild);
                    } else {
                        return Err(unsupported(":nth-last-child / :last-of-type"));
                    }
                } else if *ty == NthType::Child {
                    if *a == 0 && *b == 1 {
                        cur.structural.push(StructuralPseudo::FirstChild);
                    } else {
                        cur.structural.push(StructuralPseudo::NthChild { a: *a, b: *b });
                    }
                } else if *ty == NthType::OnlyChild {
                    return Err(unsupported(":only-child"));
                } else {
                    return Err(unsupported("Nth pseudo variant"));
                }
            },
            SelectorToken::NthOf => {
                return Err(unsupported(":nth-child(... of ...)"));
            },
            SelectorToken::Negation => {
                return Err(unsupported(":not()"));
            },
            SelectorToken::Where => {
                return Err(unsupported(":where()"));
            },
            SelectorToken::Is => {
                return Err(unsupported(":is()"));
            },
            SelectorToken::Has => {
                return Err(unsupported(":has()"));
            },
            SelectorToken::Any => {
                return Err(unsupported(":any()"));
            },
            SelectorToken::PseudoElement => {
                return Err(unsupported("pseudo-element ::*"));
            },
            SelectorToken::NonTSPseudoClass => {
                return Err(unsupported("non-tree-structural pseudo-class (e.g. :hover)"));
            },
            SelectorToken::Root | SelectorToken::Empty | SelectorToken::Scope | SelectorToken::Nesting => {
                return Err(unsupported(":root / :empty / :scope / nesting"));
            },
            SelectorToken::Slotted | SelectorToken::Part | SelectorToken::Host => {
                return Err(unsupported("shadow-DOM selectors"));
            },
            SelectorToken::Namespace => {
                return Err(unsupported("namespaced selector"));
            },
        }
        proof {
            assert(step == Ok::<SelectorView, Seq<char>>(state_of(done@, cur, combinators@))) by {
                let ns = state_of(done@, cur, combinators@);
                assert(ns.compounds =~= step->Ok_0.compounds);
                assert(ns.combinators =~= step->Ok_0.combinators);
            }
        }
        i += 1;
    }
    proof {
        assert(tokens@.take(tokens.len() as int) =~= tokens@);
    }
    let ghost fin = state_of(done@, cur, combinators@);
    done.push(cur);
    proof {
        assert(done@.map_values(|c: Compound| c@) =~= fin.compounds);
    }
    Ok(MatchSelector { compounds: done, combinators, specificity })
}

// ───────────────────────── matching, specified ─────────────────────────

/// `id` is an element of `m`.
pub open spec fn is_element_node(m: Map<NodeId, NodeData>, id: NodeId) -> bool {
    m.dom().contains(id) && m[id].kind is Element
}

/// The parent of `id`, when `id` is a node of `m` with a parent.
pub open spec fn parent_of(m: Map<NodeId, NodeData>, id: NodeId) -> Option<NodeId> {
    if m.dom().contains(id) {
        m[id].parent
    } else {
        None
    }
}

/// The ids of `s` that are elements of `m`, in order.
pub open spec fn element_children(m: Map<NodeId, NodeData>, s: Seq<NodeId>) -> Seq<NodeId>
    decreases s.len(),
{
    if s.len() == 0 {
        Seq::empty()
    } else {
        let r = element_children(m, s.drop_last());
        if is_element_node(m, s.last()) {
            r.push(s.last())
        } else {
            r
        }
    }
}

/// `n` is `a·k + b` for some `k >= 0` (for `a == 0`: `n == b`).
pub open spec fn nth_index_matches(a: int, b: int, n: int) -> bool {
    if a == 0 {
        n == b
    } else {
        exists|k: int| k >= 0 && #[trigger] (a * k) + b == n
    }
}

/// A structural pseudo-class holds of `id`: `id` has a parent in `m`, and
/// its 1-based position among the parent's element children is first,
/// last, or of the form `a·k + b`.
pub open spec fn structural_matches(m: Map<NodeId, NodeData>, s: StructuralPseudo, id: NodeId) -> bool {
    let p = m[id].parent->0;
    let sibs = element_children(m, m[p].children@);
    let i = position_of(sibs, id);
    &&& m.dom().contains(id)
    &&& m[id].parent is Some
    &&& m.dom().contains(p)
    &&& i < sibs.len()
    &&& match s {
        StructuralPseudo::FirstChild => i == 0,
        StructuralPseudo::LastChild => i == sibs.len() - 1,
        StructuralPseudo::NthChild { a, b } => nth_index_matches(a as int, b as int, i + 1),
    }
}

/// The value of the `class` attribute, or the empty string.
pub open spec fn class_attr(attrs: Seq<Attr>) -> Seq<char> {
    match attr_lookup(attrs, "class"@) {
        Some(v) => v,
        None => Seq::empty(),
    }
}

/// An attribute test holds of an attribute list.
pub open spec fn attr_matches(attrs: Seq<Attr>, am: AttrMatchView) -> bool {
    match am.op {
        AttrOpView::Exists => attr_lookup(attrs, am.name) is Some,
        AttrOpView::Equals(v) => attr_lookup(attrs, am.name) == Some(v),
    }
}

/// A compound selector holds of node `id`: the node is an element, the
/// compound is not marked as never matching, the tag is equal up to ASCII
/// case, the `id` attribute is the wanted one, every class is a token of
/// the `class` attribute, and every attribute and structural test holds.
pub open spec fn compound_matches(m: Map<NodeId, NodeData>, c: CompoundView, id: NodeId) -> bool {
    let attrs = m[id].kind->attrs@;
    &&& !c.never_matches
    &&& is_element_node(m, id)
    &&& (c.tag is Some ==> eq_ignore_ascii_case_spec(m[id].kind->tag@, c.tag->0))
    &&& (c.id is Some ==> attr_lookup(attrs, "id"@) == Some(c.id->0))
    &&& forall|k: int| 0 <= k < c.classes.len() ==> has_ascii_ws_token(class_attr(attrs), #[trigger] c.classes[k])
    &&& forall|k: int| 0 <= k < c.attrs.len() ==> attr_matches(attrs, #[trigger] c.attrs[k])
    &&& forall|k: int| 0 <= k < c.structural.len() ==> structural_matches(m, #[trigger] c.structural[k], id)
}

/// Matching the rest of a selector from combinator `i` on, with `cur` the
/// node to test next (the parent of the node the previous compound
/// matched). A child combinator needs `cur` itself to match compound
/// `i + 1`; a descendant combinator needs `cur` or one of its ancestors to
/// match it, trying each in turn (see [`descend_from`]). After a match the
/// rest continues from the matched node's parent; running out of
/// ancestors succeeds only after the last combinator.
pub open spec fn chain_from(m: Map<NodeId, NodeData>, s: SelectorView, i: int, cur: NodeId, fuel: nat) -> bool
    decreases s.combinators.len() - i, 2int, 0int,
{
    if i < 0 || i >= s.combinators.len() {
        true
    } else {
        match s.combinators[i] {
            MatchCombinator::Child => compound_matches(m, s.compounds[i + 1], cur) && match parent_of(m, cur) {
                Some(p) => chain_from(m, s, i + 1, p, fuel),
                None => i + 1 == s.combinators.len(),
            },
            MatchCombinator::Descendant => descend_from(m, s, i, cur, fuel, fuel),
        }
    }
}

/// The descendant combinator `i`: some node among `cur` and its ancestors
/// (at most `f` of them) matches compound `i + 1` and the rest of the
/// selector holds from there.
pub open spec fn descend_from(
    m: Map<NodeId, NodeData>,
    s: SelectorView,
    i: int,
    cur: NodeId,
    f: nat,
    fuel: nat,
) -> bool
    decreases s.combinators.len() - i, 1int, f,
{
    if f == 0 || i < 0 || i >= s.combinators.len() {
        false
    } else {
        ||| (compound_matches(m, s.compounds[i + 1], cur) && match parent_of(m, cur) {
            Some(p) => chain_from(m, s, i + 1, p, fuel),
            None => i + 1 == s.combinators.len(),
        })
        ||| match parent_of(m, cur) {
            Some(p) => descend_from(m, s, i, p, (f - 1) as nat, fuel),
            None => false,
        }
    }
}

/// A compiled selector holds of node `id`: its first compound matches `id`
/// and the combinators are met from `id`'s parent upwards.
pub open spec fn selector_matches(m: Map<NodeId, NodeData>, s: SelectorView, id: NodeId, fuel: nat) -> bool {
    &&& compound_matches(m, s.compounds[0], id)
    &&& match parent_of(m, id) {
        Some(p) => chain_from(m, s, 0, p, fuel),
        None => s.combinators.len() == 0,
    }
}

// ───────────────────────── matching, executable ─────────────────────────

/// The parent of `id` in `doc`, if `id` is a node with a parent.
fn parent_id(doc: &Document, id: NodeId) -> (r: Option<NodeId>)
    ensures
        r == parent_of(doc.nodes(), id),
{
    match doc.get(id) {
        Some(n) => n.parent,
        None => None,
    }
}

/// The ids of `kids` that are elements of `doc`, in order.
fn element_siblings(doc: &Document, kids: &Vec<NodeId>) -> (r: Vec<NodeId>)
    ensures
        r@ == element_children(doc.nodes(), kids@),
{
    let mut r: Vec<NodeId> = Vec::new();
    let mut i: usize = 0;
    while i < kids.len()
        invariant
            i <= kids.len(),
            r@ == element_children(doc.nodes(), kids@.take(i as int)),
        decreases kids.len() - i,
    {
        proof {
            assert(kids@.take(i + 1).drop_last() =~= kids@.take(i as int));
        }
        let c = kids[i];
        match doc.get(c) {
            Some(n) => {
                if n.kind.is_element() {
                    r.push(c);
                }
            },
            None => {},
        }
        i += 1;
    }
    proof {
        assert(kids@.take(kids.len() as int) =~= kids@);
    }
    r
}

/// Index of the first occurrence of `x` in `v` (`v.len()` when absent).
fn index_in(v: &Vec<NodeId>, x: NodeId) -> (r: usize)
    ensures
        r == position_of(v@, x),
        r <= v.len(),
{
    let mut i: usize = 0;
    while i < v.len()
        invariant
            i <= v.len(),
            forall|k: int| 0 <= k < i ==> v@[k] != x,
        decreases v.len() - i,
    {
        if v[i] == x {
            proof {
                lemma_position_of(v@, x, i as int);
            }
            return i;
        }
        i += 1;
    }
    proof {
        lemma_position_of(v@, x, i as int);
    }
    i
}

proof fn lemma_multiple_of(a: int, d: int)
    requires
        a > 0,
    ensures
        (exists|k: int| k >= 0 && #[trigger] (a * k) == d) <==> (d >= 0 && d % a == 0),
{
    if d >= 0 && d % a == 0 {
        lemma_fundamental_div_mod(d, a);
        let k = d / a;
        assert(a * k == d);
        assert(k >= 0) by (nonlinear_arith)
            requires
                a * k == d,
                a > 0,
                d >= 0,
        ;
    }
    if exists|k: int| k >= 0 && #[trigger] (a * k) == d {
        let k = choose|k: int| k >= 0 && #[trigger] (a * k) == d;
        assert(d >= 0) by (nonlinear_arith)
            requires
                a * k == d,
                a > 0,
                k >= 0,
        ;
        lemma_mod_multiples_basic(k, a);
        assert(k * a == a * k) by (nonlinear_arith);
    }
}

/// For `a != 0`, `n` is `a·k + b` for some `k >= 0` exactly when `n - b`
/// is a multiple of `a` with the sign of `a`.
proof fn lemma_nth_by_remainder(a: int, b: int, n: int)
    requires
        a != 0,
    ensures
        nth_index_matches(a, b, n) <==> (if a > 0 {
            n - b >= 0 && (n - b) % a == 0
        } else {
            b - n >= 0 && (b - n) % (-a) == 0
        }),
{
    let d = n - b;
    if a > 0 {
        lemma_multiple_of(a, d);
        if nth_index_matches(a, b, n) {
            let k = choose|k: int| k >= 0 && #[trigger] (a * k) + b == n;
            assert(a * k == d);
        }
        if d >= 0 && d % a == 0 {
            let k = choose|k: int| k >= 0 && #[trigger] (a * k) == d;
            assert((a * k) + b == n);
        }
    } else {
        lemma_multiple_of(-a, -d);
        if nth_index_matches(a, b, n) {
            let k = choose|k: int| k >= 0 && #[trigger] (a * k) + b == n;
            assert((-a) * k == -(a * k)) by (nonlinear_arith);
            assert((-a) * k == -d);
        }
        if -d >= 0 && (-d) % (-a) == 0 {
            let k = choose|k: int| k >= 0 && #[trigger] ((-a) * k) == -d;
            assert((-a) * k == -(a * k)) by (nonlinear_arith);
            assert((a * k) + b == n);
        }
    }
}

/// Whether `n` is `a·k + b` for some `k >= 0`.
fn nth_matches(a: i32, b: i32, n: usize) -> (r: bool)
    ensures
        r == nth_index_matches(a as int, b as int, n as int),
{
    let d: i128 = n as i128 - b as i128;
    if a == 0 {
        d == 0
    } else {
        proof {
            lemma_nth_by_remainder(a as int, b as int, n as int);
        }
        if a > 0 {
            d >= 0 && (d as u128) % (a as u128) == 0
        } else {
            let na: i128 = -(a as i128);
            d <= 0 && ((-d) as u128) % (na as u128) == 0
        }
    }
}

impl StructuralPseudo {
    /// Whether this pseudo-class holds of node `node_id`.
    pub fn matches(&self, doc: &Document, node_id: NodeId) -> (b: bool)
        ensures
            b == structural_matches(doc.nodes(), *self, node_id),
    {
        let node = match doc.get(node_id) {
            Some(n) => n,
            None => return false,
        };
        let pid = match node.parent {
            Some(p) => p,
            None => return false,
        };
        let parent = match doc.get(pid) {
            Some(p) => p,
            None => return false,
        };
        let sibs = element_siblings(doc, &parent.children);
        let idx = index_in(&sibs, node_id);
        if idx >= sibs.len() {
            return false;
        }
        match self {
            StructuralPseudo::FirstChild => idx == 0,
            StructuralPseudo::LastChild => idx == sibs.len() - 1,
            StructuralPseudo::NthChild { a, b } => nth_matches(*a, *b, idx + 1),
        }
    }
}

impl Compound {
    /// Whether this compound selector holds of node `node_id`.
    pub fn matches(&self, doc: &Document, node_id: NodeId) -> (b: bool)
        requires
            doc.wf(),
        ensures
            b == compound_matches(doc.nodes(), self@, node_id),
    {
        let ghost m = doc.nodes();
        if self.never_matches {
            return false;
        }
        let node = match doc.get(node_id) {
            Some(n) => n,
            None => return false,
        };
        let (tag, attrs) = match &node.kind {
            NodeKind::Element { tag, attrs, .. } => (tag, attrs),
            _ => return false,
        };
        proof {
            assert(m.dom().contains(node_id));
            assert(kind_ok(m[node_id].kind));
        }
        match &self.tag {
            Some(want) => {
                if !eq_ignore_ascii_case(tag.as_str(), want.as_str()) {
                    return false;
                }
            },
            None => {},
        }
        match &self.id {
            Some(want) => match attr_get(attrs, "id") {
                Some(v) => {
                    if !str_eq(v.as_str(), want.as_str()) {
                        return false;
                    }
                },
                None => return false,
            },
            None => {},
        }
        if self.classes.len() > 0 {
            proof {
                reveal_strlit("");
            }
            let class_attr_value: &str = match attr_get(attrs, "class") {
                Some(v) => v.as_str(),
                None => "",
            };
            let mut k: usize = 0;
            while k < self.classes.len()
                invariant
                    k <= self.classes.len(),
                    class_attr_value@ == class_attr(attrs@),
                    m == doc.nodes(),
                    m.dom().contains(node_id),
                    m[node_id].kind is Element,
                    *attrs == m[node_id].kind->attrs,
                    forall|j: int| 0 <= j < k ==> has_ascii_ws_token(class_attr(attrs@), #[trigger] self@.classes[j]),
                decreases self.classes.len() - k,
            {
                if !contains_ascii_ws_token(class_attr_value, self.classes[k].as_str()) {
                    assert(self@.classes[k as int] == self.classes@[k as int]@);
                    return false;
                }
                k += 1;
            }
        }
        let mut k: usize = 0;
        while k < self.attrs.len()
            invariant
                k <= self.attrs.len(),
                attrs_sorted(attrs@),
                m == doc.nodes(),
                m.dom().contains(node_id),
                m[node_id].kind is Element,
                *attrs == m[node_id].kind->attrs,
                forall|j: int| 0 <= j < k ==> attr_matches(attrs@, #[trigger] self@.attrs[j]),
            decreases self.attrs.len() - k,
        {
            let am = &self.attrs[k];
            let actual = attr_get(attrs, am.name.as_str());
            let ok = match (&am.op, actual) {
                (AttrOp::Exists, Some(_)) => true,
                (AttrOp::Equals(want), Some(have)) => str_eq(have.as_str(), want.as_str()),
                _ => false,
            };
            assert(self@.attrs[k as int] == am@);
            if !ok {
                return false;
            }
            k += 1;
        }
        let mut k: usize = 0;
        while k < self.structural.len()
            invariant
                k <= self.structural.len(),
                forall|j: int| 0 <= j < k ==> structural_matches(m, #[trigger] self@.structural[j], node_id),
                m == doc.nodes(),
            decreases self.structural.len() - k,
        {
            if !self.structural[k].matches(doc, node_id) {
                assert(self@.structural[k as int] == self.structural@[k as int]);
                return false;
            }
            k += 1;
        }
        true
    }
}

impl MatchSelector {
    /// Whether this selector matches the element `node_id` of `doc`. An
    /// ancestor search climbs at most as many levels as the document has
    /// nodes.
    pub fn matches(&self, doc: &Document, node_id: NodeId) -> (b: bool)
        requires
            self.wf(),
            doc.wf(),
        ensures
            b == selector_matches(doc.nodes(), self.view_parts(), node_id, walk_depth(doc.nodes())),
    {
        let ghost s = self.view_parts();
        assert(s.compounds[0] == self.compounds@[0]@);
        if !self.compounds[0].matches(doc, node_id) {
            return false;
        }
        let fuel: u128 = doc.len() as u128 + 1;
        match parent_id(doc, node_id) {
            Some(p) => self.chain_matches(doc, 0, p, fuel),
            None => self.combinators.len() == 0,
        }
    }

    /// The rest of the selector from combinator `i` on (see [`chain_from`]).
    fn chain_matches(&self, doc: &Document, i: usize, cur: NodeId, fuel: u128) -> (b: bool)
        requires
            self.wf(),
            doc.wf(),
        ensures
            b == chain_from(doc.nodes(), self.view_parts(), i as int, cur, fuel as nat),
        decreases self.combinators@.len() - i, 2int, 0int,
    {
        if i >= self.combinators.len() {
            return true;
        }
        let ghost s = self.view_parts();
        assert(s.compounds[i + 1] == self.compounds@[i + 1]@);
        match self.combinators[i] {
            MatchCombinator::Child => {
                if !self.compounds[i + 1].matches(doc, cur) {
                    return false;
                }
                match parent_id(doc, cur) {
                    Some(p) => self.chain_matches(doc, i + 1, p, fuel),
                    None => i + 1 == self.combinators.len(),
                }
            },
            MatchCombinator::Descendant => self.descend_matches(doc, i, cur, fuel, fuel),
        }
    }

    /// The descendant combinator `i` from `cur` (see [`descend_from`]).
    fn descend_matches(&self, doc: &Document, i: usize, cur: NodeId, f: u128, fuel: u128) -> (b: bool)
        requires
            self.wf(),
            doc.wf(),
            i < self.combinators@.len(),
        ensures
            b == descend_from(doc.nodes(), self.view_parts(), i as int, cur, f as nat, fuel as nat),
        decreases self.combinators@.len() - i, 1int, f,
    {
        if f == 0 || i >= self.combinators.len() {
            return false;
        }
        let ghost s = self.view_parts();
        assert(s.compounds[i + 1] == self.compounds@[i + 1]@);
        let parent = parent_id(doc, cur);
        if self.compounds[i + 1].matches(doc, cur) {
            let rest = match parent {
                Some(p) => self.chain_matches(doc, i + 1, p, fuel),
                None => i + 1 == self.combinators.len(),
            };
            if rest {
                return true;
            }
        }
        match parent {
            Some(p) => self.descend_matches(doc, i, p, f - 1, fuel),
            None => false,
        }
    }
}

// ───────────────────────── laws ─────────────────────────

/// The `k`-th ancestor of `id` (`id` itself for `k == 0`), if there is one.
pub open spec fn ancestor_at(m: Map<NodeId, NodeData>, id: NodeId, k: nat) -> Option<NodeId>
    decreases k,
{
    if k == 0 {
        Some(id)
    } else {
        match parent_of(m, id) {
            Some(p) => ancestor_at(m, p, (k - 1) as nat),
            None => None,
        }
    }
}

/// The ancestors of a path's last node are the path's nodes, back to its
/// parentless first node, and none lie beyond it.
proof fn lemma_no_ancestor_past_path(m: Map<NodeId, NodeData>, p: Seq<NodeId>, k: nat)
    requires
        is_path(m, p),
        m[p[0]].parent is None,
        k >= p.len(),
    ensures
        ancestor_at(m, p.last(), k) is None,
    decreases p.len(),
{
    let x = p.last();
    assert(m.dom().contains(p[p.len() - 1]));
    if p.len() == 1 {
        assert(parent_of(m, x) is None);
    } else {
        let q = p.drop_last();
        assert(is_path(m, q)) by {
            assert forall|i: int| 1 <= i < q.len() implies m[#[trigger] q[i]].parent == Some(q[i - 1]) by {
                assert(q[i] == p[i] && q[i - 1] == p[i - 1]);
            }
        }
        assert(m[p[p.len() - 1]].parent == Some(p[p.len() - 2]));
        assert(parent_of(m, x) == Some(q.last()));
        lemma_no_ancestor_past_path(m, q, (k - 1) as nat);
    }
}

/// In a tree (every node reached from the parentless root), a node has
/// fewer ancestors than the document has nodes, so the ancestor search of
/// a descendant combinator, which climbs as many levels as the document
/// has nodes, sees all of them.
pub proof fn law_ancestors_within_walk(d: Document, x: NodeId, k: nat)
    requires
        d.wf(),
        d.nodes().dom().contains(d.root_id()),
        d.nodes()[d.root_id()].parent is None,
        reachable(d.nodes(), d.root_id(), x),
        k >= walk_depth(d.nodes()),
    ensures
        ancestor_at(d.nodes(), x, k) is None,
{
    let m = d.nodes();
    let p = choose|p: Seq<NodeId>| #[trigger] path_from(m, p, d.root_id(), x);
    lemma_path_fits(m, p);
    lemma_no_ancestor_past_path(m, p, k);
}

/// A selector without combinators matches exactly the elements its
/// compound matches.
pub proof fn law_single_compound(m: Map<NodeId, NodeData>, s: SelectorView, id: NodeId, fuel: nat)
    requires
        s.combinators.len() == 0,
    ensures
        selector_matches(m, s, id, fuel) == compound_matches(m, s.compounds[0], id),
{
}

/// `A > B` matches an element exactly when the element matches `B` and its
/// parent matches `A`.
pub proof fn law_child_combinator(m: Map<NodeId, NodeData>, s: SelectorView, id: NodeId, fuel: nat)
    requires
        s.compounds.len() == 2,
        s.combinators == seq![MatchCombinator::Child],
    ensures
        selector_matches(m, s, id, fuel) == (compound_matches(m, s.compounds[0], id) && parent_of(m, id) is Some
            && compound_matches(m, s.compounds[1], parent_of(m, id)->0)),
{
    if let Some(p) = parent_of(m, id) {
        if compound_matches(m, s.compounds[1], p) {
            assert(chain_from(m, s, 0, p, fuel) == match parent_of(m, p) {
                Some(q) => chain_from(m, s, 1, q, fuel),
                None => true,
            });
        }
    }
}

/// The search of a lone descendant combinator finds a match exactly when
/// one of the first `f` of `x` and its ancestors matches.
proof fn lemma_descend_single(m: Map<NodeId, NodeData>, s: SelectorView, x: NodeId, f: nat, fuel: nat)
    requires
        s.compounds.len() == 2,
        s.combinators == seq![MatchCombinator::Descendant],
    ensures
        descend_from(m, s, 0, x, f, fuel) == exists|k: nat|
            k < f && #[trigger] ancestor_at(m, x, k) is Some && compound_matches(
                m,
                s.compounds[1],
                ancestor_at(m, x, k)->0,
            ),
    decreases f,
{
    if f > 0 {
        assert(ancestor_at(m, x, 0) == Some(x));
        match parent_of(m, x) {
            Some(p) => {
                assert(chain_from(m, s, 1, p, fuel));
                lemma_descend_single(m, s, p, (f - 1) as nat, fuel);
                assert forall|k: nat| k > 0 implies #[trigger] ancestor_at(m, x, k) == ancestor_at(m, p, (k - 1) as nat) by {}
                if descend_from(m, s, 0, p, (f - 1) as nat, fuel) {
                    let k = choose|k: nat|
                        k < f - 1 && #[trigger] ancestor_at(m, p, k) is Some && compound_matches(
                            m,
                            s.compounds[1],
                            ancestor_at(m, p, k)->0,
                        );
                    assert(ancestor_at(m, x, k + 1) == ancestor_at(m, p, k));
                }
                if !compound_matches(m, s.compounds[1], x) && !descend_from(m, s, 0, p, (f - 1) as nat, fuel) {
                    assert forall|k: nat| k < f && #[trigger] ancestor_at(m, x, k) is Some implies !compound_matches(
                        m,
                        s.compounds[1],
                        ancestor_at(m, x, k)->0,
                    ) by {
                        if k > 0 {
                            assert(ancestor_at(m, x, k) == ancestor_at(m, p, (k - 1) as nat));
                        }
                    }
                }
            },
            None => {
                assert forall|k: nat| k > 0 implies #[trigger] ancestor_at(m, x, k) is None by {}
            },
        }
    }
}

/// `A B` matches an element exactly when the element matches `B` and one
/// of its ancestors (as far as the search climbs) matches `A`.
pub proof fn law_descendant_combinator(m: Map<NodeId, NodeData>, s: SelectorView, id: NodeId, fuel: nat)
    requires
        s.compounds.len() == 2,
        s.combinators == seq![MatchCombinator::Descendant],
    ensures
        selector_matches(m, s, id, fuel) == (compound_matches(m, s.compounds[0], id) && parent_of(m, id) is Some
            && exists|k: nat|
            k < fuel && #[trigger] ancestor_at(m, parent_of(m, id)->0, k) is Some && compound_matches(
                m,
                s.compounds[1],
                ancestor_at(m, parent_of(m, id)->0, k)->0,
            )),
{
    if let Some(p) = parent_of(m, id) {
        lemma_descend_single(m, s, p, fuel, fuel);
    }
}

/// A descendant combinator is met from `x` as soon as any of `x` and its
/// ancestors within reach matches the next compound with the rest of the
/// selector holding from that ancestor's parent, whether or not nearer
/// ancestors also match that compound: matching needs some working chain
/// of ancestors, not the nearest one.
pub proof fn law_descendant_tries_every_ancestor(
    m: Map<NodeId, NodeData>,
    s: SelectorView,
    i: int,
    x: NodeId,
    k: nat,
    f: nat,
    fuel: nat,
)
    requires
        0 <= i < s.combinators.len(),
        k < f,
        ancestor_at(m, x, k) is Some,
        compound_matches(m, s.compounds[i + 1], ancestor_at(m, x, k)->0),
        match parent_of(m, ancestor_at(m, x, k)->0) {
            Some(p) => chain_from(m, s, i + 1, p, fuel),
            None => i + 1 == s.combinators.len(),
        },
    ensures
        descend_from(m, s, i, x, f, fuel),
    decreases k,
{
    if k > 0 {
        let p = parent_of(m, x)->0;
        assert(ancestor_at(m, x, k) == ancestor_at(m, p, (k - 1) as nat));
        law_descendant_tries_every_ancestor(m, s, i, p, (k - 1) as nat, (f - 1) as nat, fuel);
    }
}

/// The `k`-th ancestor of `x` exists and matches compound `base + k` of
/// `s`.
pub open spec fn level_matches(m: Map<NodeId, NodeData>, s: SelectorView, x: NodeId, base: int, k: int) -> bool {
    &&& k >= 0
    &&& ancestor_at(m, x, k as nat) is Some
    &&& compound_matches(m, s.compounds[base + k], ancestor_at(m, x, k as nat)->0)
}

/// Every combinator of `s` is the child combinator.
pub open spec fn all_child(s: SelectorView) -> bool {
    forall|i: int| 0 <= i < s.combinators.len() ==> #[trigger] s.combinators[i] == MatchCombinator::Child
}

proof fn lemma_child_chain(m: Map<NodeId, NodeData>, s: SelectorView, i: int, cur: NodeId, fuel: nat)
    requires
        0 <= i < s.combinators.len(),
        s.compounds.len() == s.combinators.len() + 1,
        all_child(s),
    ensures
        chain_from(m, s, i, cur, fuel) == forall|k: int|
            0 <= k < s.combinators.len() - i ==> #[trigger] level_matches(m, s, cur, i + 1, k),
    decreases s.combinators.len() - i,
{
    let n = s.combinators.len() as int;
    assert(s.combinators[i] == MatchCombinator::Child);
    assert(ancestor_at(m, cur, 0) == Some(cur));
    let rhs = forall|k: int| 0 <= k < n - i ==> #[trigger] level_matches(m, s, cur, i + 1, k);
    if i + 1 == n {
        if let Some(p) = parent_of(m, cur) {
            assert(chain_from(m, s, i + 1, p, fuel));
        }
        if rhs {
            assert(level_matches(m, s, cur, i + 1, 0));
        }
        if compound_matches(m, s.compounds[i + 1], cur) {
            assert forall|k: int| 0 <= k < n - i implies #[trigger] level_matches(m, s, cur, i + 1, k) by {
                assert(k == 0);
            }
        }
    } else {
        match parent_of(m, cur) {
            Some(p) => {
                lemma_child_chain(m, s, i + 1, p, fuel);
                assert forall|k: int| 1 <= k < n - i implies #[trigger] level_matches(m, s, cur, i + 1, k)
                    == level_matches(m, s, p, i + 2, k - 1) by {
                    assert(ancestor_at(m, cur, k as nat) == ancestor_at(m, p, (k - 1) as nat));
                    assert(i + 1 + k == i + 2 + (k - 1));
                }
                if rhs {
                    assert(level_matches(m, s, cur, i + 1, 0));
                    assert forall|k: int| 0 <= k < n - (i + 1) implies #[trigger] level_matches(m, s, p, i + 2, k) by {
                        assert(level_matches(m, s, cur, i + 1, k + 1));
                    }
                }
                if chain_from(m, s, i, cur, fuel) {
                    assert forall|k: int| 0 <= k < n - i implies #[trigger] level_matches(m, s, cur, i + 1, k) by {
                        if k > 0 {
                            assert(level_matches(m, s, p, i + 2, k - 1));
                        }
                    }
                }
            },
            None => {
                if rhs {
                    assert(level_matches(m, s, cur, i + 1, 1));
                    assert(ancestor_at(m, cur, 1) is None);
                }
            },
        }
    }
}

/// A selector of child combinators only, `A > B > C`, matches `x` exactly
/// when `x` matches `C`, its parent matches `B` and its grandparent
/// matches `A`: compound `k` (in match order) is tested on the `k`-th
/// ancestor of `x`, each child step one level above the previous one.
pub proof fn law_child_chain(m: Map<NodeId, NodeData>, s: SelectorView, x: NodeId, fuel: nat)
    requires
        s.compounds.len() == s.combinators.len() + 1,
        all_child(s),
    ensures
        selector_matches(m, s, x, fuel) == forall|k: int|
            0 <= k < s.compounds.len() ==> #[trigger] level_matches(m, s, x, 0, k),
{
    let n = s.combinators.len() as int;
    assert(ancestor_at(m, x, 0) == Some(x));
    let rhs = forall|k: int| 0 <= k < n + 1 ==> #[trigger] level_matches(m, s, x, 0, k);
    if n == 0 {
        if rhs {
            assert(level_matches(m, s, x, 0, 0));
        }
    } else {
        match parent_of(m, x) {
            Some(p) => {
                lemma_child_chain(m, s, 0, p, fuel);
                assert forall|k: int| 1 <= k < n + 1 implies #[trigger] level_matches(m, s, x, 0, k)
                    == level_matches(m, s, p, 1, k - 1) by {
                    assert(ancestor_at(m, x, k as nat) == ancestor_at(m, p, (k - 1) as nat));
                }
                if rhs {
                    assert(level_matches(m, s, x, 0, 0));
                    assert forall|k: int| 0 <= k < n implies #[trigger] level_matches(m, s, p, 1, k) by {
                        assert(level_matches(m, s, x, 0, k + 1));
                    }
                }
                if selector_matches(m, s, x, fuel) {
                    assert forall|k: int| 0 <= k < n + 1 implies #[trigger] level_matches(m, s, x, 0, k) by {
                        if k > 0 {
                            assert(level_matches(m, s, p, 1, k - 1));
                        }
                    }
                }
            },
            None => {
                if rhs {
                    assert(level_matches(m, s, x, 0, 1));
                    assert(ancestor_at(m, x, 1) is None);
                }
            },
        }
    }
}

/// Compounds `i` onwards of `s` can be placed on `x`'s line of ancestors
/// with compound `i` on the ancestor `l` levels up: it exists and matches
/// compound `i`, and the rest fits (see [`rest_fits`]).
pub open spec fn fits(m: Map<NodeId, NodeData>, s: SelectorView, x: NodeId, g: nat, i: int, l: nat) -> bool
    decreases s.combinators.len() - i, 2int, 0nat,
{
    &&& ancestor_at(m, x, l) is Some
    &&& compound_matches(m, s.compounds[i], ancestor_at(m, x, l)->0)
    &&& rest_fits(m, s, x, g, i, l)
}

/// With compound `i` placed `l` levels up, the following compounds fit: a
/// child combinator puts the next compound exactly one level higher, a
/// descendant combinator between one and `g` levels higher.
pub open spec fn rest_fits(m: Map<NodeId, NodeData>, s: SelectorView, x: NodeId, g: nat, i: int, l: nat) -> bool
    decreases s.combinators.len() - i, 1int, 0nat,
{
    if i < 0 || i >= s.combinators.len() {
        true
    } else {
        match s.combinators[i] {
            MatchCombinator::Child => fits(m, s, x, g, i + 1, l + 1),
            MatchCombinator::Descendant => fits_above(m, s, x, g, i, l, g),
        }
    }
}

/// Compounds `i + 1` onwards fit with compound `i + 1` placed somewhere
/// from one to `t` levels above level `l`.
pub open spec fn fits_above(m: Map<NodeId, NodeData>, s: SelectorView, x: NodeId, g: nat, i: int, l: nat, t: nat) -> bool
    decreases s.combinators.len() - i, 0int, t,
{
    if t == 0 || i < 0 || i >= s.combinators.len() {
        false
    } else {
        fits_above(m, s, x, g, i, l, (t - 1) as nat) || fits(m, s, x, g, i + 1, l + t)
    }
}

proof fn lemma_ancestor_step(m: Map<NodeId, NodeData>, x: NodeId, j: nat)
    ensures
        ancestor_at(m, x, j + 1) == match ancestor_at(m, x, j) {
            Some(a) => parent_of(m, a),
            None => None,
        },
    decreases j,
{
    if j == 0 {
        if let Some(p) = parent_of(m, x) {
            assert(ancestor_at(m, p, 0) == Some(p));
        }
    } else {
        if let Some(p) = parent_of(m, x) {
            lemma_ancestor_step(m, p, (j - 1) as nat);
            assert(ancestor_at(m, x, j) == ancestor_at(m, p, (j - 1) as nat));
            assert(ancestor_at(m, x, j + 1) == ancestor_at(m, p, j));
        }
    }
}

proof fn lemma_ancestor_none_up(m: Map<NodeId, NodeData>, x: NodeId, j: nat, k: nat)
    requires
        ancestor_at(m, x, j) is None,
        j <= k,
    ensures
        ancestor_at(m, x, k) is None,
    decreases k - j,
{
    if j < k {
        lemma_ancestor_step(m, x, j);
        lemma_ancestor_none_up(m, x, j + 1, k);
    }
}

proof fn lemma_above_none(m: Map<NodeId, NodeData>, s: SelectorView, x: NodeId, g: nat, i: int, l: nat, t: nat)
    requires
        ancestor_at(m, x, l + 1) is None,
    ensures
        !fits_above(m, s, x, g, i, l, t),
    decreases t,
{
    if t > 0 && 0 <= i < s.combinators.len() {
        lemma_above_none(m, s, x, g, i, l, (t - 1) as nat);
        lemma_ancestor_none_up(m, x, l + 1, l + t);
        assert(!fits(m, s, x, g, i + 1, l + t));
        assert(fits_above(m, s, x, g, i, l, t) == (fits_above(m, s, x, g, i, l, (t - 1) as nat) || fits(
            m,
            s,
            x,
            g,
            i + 1,
            l + t,
        )));
    }
}

/// Peeling the lowest level off the range instead of the highest.
proof fn lemma_above_from_below(m: Map<NodeId, NodeData>, s: SelectorView, x: NodeId, g: nat, i: int, l: nat, t: nat)
    requires
        0 <= i < s.combinators.len(),
        t > 0,
    ensures
        fits_above(m, s, x, g, i, l, t) == (fits(m, s, x, g, i + 1, l + 1) || fits_above(
            m,
            s,
            x,
            g,
            i,
            l + 1,
            (t - 1) as nat,
        )),
    decreases t,
{
    let t1 = (t - 1) as nat;
    assert(fits_above(m, s, x, g, i, l, t) == (fits_above(m, s, x, g, i, l, t1) || fits(m, s, x, g, i + 1, l + t)));
    if t > 1 {
        lemma_above_from_below(m, s, x, g, i, l, t1);
        let t2 = (t1 - 1) as nat;
        assert((l + 1 + t1) as nat == l + t);
        assert(fits_above(m, s, x, g, i, l + 1, t1) == (fits_above(m, s, x, g, i, l + 1, t2) || fits(
            m,
            s,
            x,
            g,
            i + 1,
            l + 1 + t1,
        )));
    } else {
        assert(!fits_above(m, s, x, g, i, l, 0));
        assert(!fits_above(m, s, x, g, i, l + 1, 0));
    }
}

proof fn lemma_rest_none(m: Map<NodeId, NodeData>, s: SelectorView, x: NodeId, g: nat, i: int, l: nat)
    requires
        0 <= i < s.combinators.len(),
        ancestor_at(m, x, l + 1) is None,
    ensures
        !rest_fits(m, s, x, g, i, l),
{
    lemma_above_none(m, s, x, g, i, l, g);
}

proof fn lemma_tail_fits(m: Map<NodeId, NodeData>, s: SelectorView, x: NodeId, fuel: nat, k: int, j: nat, a: NodeId)
    requires
        s.compounds.len() == s.combinators.len() + 1,
        0 <= k <= s.combinators.len(),
        ancestor_at(m, x, j) == Some(a),
    ensures
        (compound_matches(m, s.compounds[k], a) && match parent_of(m, a) {
            Some(p) => chain_from(m, s, k, p, fuel),
            None => k == s.combinators.len(),
        }) == fits(m, s, x, fuel, k, j),
    decreases s.combinators.len() - k, 2int, 0nat,
{
    if k < s.combinators.len() {
        lemma_ancestor_step(m, x, j);
        match parent_of(m, a) {
            Some(p) => {
                lemma_chain_fits(m, s, x, fuel, k, j, p);
            },
            None => {
                lemma_rest_none(m, s, x, fuel, k, j);
            },
        }
    } else {
        if let Some(p) = parent_of(m, a) {
            assert(chain_from(m, s, k, p, fuel));
        }
    }
}

proof fn lemma_chain_fits(m: Map<NodeId, NodeData>, s: SelectorView, x: NodeId, fuel: nat, i: int, l: nat, cur: NodeId)
    requires
        s.compounds.len() == s.combinators.len() + 1,
        0 <= i < s.combinators.len(),
        ancestor_at(m, x, l + 1) == Some(cur),
    ensures
        chain_from(m, s, i, cur, fuel) == rest_fits(m, s, x, fuel, i, l),
    decreases s.combinators.len() - i, 1int, 0nat,
{
    match s.combinators[i] {
        MatchCombinator::Child => {
            lemma_tail_fits(m, s, x, fuel, i + 1, l + 1, cur);
        },
        MatchCombinator::Descendant => {
            lemma_descend_fits(m, s, x, fuel, i, l, cur, fuel);
        },
    }
}

proof fn lemma_descend_fits(
    m: Map<NodeId, NodeData>,
    s: SelectorView,
    x: NodeId,
    fuel: nat,
    i: int,
    l: nat,
    cur: NodeId,
    f: nat,
)
    requires
        s.compounds.len() == s.combinators.len() + 1,
        0 <= i < s.combinators.len(),
        ancestor_at(m, x, l + 1) == Some(cur),
    ensures
        descend_from(m, s, i, cur, f, fuel) == fits_above(m, s, x, fuel, i, l, f),
    decreases s.combinators.len() - i, 0int, f,
{
    if f > 0 {
        lemma_tail_fits(m, s, x, fuel, i + 1, l + 1, cur);
        lemma_ancestor_step(m, x, l + 1);
        lemma_above_from_below(m, s, x, fuel, i, l, f);
        match parent_of(m, cur) {
            Some(p) => {
                lemma_descend_fits(m, s, x, fuel, i, l + 1, p, (f - 1) as nat);
            },
            None => {
                lemma_above_none(m, s, x, fuel, i, l + 1, (f - 1) as nat);
            },
        }
    }
}

/// Matching a selector, whatever its combinators: `x` matches exactly when
/// the compounds can be placed on `x` and its ancestors, compound 0 on `x`
/// itself, each child combinator putting the next compound exactly one
/// level higher and each descendant combinator between one and `fuel`
/// levels higher (the search's reach), every placed compound matching the
/// ancestor it is placed on.
pub proof fn law_selector_placement(m: Map<NodeId, NodeData>, s: SelectorView, x: NodeId, fuel: nat)
    requires
        s.compounds.len() == s.combinators.len() + 1,
    ensures
        selector_matches(m, s, x, fuel) == fits(m, s, x, fuel, 0, 0),
{
    assert(ancestor_at(m, x, 0) == Some(x));
    lemma_tail_fits(m, s, x, fuel, 0, 0, x);
}

/// `:first-child` is `:nth-child(1)`.
pub proof fn law_first_child_is_nth_child_one(m: Map<NodeId, NodeData>, id: NodeId)
    ensures
        structural_matches(m, StructuralPseudo::FirstChild, id) == structural_matches(
            m,
            StructuralPseudo::NthChild { a: 0, b: 1 },
            id,
        ),
{
}

} // verus!
