//! The document tree: an arena of nodes keyed by `NodeId`, with parent
//! links and ordered child lists.
//!
//! The arena is a `slab::Slab`, so node keys stay stable across inserts.
//! [`Document::wf`] is the tree's consistency invariant: every node's key is
//! its `id`, a node's parent lists it among its children and every listed
//! child points back at its parent, and no child is listed twice.

use vstd::prelude::*;
use slab::Slab;

use crate::attrs::{Attr, attrs_sorted, attrs_from_pairs};
use crate::style::ComputedStyle;
use crate::text::copy_str;

verus! {

pub type NodeId = usize;

/// The handle of the conceptual document node above `<html>`; it is never
/// stored in the arena.
pub const DOCUMENT_SENTINEL: NodeId = usize::MAX;

/// HTML node kinds. `Element` keeps the source tag and every attribute
/// uninterpreted, beside the computed style the cascade fills in.
#[derive(Debug)]
pub enum NodeKind {
    Element { tag: String, attrs: Vec<Attr>, computed: ComputedStyle },
    Text(String),
    /// Kept so consumers can reproduce the source tree; skipped by layout.
    Comment(String),
}

impl NodeKind {
    pub fn is_element(&self) -> (b: bool)
        ensures
            b == self is Element,
    {
        match self {
            NodeKind::Element { .. } => true,
            _ => false,
        }
    }

    pub fn is_text(&self) -> (b: bool)
        ensures
            b == self is Text,
    {
        match self {
            NodeKind::Text(_) => true,
            _ => false,
        }
    }

    pub fn is_comment(&self) -> (b: bool)
        ensures
            b == self is Comment,
    {
        match self {
            NodeKind::Comment(_) => true,
            _ => false,
        }
    }
}

/// A node of the document arena.
#[derive(Debug)]
pub struct NodeData {
    pub id: NodeId,
    pub parent: Option<NodeId>,
    pub children: Vec<NodeId>,
    pub kind: NodeKind,
}

/// Element attributes are kept sorted by name.
pub open spec fn kind_ok(k: NodeKind) -> bool {
    match k {
        NodeKind::Element { attrs, .. } => attrs_sorted(attrs@),
        _ => true,
    }
}

/// A node that is not yet linked into a tree.
pub open spec fn detached(n: NodeData) -> bool {
    n.parent is None && n.children@.len() == 0 && kind_ok(n.kind)
}

impl NodeData {
    /// A detached element with the given tag and attributes (a later
    /// attribute of the same name replaces an earlier one).
    pub fn new_element(tag: String, attrs: Vec<(String, String)>) -> (n: Self)
        ensures
            detached(n),
            n.id == 0,
            n.kind matches NodeKind::Element { tag: t, attrs: a, computed: c } && t@ == tag@
                && c@ == crate::style::initial_style_spec() && forall|name: Seq<char>|
                #![trigger crate::attrs::attr_lookup(a@, name)]
                crate::attrs::attr_lookup(a@, name) == crate::attrs::last_pair_value(attrs@, name),
    {
        NodeData {
            id: 0,
            parent: None,
            children: Vec::new(),
            kind: NodeKind::Element {
                tag,
                attrs: attrs_from_pairs(attrs),
                computed: ComputedStyle::initial(),
            },
        }
    }

    /// A detached text node.
    pub fn new_text(content: String) -> (n: Self)
        ensures
            detached(n),
            n.id == 0,
            n.kind == NodeKind::Text(content),
    {
        NodeData { id: 0, parent: None, children: Vec::new(), kind: NodeKind::Text(content) }
    }

    /// A detached comment node.
    pub fn new_comment(content: String) -> (n: Self)
        ensures
            detached(n),
            n.id == 0,
            n.kind == NodeKind::Comment(content),
    {
        NodeData { id: 0, parent: None, children: Vec::new(), kind: NodeKind::Comment(content) }
    }
}

// ───────────────────────── the arena (slab) ─────────────────────────

#[verifier::external_type_specification]
#[verifier::external_body]
#[verifier::reject_recursive_types(T)]
pub struct ExSlab<T>(Slab<T>);

/// The occupied entries of a node arena, by key.
pub uninterp spec fn arena_nodes(s: Slab<NodeData>) -> Map<usize, NodeData>;

/// `Slab::new`: an arena with no entries.
#[verifier::external_body]
fn arena_new() -> (fresh: Slab<NodeData>)
    ensures
        forall|k: usize| !arena_nodes(fresh).dom().contains(k),
{
    Slab::new()
}

/// `Slab::insert`: stores `v` under a key that was vacant and returns the
/// key. Keys index the slab's entry vector, so they stay below `usize::MAX`.
#[verifier::external_body]
fn arena_insert(s: &mut Slab<NodeData>, v: NodeData) -> (k: usize)
    ensures
        !arena_nodes(*old(s)).dom().contains(k),
        k < usize::MAX,
        arena_nodes(*final(s)) == arena_nodes(*old(s)).insert(k, v),
{
    s.insert(v)
}

/// `Slab::get`: the entry under `k`, if occupied.
#[verifier::external_body]
fn arena_get(s: &Slab<NodeData>, k: usize) -> (r: Option<&NodeData>)
    ensures
        match r {
            Some(v) => arena_nodes(*s).dom().contains(k) && *v == arena_nodes(*s)[k],
            None => !arena_nodes(*s).dom().contains(k),
        },
{
    s.get(k)
}

/// `Slab`'s `IndexMut`: the entry under an occupied key, for update.
#[verifier::external_body]
fn arena_get_mut(s: &mut Slab<NodeData>, k: usize) -> (r: &mut NodeData)
    requires
        arena_nodes(*old(s)).dom().contains(k),
    ensures
        *r == arena_nodes(*old(s))[k],
        arena_nodes(*final(s)) == arena_nodes(*old(s)).insert(k, *final(r)),
{
    &mut s[k]
}

/// `Slab::len`: the number of occupied entries.
#[verifier::external_body]
fn arena_len(s: &Slab<NodeData>) -> (count: usize)
    ensures
        count == arena_nodes(*s).dom().len(),
{
    s.len()
}

/// The occupied keys in increasing order (`Slab::iter`, keys only).
#[verifier::external_body]
fn arena_keys(s: &Slab<NodeData>) -> (keys: Vec<usize>)
    ensures
        forall|k: usize| arena_nodes(*s).dom().contains(k) <==> keys@.contains(k),
        forall|i: int, j: int| 0 <= i < j < keys@.len() ==> keys@[i] < keys@[j],
{
    s.iter().map(|(k, _)| k).collect()
}

// ───────────────────────── child lists ─────────────────────────

/// `s` without the occurrences of `x`, in order.
pub open spec fn without(s: Seq<NodeId>, x: NodeId) -> Seq<NodeId>
    decreases s.len(),
{
    if s.len() == 0 {
        s
    } else if s.last() == x {
        without(s.drop_last(), x)
    } else {
        without(s.drop_last(), x).push(s.last())
    }
}

/// What removing `x` from a list keeps, and that it keeps a list free of repeats.
pub proof fn lemma_without(s: Seq<NodeId>, x: NodeId)
    ensures
        forall|c: NodeId| #[trigger] without(s, x).contains(c) <==> (s.contains(c) && c != x),
        s.no_duplicates() ==> without(s, x).no_duplicates(),
        !s.contains(x) ==> without(s, x) == s,
    decreases s.len(),
{
    if s.len() > 0 {
        let t = s.drop_last();
        lemma_without(t, x);
        assert(s =~= t.push(s.last()));
        assert forall|c: NodeId| #[trigger] without(s, x).contains(c) <==> (s.contains(c) && c != x) by {
            if s.last() != x {
                assert(without(s, x) == without(t, x).push(s.last()));
                if without(s, x).contains(c) {
                    let k = choose|k: int| 0 <= k < without(s, x).len() && without(s, x)[k] == c;
                    if k < without(t, x).len() {
                        assert(without(t, x)[k] == c);
                        assert(without(t, x).contains(c));
                    }
                }
                if s.contains(c) && c != x {
                    let k = choose|k: int| 0 <= k < s.len() && s[k] == c;
                    if k < t.len() {
                        assert(t[k] == c);
                        assert(without(t, x).contains(c));
                        let m = choose|m: int| 0 <= m < without(t, x).len() && without(t, x)[m] == c;
                        assert(without(s, x)[m] == c);
                    } else {
                        assert(without(s, x)[without(s, x).len() - 1] == c);
                    }
                }
            } else {
                if s.contains(c) && c != x {
                    let k = choose|k: int| 0 <= k < s.len() && s[k] == c;
                    assert(k < t.len());
                    assert(t[k] == c);
                }
                if without(t, x).contains(c) {
                    let k = choose|k: int| 0 <= k < without(t, x).len() && without(t, x)[k] == c;
                    assert(t.contains(c));
                    let m = choose|m: int| 0 <= m < t.len() && t[m] == c;
                    assert(s[m] == c);
                }
            }
        }
        if s.no_duplicates() {
            assert(t.no_duplicates()) by {
                assert forall|i: int, j: int| 0 <= i < t.len() && 0 <= j < t.len() && i != j implies t[i] != t[j] by {
                    assert(s[i] == t[i] && s[j] == t[j]);
                }
            }
            if s.last() != x {
                let w = without(t, x);
                assert(!t.contains(s.last())) by {
                    if t.contains(s.last()) {
                        let k = choose|k: int| 0 <= k < t.len() && t[k] == s.last();
                        assert(s[k] == s[s.len() - 1]);
                    }
                }
                assert(!w.contains(s.last()));
                assert forall|i: int, j: int|
                    0 <= i < w.push(s.last()).len() && 0 <= j < w.push(s.last()).len() && i != j implies w.push(s.last())[i]
                    != w.push(s.last())[j] by {
                    if i < w.len() && j < w.len() {
                    } else if i == w.len() {
                        assert(w.contains(w.push(s.last())[j]));
                    } else {
                        assert(w.contains(w.push(s.last())[i]));
                    }
                }
            }
        }
        if !s.contains(x) {
            assert(!t.contains(x)) by {
                if t.contains(x) {
                    let k = choose|k: int| 0 <= k < t.len() && t[k] == x;
                    assert(s[k] == x);
                }
            }
            assert(s.last() != x);
        }
    }
}

/// Removing the first element of a list without repeats is dropping it.
pub proof fn lemma_without_first(s: Seq<NodeId>, x: NodeId)
    requires
        s.len() > 0,
        s[0] == x,
        s.no_duplicates(),
    ensures
        without(s, x) == s.drop_first(),
        s.drop_first().no_duplicates(),
    decreases s.len(),
{
    if s.len() == 1 {
        assert(s.drop_last() =~= Seq::<NodeId>::empty());
        assert(without(s.drop_last(), x) == s.drop_last());
        assert(s.drop_first() =~= Seq::<NodeId>::empty());
    } else {
        let t = s.drop_last();
        assert(t.no_duplicates()) by {
            assert forall|i: int, j: int| 0 <= i < t.len() && 0 <= j < t.len() && i != j implies t[i] != t[j] by {
                assert(s[i] == t[i] && s[j] == t[j]);
            }
        }
        assert(t[0] == x);
        lemma_without_first(t, x);
        assert(s.last() != x) by {
            assert(s[0] != s[s.len() - 1]);
        }
        assert(s.drop_first() =~= t.drop_first().push(s.last()));
    }
    assert(s.drop_first().no_duplicates()) by {
        assert forall|i: int, j: int| 0 <= i < s.drop_first().len() && 0 <= j < s.drop_first().len() && i != j implies s.drop_first()[i]
            != s.drop_first()[j] by {
            assert(s[i + 1] == s.drop_first()[i] && s[j + 1] == s.drop_first()[j]);
        }
    }
}

/// Index of the first occurrence of `x` in `s` (`s.len()` when absent),
/// as `iter().position(..).unwrap_or(len)` finds it.
pub open spec fn position_of(s: Seq<NodeId>, x: NodeId) -> int
    decreases s.len(),
{
    if s.len() == 0 {
        0
    } else if s[0] == x {
        0
    } else {
        1 + position_of(s.drop_first(), x)
    }
}

/// `position_of(s, x)` is the first index holding `x`, or the length when none does.
pub proof fn lemma_position_of(s: Seq<NodeId>, x: NodeId, i: int)
    requires
        0 <= i <= s.len(),
        forall|k: int| 0 <= k < i ==> s[k] != x,
        i == s.len() || s[i] == x,
    ensures
        position_of(s, x) == i,
    decreases s.len(),
{
    if s.len() > 0 && i > 0 {
        let t = s.drop_first();
        assert forall|k: int| 0 <= k < i - 1 implies t[k] != x by {
            assert(t[k] == s[k + 1]);
        }
        lemma_position_of(t, x, i - 1);
    }
}

/// Removes every occurrence of `x` from `v` (`retain(|&c| c != x)`).
fn remove_id(v: &mut Vec<NodeId>, x: NodeId)
    ensures
        final(v)@ == without(old(v)@, x),
{
    let mut out: Vec<NodeId> = Vec::new();
    let mut i: usize = 0;
    while i < v.len()
        invariant
            i <= v.len(),
            out@ == without(v@.take(i as int), x),
        decreases v.len() - i,
    {
        proof {
            assert(v@.take(i + 1).drop_last() =~= v@.take(i as int));
        }
        if v[i] != x {
            out.push(v[i]);
        }
        i += 1;
    }
    proof {
        assert(v@.take(v.len() as int) =~= v@);
    }
    *v = out;
}


/// The sibling just before `id` among its parent's children, if any.
pub open spec fn prev_sibling_spec(m: Map<NodeId, NodeData>, id: NodeId) -> Option<NodeId> {
    if m.dom().contains(id) && m[id].parent is Some && m.dom().contains(m[id].parent->0) {
        let sibs = m[m[id].parent->0].children@;
        let i = sibs.index_of(id);
        if sibs.contains(id) && i > 0 {
            Some(sibs[i - 1])
        } else {
            None
        }
    } else {
        None
    }
}


/// Tree consistency of a node map: ids are keys (and never the sentinel),
/// element attributes are sorted, a node's parent lists it among its
/// children, every listed child points back at its parent, and no child
/// list repeats an id.
pub open spec fn tree_ok(m: Map<NodeId, NodeData>) -> bool {
    &&& m.dom().finite()
    &&& forall|k: NodeId| #[trigger] m.dom().contains(k) ==> m[k].id == k && k < usize::MAX
    &&& forall|k: NodeId| #[trigger] m.dom().contains(k) ==> kind_ok(m[k].kind)
    &&& forall|k: NodeId|
        #[trigger] m.dom().contains(k) && m[k].parent is Some ==> m.dom().contains(m[k].parent->0)
            && m[m[k].parent->0].children@.contains(k)
    &&& forall|p: NodeId, c: NodeId|
        m.dom().contains(p) && #[trigger] m[p].children@.contains(c) ==> m.dom().contains(c)
            && m[c].parent == Some(p)
    &&& forall|p: NodeId| #[trigger] m.dom().contains(p) ==> m[p].children@.no_duplicates()
}

/// Moving node `x` under `np` (or detaching it, for `None`) keeps the tree
/// consistent, given that every child list loses `x` and only `np`'s list
/// gains it.
pub proof fn lemma_relink(m0: Map<NodeId, NodeData>, m: Map<NodeId, NodeData>, x: NodeId, np: Option<NodeId>)
    requires
        tree_ok(m0),
        m.dom() == m0.dom(),
        m0.dom().contains(x),
        np is Some ==> m0.dom().contains(np->0),
        m[x].parent == np,
        forall|k: NodeId| #[trigger] m0.dom().contains(k) ==> m[k].id == m0[k].id && m[k].kind == m0[k].kind,
        forall|k: NodeId| #[trigger] m0.dom().contains(k) && k != x ==> m[k].parent == m0[k].parent,
        forall|k: NodeId|
            #[trigger] m0.dom().contains(k) && (np is None || k != np->0) ==> m[k].children@ == without(
                m0[k].children@,
                x,
            ),
        np is Some ==> m[np->0].children@.no_duplicates(),
        np is Some ==> forall|c: NodeId| #[trigger] m[np->0].children@.contains(c) <==> (without(
            m0[np->0].children@,
            x,
        ).contains(c) || c == x),
    ensures
        tree_ok(m),
{
    assert forall|k: NodeId| #[trigger] m.dom().contains(k) implies m[k].children@.no_duplicates() by {
        lemma_without(m0[k].children@, x);
    }
    assert forall|q: NodeId, c: NodeId| m.dom().contains(q) && #[trigger] m[q].children@.contains(c) implies m.dom().contains(c)
        && m[c].parent == Some(q) by {
        lemma_without(m0[q].children@, x);
        if c == x {
            if np is None || q != np->0 {
                assert(!without(m0[q].children@, x).contains(x));
            }
        } else {
            assert(without(m0[q].children@, x).contains(c));
            assert(m0[q].children@.contains(c));
        }
    }
    assert forall|k: NodeId| #[trigger] m.dom().contains(k) && m[k].parent is Some implies m.dom().contains(m[k].parent->0)
        && m[m[k].parent->0].children@.contains(k) by {
        if k != x {
            let q = m0[k].parent->0;
            assert(m0.dom().contains(q));
            assert(m0[q].children@.contains(k));
            lemma_without(m0[q].children@, x);
            assert(without(m0[q].children@, x).contains(k));
        }
    }
}

/// The ids of a node's children, handed out one at a time in order.
pub struct ChildIter<'a> {
    ids: Option<&'a Vec<NodeId>>,
    pos: usize,
}

impl<'a> ChildIter<'a> {
    /// The ids not handed out yet.
    pub closed spec fn remaining(&self) -> Seq<NodeId> {
        match self.ids {
            Some(v) => if self.pos <= v.len() {
                v@.skip(self.pos as int)
            } else {
                Seq::empty()
            },
            None => Seq::empty(),
        }
    }

    /// The next child id, if any.
    pub fn next(&mut self) -> (r: Option<NodeId>)
        ensures
            old(self).remaining().len() == 0 ==> r is None && final(self).remaining() == old(self).remaining(),
            old(self).remaining().len() > 0 ==> r == Some(old(self).remaining()[0]) && final(self).remaining()
                == old(self).remaining().drop_first(),
    {
        match self.ids {
            Some(v) => {
                if self.pos < v.len() {
                    let c = v[self.pos];
                    proof {
                        assert(v@.skip(self.pos as int)[0] == c);
                        assert(v@.skip(self.pos + 1) =~= v@.skip(self.pos as int).drop_first());
                    }
                    self.pos = self.pos + 1;
                    Some(c)
                } else {
                    proof {
                        assert(self.pos == v.len() ==> v@.skip(self.pos as int) =~= Seq::<NodeId>::empty());
                    }
                    None
                }
            },
            None => None,
        }
    }
}

// ───────────────────────── the document ─────────────────────────

/// An HTML document held in a node arena.
pub struct Document {
    /// The root element's id; meaningful once the document is non-empty.
    root: NodeId,
    /// The arena, private so that only the methods below, which keep
    /// [`Document::wf`], change it.
    nodes: Box<Slab<NodeData>>,
}

impl Document {
    /// The root element's id.
    pub closed spec fn spec_root_id(&self) -> NodeId {
        self.root
    }

    /// The root element's id; meaningful once the document is non-empty.
    #[verifier::when_used_as_spec(spec_root_id)]
    pub fn root_id(&self) -> (r: NodeId)
        ensures
            r == self.spec_root_id(),
    {
        self.root
    }

    /// The nodes of the document, by id.
    pub closed spec fn nodes(&self) -> Map<NodeId, NodeData> {
        arena_nodes(*self.nodes)
    }

    /// Tree consistency: ids are keys, parent and child links agree, and no
    /// child list repeats an id.
    pub open spec fn wf(&self) -> bool {
        tree_ok(self.nodes())
    }

    /// An empty document.
    pub fn new() -> (d: Self)
        ensures
            d.wf(),
            d.root_id() == 0,
            d.nodes().dom() =~= Set::<NodeId>::empty(),
    {
        let d = Document { root: 0, nodes: Box::new(arena_new()) };
        proof {
            assert(d.nodes().dom() =~= Set::<NodeId>::empty());
        }
        d
    }

    /// The node with id `id`, if any.
    pub fn get(&self, id: NodeId) -> (r: Option<&NodeData>)
        ensures
            match r {
                Some(n) => self.nodes().dom().contains(id) && *n == self.nodes()[id],
                None => !self.nodes().dom().contains(id),
            },
    {
        arena_get(&self.nodes, id)
    }

    /// The node with id `id`, for update. Changing its links or kind through
    /// the reference can break [`Document::wf`]; the methods below keep it.
    pub fn get_mut(&mut self, id: NodeId) -> (r: Option<&mut NodeData>)
        ensures
            match r {
                Some(n) => {
                    &&& old(self).nodes().dom().contains(id)
                    &&& *n == old(self).nodes()[id]
                    &&& final(self).nodes() == old(self).nodes().insert(id, *final(n))
                    &&& final(self).root_id() == old(self).root_id()
                },
                None => !old(self).nodes().dom().contains(id) && *final(self) == *old(self),
            },
    {
        let present = match arena_get(&self.nodes, id) {
            Some(_) => true,
            None => false,
        };
        if present {
            Some(arena_get_mut(&mut self.nodes, id))
        } else {
            None
        }
    }

    /// The root element.
    pub fn root(&self) -> (r: &NodeData)
        requires
            self.nodes().dom().contains(self.root_id()),
        ensures
            *r == self.nodes()[self.root_id()],
    {
        match arena_get(&self.nodes, self.root_id()) {
            Some(n) => n,
            None => {
                proof {
                    assert(false);
                }
                arena_get(&self.nodes, self.root_id()).unwrap()
            },
        }
    }

    /// The number of nodes.
    pub fn len(&self) -> (n: usize)
        ensures
            n == self.nodes().dom().len(),
    {
        arena_len(&self.nodes)
    }

    /// Whether the document holds no node.
    pub fn is_empty(&self) -> (b: bool)
        ensures
            b == (self.nodes().dom().len() == 0),
    {
        arena_len(&self.nodes) == 0
    }

    /// Sets the root element id.
    pub fn set_root(&mut self, id: NodeId)
        ensures
            final(self).root_id() == id,
            final(self).nodes() == old(self).nodes(),
    {
        self.root = id;
    }

    /// Stores a detached node and returns its id, which is also written
    /// into the node.
    pub fn insert(&mut self, node: NodeData) -> (id: NodeId)
        requires
            old(self).wf(),
            detached(node),
        ensures
            final(self).wf(),
            final(self).root_id() == old(self).root_id(),
            !old(self).nodes().dom().contains(id),
            final(self).nodes().dom() == old(self).nodes().dom().insert(id),
            final(self).nodes()[id].id == id,
            final(self).nodes()[id].parent is None,
            final(self).nodes()[id].children@.len() == 0,
            final(self).nodes()[id].kind == node.kind,
            forall|k: NodeId| k != id ==> #[trigger] final(self).nodes()[k] == old(self).nodes()[k],
    {
        let ghost m0 = self.nodes();
        let id = arena_insert(&mut self.nodes, node);
        let n = arena_get_mut(&mut self.nodes, id);
        n.id = id;
        proof {
            let m = self.nodes();
            assert(m.dom() =~= m0.dom().insert(id));
            assert forall|p: NodeId, c: NodeId| m.dom().contains(p) && #[trigger] m[p].children@.contains(c) implies m.dom().contains(c)
                && m[c].parent == Some(p) by {
                if p == id {
                    assert(m[p].children@.len() == 0);
                } else {
                    assert(m0[p].children@.contains(c));
                    assert(c != id);
                }
            }
            assert forall|k: NodeId| #[trigger] m.dom().contains(k) && m[k].parent is Some implies m.dom().contains(m[k].parent->0)
                && m[m[k].parent->0].children@.contains(k) by {
                if k != id {
                    let p = m0[k].parent->0;
                    assert(m0.dom().contains(p));
                    assert(p != id);
                }
            }
        }
        id
    }

    /// Node `k` keeps its id and kind from `m0` to `m`.
    pub open spec fn links_kept(m0: Map<NodeId, NodeData>, m: Map<NodeId, NodeData>, k: NodeId) -> bool {
        &&& m[k].id == m0[k].id
        &&& m[k].kind == m0[k].kind
    }

    /// Makes `child` the last child of `parent`, detaching it from its
    /// previous parent first.
    pub fn append_child(&mut self, parent: NodeId, child: NodeId)
        requires
            old(self).wf(),
            old(self).nodes().dom().contains(parent),
            old(self).nodes().dom().contains(child),
        ensures
            final(self).wf(),
            final(self).root_id() == old(self).root_id(),
            final(self).nodes().dom() == old(self).nodes().dom(),
            final(self).nodes()[child].parent == Some(parent),
            final(self).nodes()[parent].children@ == without(old(self).nodes()[parent].children@, child).push(
                child,
            ),
            forall|k: NodeId|
                #![trigger final(self).nodes()[k]]
                old(self).nodes().dom().contains(k) ==> {
                    &&& Self::links_kept(old(self).nodes(), final(self).nodes(), k)
                    &&& k != child ==> final(self).nodes()[k].parent == old(self).nodes()[k].parent
                    &&& k != parent ==> final(self).nodes()[k].children@ == without(
                        old(self).nodes()[k].children@,
                        child,
                    )
                },
    {
        let ghost m0 = self.nodes();
        let prev = match arena_get(&self.nodes, child) {
            Some(n) => n.parent,
            None => None,
        };
        if let Some(pp) = prev {
            let p = arena_get_mut(&mut self.nodes, pp);
            remove_id(&mut p.children, child);
        }
        let ghost m1 = self.nodes();
        let c = arena_get_mut(&mut self.nodes, child);
        c.parent = Some(parent);
        let ghost m2 = self.nodes();
        let p = arena_get_mut(&mut self.nodes, parent);
        p.children.push(child);
        proof {
            let m = self.nodes();
            assert(m.dom() =~= m0.dom());
            // Child lists: only `parent` gains `child`; every list loses `child`.
            assert forall|k: NodeId| #[trigger] m0.dom().contains(k) implies
                m[k].id == m0[k].id && m[k].kind == m0[k].kind
                && (k != child ==> m[k].parent == m0[k].parent)
                && (k != parent ==> m[k].children@ == without(m0[k].children@, child))
                && (k == parent ==> m[k].children@ == without(m0[k].children@, child).push(child)) by {
                lemma_without(m0[k].children@, child);
                if prev is Some && k == prev->0 {
                } else {
                    if m0[k].children@.contains(child) {
                        assert(m0[child].parent == Some(k));
                    }
                }
            }
            assert forall|k: NodeId| #[trigger] m.dom().contains(k) implies m[k].children@.no_duplicates() by {
                lemma_without(m0[k].children@, child);
                if k == parent {
                    let w = without(m0[k].children@, child);
                    assert forall|i: int, j: int|
                        0 <= i < w.push(child).len() && 0 <= j < w.push(child).len() && i != j implies w.push(child)[i]
                        != w.push(child)[j] by {
                        if i < w.len() && j < w.len() {
                        } else if i == w.len() {
                            assert(w.contains(w.push(child)[j]));
                        } else {
                            assert(w.contains(w.push(child)[i]));
                        }
                    }
                }
            }
            assert forall|q: NodeId, c: NodeId| m.dom().contains(q) && #[trigger] m[q].children@.contains(c) implies m.dom().contains(c)
                && m[c].parent == Some(q) by {
                lemma_without(m0[q].children@, child);
                if c == child {
                    if q != parent {
                        assert(!without(m0[q].children@, child).contains(child));
                    }
                } else {
                    if q == parent {
                        assert(without(m0[q].children@, child).push(child).contains(c));
                        let i = choose|i: int| 0 <= i < without(m0[q].children@, child).push(child).len()
                            && without(m0[q].children@, child).push(child)[i] == c;
                        assert(without(m0[q].children@, child).contains(c));
                    }
                    assert(m0[q].children@.contains(c));
                }
            }
            assert forall|k: NodeId| #[trigger] m.dom().contains(k) && m[k].parent is Some implies m.dom().contains(m[k].parent->0)
                && m[m[k].parent->0].children@.contains(k) by {
                if k == child {
                    let w = without(m0[parent].children@, child);
                    assert(w.push(child)[w.len() as int] == child);
                } else {
                    let q = m0[k].parent->0;
                    assert(m[k].parent == m0[k].parent);
                    assert(m0.dom().contains(q));
                    assert(m0[q].children@.contains(k));
                    lemma_without(m0[q].children@, child);
                    let w = without(m0[q].children@, child);
                    assert(w.contains(k));
                    if q == parent {
                        let i = choose|i: int| 0 <= i < w.len() && w[i] == k;
                        assert(w.push(child)[i] == k);
                        assert(m[q].children@ == w.push(child));
                    } else {
                        assert(m[q].children@ == w);
                    }
                }
            }
        }
    }

    /// Detaches `id` from its parent.
    pub fn remove_node(&mut self, id: NodeId)
        requires
            old(self).wf(),
        ensures
            final(self).wf(),
            final(self).root_id() == old(self).root_id(),
            final(self).nodes().dom() == old(self).nodes().dom(),
            old(self).nodes().dom().contains(id) ==> final(self).nodes()[id].parent is None,
            forall|k: NodeId|
                #![trigger final(self).nodes()[k]]
                old(self).nodes().dom().contains(k) ==> {
                    &&& Self::links_kept(old(self).nodes(), final(self).nodes(), k)
                    &&& k != id ==> final(self).nodes()[k].parent == old(self).nodes()[k].parent
                    &&& final(self).nodes()[k].children@ == without(old(self).nodes()[k].children@, id)
                },
    {
        let ghost m0 = self.nodes();
        let parent_opt = match arena_get(&self.nodes, id) {
            Some(n) => n.parent,
            None => None,
        };
        if let Some(pp) = parent_opt {
            let p = arena_get_mut(&mut self.nodes, pp);
            remove_id(&mut p.children, id);
        }
        if arena_get(&self.nodes, id).is_some() {
            let n = arena_get_mut(&mut self.nodes, id);
            n.parent = None;
        }
        proof {
            let m = self.nodes();
            assert(m.dom() =~= m0.dom());
            assert forall|k: NodeId| #[trigger] m0.dom().contains(k) implies
                m[k].id == m0[k].id && m[k].kind == m0[k].kind
                && (k != id ==> m[k].parent == m0[k].parent)
                && m[k].children@ == without(m0[k].children@, id) by {
                lemma_without(m0[k].children@, id);
                if !(parent_opt is Some && k == parent_opt->0) {
                    if m0[k].children@.contains(id) {
                        assert(m0[id].parent == Some(k));
                    }
                }
            }
            assert forall|k: NodeId| #[trigger] m.dom().contains(k) implies m[k].children@.no_duplicates() by {
                lemma_without(m0[k].children@, id);
            }
            assert forall|q: NodeId, c: NodeId| m.dom().contains(q) && #[trigger] m[q].children@.contains(c) implies m.dom().contains(c)
                && m[c].parent == Some(q) by {
                lemma_without(m0[q].children@, id);
                assert(m0[q].children@.contains(c));
            }
            assert forall|k: NodeId| #[trigger] m.dom().contains(k) && m[k].parent is Some implies m.dom().contains(m[k].parent->0)
                && m[m[k].parent->0].children@.contains(k) by {
                let q = m0[k].parent->0;
                lemma_without(m0[q].children@, id);
            }
        }
    }

    /// The sibling just before `id` among its parent's children.
    pub fn previous_sibling(&self, id: NodeId) -> (r: Option<NodeId>)
        requires
            self.wf(),
        ensures
            r == prev_sibling_spec(self.nodes(), id),
    {
        let n = match arena_get(&self.nodes, id) {
            Some(n) => n,
            None => return None,
        };
        let parent = match n.parent {
            Some(p) => p,
            None => return None,
        };
        let p = match arena_get(&self.nodes, parent) {
            Some(p) => p,
            None => return None,
        };
        let mut pos: usize = 0;
        while pos < p.children.len() && p.children[pos] != id
            invariant
                pos <= p.children.len(),
                forall|k: int| 0 <= k < pos ==> p.children@[k] != id,
            decreases p.children.len() - pos,
        {
            pos += 1;
        }
        if pos == p.children.len() {
            proof {
                assert(!p.children@.contains(id));
                assert(false);
            }
            return None;
        }
        proof {
            assert(p.children@.index_of(id) == pos as int) by {
                p.children@.index_of_first_ensures(id);
            }
        }
        if pos == 0 {
            None
        } else {
            Some(p.children[pos - 1])
        }
    }

    /// Appends `text` to the node `id` if it is a text node; `Err(())`
    /// otherwise.
    pub fn append_text_to(&mut self, id: NodeId, text: &str) -> (r: Result<(), ()>)
        requires
            old(self).wf(),
        ensures
            final(self).wf(),
            final(self).root_id() == old(self).root_id(),
            final(self).nodes().dom() == old(self).nodes().dom(),
            r is Ok <==> (old(self).nodes().dom().contains(id) && old(self).nodes()[id].kind is Text),
            r is Ok ==> final(self).nodes()[id].kind is Text && final(self).nodes()[id].kind->Text_0@
                == old(self).nodes()[id].kind->Text_0@ + text@,
            forall|k: NodeId|
                #![trigger final(self).nodes()[k]]
                old(self).nodes().dom().contains(k) ==> {
                    &&& final(self).nodes()[k].id == old(self).nodes()[k].id
                    &&& final(self).nodes()[k].parent == old(self).nodes()[k].parent
                    &&& final(self).nodes()[k].children == old(self).nodes()[k].children
                    &&& k != id ==> final(self).nodes()[k].kind == old(self).nodes()[k].kind
                },
    {
        let is_text = match arena_get(&self.nodes, id) {
            Some(n) => n.kind.is_text(),
            None => false,
        };
        if !is_text {
            return Err(());
        }
        let ghost m0 = self.nodes();
        let n = arena_get_mut(&mut self.nodes, id);
        match &mut n.kind {
            NodeKind::Text(s) => {
                s.append(text);
            },
            _ => {},
        }
        proof {
            let m = self.nodes();
            assert(m.dom() =~= m0.dom());
            assert forall|q: NodeId, c: NodeId| m.dom().contains(q) && #[trigger] m[q].children@.contains(c) implies m.dom().contains(c)
                && m[c].parent == Some(q) by {
                assert(m0[q].children@.contains(c));
            }
        }
        Ok(())
    }

    /// Inserts `new_node` just before `sibling` among `sibling`'s parent's
    /// children, detaching it from its previous parent first. With a
    /// parentless `sibling`, `new_node` is only detached.
    #[verifier::rlimit(40)]
    pub fn insert_before(&mut self, sibling: NodeId, new_node: NodeId)
        requires
            old(self).wf(),
            old(self).nodes().dom().contains(sibling),
            old(self).nodes().dom().contains(new_node),
        ensures
            final(self).wf(),
            final(self).root_id() == old(self).root_id(),
            final(self).nodes().dom() == old(self).nodes().dom(),
            old(self).nodes()[sibling].parent is None && old(self).nodes()[new_node].parent is None
                ==> final(self).nodes() == old(self).nodes(),
            old(self).nodes()[sibling].parent is None ==> {
                &&& final(self).nodes()[new_node].parent is None
                &&& forall|k: NodeId|
                    #![trigger final(self).nodes()[k]]
                    old(self).nodes().dom().contains(k) ==> {
                        &&& Self::links_kept(old(self).nodes(), final(self).nodes(), k)
                        &&& k != new_node ==> final(self).nodes()[k].parent == old(self).nodes()[k].parent
                        &&& final(self).nodes()[k].children@ == without(old(self).nodes()[k].children@, new_node)
                    }
            },
            old(self).nodes()[sibling].parent is Some ==> ({
                let sp = old(self).nodes()[sibling].parent->0;
                let w = without(old(self).nodes()[sp].children@, new_node);
                let pos = position_of(w, sibling);
                &&& final(self).nodes()[new_node].parent == Some(sp)
                &&& final(self).nodes()[sp].children@ == w.insert(pos, new_node)
                &&& forall|k: NodeId|
                    #![trigger final(self).nodes()[k]]
                    old(self).nodes().dom().contains(k) ==> {
                        &&& Self::links_kept(old(self).nodes(), final(self).nodes(), k)
                        &&& k != new_node ==> final(self).nodes()[k].parent == old(self).nodes()[k].parent
                        &&& k != sp ==> final(self).nodes()[k].children@ == without(
                            old(self).nodes()[k].children@,
                            new_node,
                        )
                    }
            }),
    {
        let sibling_parent = match arena_get(&self.nodes, sibling) {
            Some(n) => n.parent,
            None => None,
        };
        if sibling_parent.is_none() {
            let detached = match arena_get(&self.nodes, new_node) {
                Some(n) => n.parent.is_none(),
                None => true,
            };
            if detached {
                proof {
                    let m = self.nodes();
                    assert forall|k: NodeId| #[trigger] m.dom().contains(k) implies m[k].children@ == without(
                        m[k].children@,
                        new_node,
                    ) by {
                        lemma_without(m[k].children@, new_node);
                    }
                }
            } else {
                self.remove_node(new_node);
            }
            return;
        }
        let ghost m0 = self.nodes();
        let prev = match arena_get(&self.nodes, new_node) {
            Some(n) => n.parent,
            None => None,
        };
        if let Some(pp) = prev {
            let p = arena_get_mut(&mut self.nodes, pp);
            remove_id(&mut p.children, new_node);
        }
        let ghost m1 = self.nodes();
        let parent = match arena_get(&self.nodes, sibling) {
            Some(n) => match n.parent {
                Some(p) => p,
                None => return,
            },
            None => return,
        };
        proof {
            assert(m1[sibling].parent == m0[sibling].parent) by {
                if prev is Some && sibling == prev->0 {
                }
            }
        }
        let n = arena_get_mut(&mut self.nodes, new_node);
        n.parent = Some(parent);
        let ghost m2 = self.nodes();
        let p = arena_get_mut(&mut self.nodes, parent);
        let mut pos: usize = 0;
        while pos < p.children.len() && p.children[pos] != sibling
            invariant
                pos <= p.children.len(),
                forall|k: int| 0 <= k < pos ==> p.children@[k] != sibling,
            decreases p.children.len() - pos,
        {
            pos += 1;
        }
        proof {
            lemma_position_of(p.children@, sibling, pos as int);
        }
        p.children.insert(pos, new_node);
        proof {
            let m = self.nodes();
            let sp = parent;
            let w = without(m0[sp].children@, new_node);
            let ins = w.insert(pos as int, new_node);
            assert(m.dom() =~= m0.dom());
            assert forall|k: NodeId| #[trigger] m0.dom().contains(k) implies
                m[k].id == m0[k].id && m[k].kind == m0[k].kind
                && (k != new_node ==> m[k].parent == m0[k].parent)
                && (k != sp ==> m[k].children@ == without(m0[k].children@, new_node))
                && (k == sp ==> m[k].children@ == ins) by {
                lemma_without(m0[k].children@, new_node);
                if !(prev is Some && k == prev->0) {
                    if m0[k].children@.contains(new_node) {
                        assert(m0[new_node].parent == Some(k));
                    }
                }
            }
            lemma_without(m0[sp].children@, new_node);
            assert(ins.no_duplicates()) by {
                assert forall|i: int, j: int| 0 <= i < ins.len() && 0 <= j < ins.len() && i != j implies ins[i] != ins[j] by {
                    if i != pos && j != pos {
                        let i0 = if i < pos { i } else { i - 1 };
                        let j0 = if j < pos { j } else { j - 1 };
                        assert(ins[i] == w[i0] && ins[j] == w[j0]);
                    } else if i == pos {
                        let j0 = if j < pos { j } else { j - 1 };
                        assert(ins[j] == w[j0]);
                        assert(w.contains(w[j0]));
                    } else {
                        let i0 = if i < pos { i } else { i - 1 };
                        assert(ins[i] == w[i0]);
                        assert(w.contains(w[i0]));
                    }
                }
            }
            assert forall|c: NodeId| #[trigger] ins.contains(c) <==> (w.contains(c) || c == new_node) by {
                if ins.contains(c) {
                    let i = choose|i: int| 0 <= i < ins.len() && ins[i] == c;
                    if i != pos {
                        let i0 = if i < pos { i } else { i - 1 };
                        assert(ins[i] == w[i0]);
                    }
                }
                if w.contains(c) {
                    let i = choose|i: int| 0 <= i < w.len() && w[i] == c;
                    let i1 = if i < pos { i } else { i + 1 };
                    assert(ins[i1] == c);
                }
                if c == new_node {
                    assert(ins[pos as int] == new_node);
                }
            }
            lemma_relink(m0, m, new_node, Some(sp));
        }
    }

    /// Stores an attribute on element `target`: replaced when `overwrite`
    /// holds, added only if missing otherwise. Other nodes are unchanged.
    pub fn insert_attr(&mut self, target: NodeId, name: String, value: String, overwrite: bool)
        requires
            old(self).wf(),
        ensures
            final(self).wf(),
            final(self).root_id() == old(self).root_id(),
            final(self).nodes().dom() == old(self).nodes().dom(),
            forall|k: NodeId|
                #![trigger final(self).nodes()[k]]
                old(self).nodes().dom().contains(k) && k != target ==> final(self).nodes()[k] == old(
                    self,
                ).nodes()[k],
            old(self).nodes().dom().contains(target) ==> {
                &&& final(self).nodes()[target].id == old(self).nodes()[target].id
                &&& final(self).nodes()[target].parent == old(self).nodes()[target].parent
                &&& final(self).nodes()[target].children == old(self).nodes()[target].children
                &&& (old(self).nodes()[target].kind is Element) == (final(self).nodes()[target].kind is Element)
                &&& old(self).nodes()[target].kind matches NodeKind::Element { tag: t0, attrs: a0, .. }
                    ==> final(self).nodes()[target].kind matches NodeKind::Element { tag: t1, attrs: a1, .. } && t1 == t0
                    && forall|n: Seq<char>|
                    #![trigger crate::attrs::attr_lookup(a1@, n)]
                    crate::attrs::attr_lookup(a1@, n) == if n == name@ && (overwrite
                        || crate::attrs::attr_lookup(a0@, n) is None) {
                        Some(value@)
                    } else {
                        crate::attrs::attr_lookup(a0@, n)
                    }
            },
    {
        let is_el = match arena_get(&self.nodes, target) {
            Some(n) => n.kind.is_element(),
            None => false,
        };
        if !is_el {
            return;
        }
        let ghost m0 = self.nodes();
        let n = arena_get_mut(&mut self.nodes, target);
        match &mut n.kind {
            NodeKind::Element { attrs, .. } => {
                crate::attrs::attr_insert(attrs, name, value, overwrite);
            },
            _ => {},
        }
        proof {
            let m = self.nodes();
            assert(m.dom() =~= m0.dom());
            assert forall|q: NodeId, c: NodeId| m.dom().contains(q) && #[trigger] m[q].children@.contains(c) implies m.dom().contains(c)
                && m[c].parent == Some(q) by {
                assert(m0[q].children@.contains(c));
            }
        }
    }

    /// Replaces the computed style of element `id`; other nodes and the
    /// tree links are unchanged.
    pub fn set_computed(&mut self, id: NodeId, style: ComputedStyle)
        requires
            old(self).wf(),
        ensures
            final(self).wf(),
            final(self).root_id() == old(self).root_id(),
            final(self).nodes().dom() == old(self).nodes().dom(),
            forall|k: NodeId|
                #![trigger final(self).nodes()[k]]
                old(self).nodes().dom().contains(k) && k != id ==> final(self).nodes()[k] == old(
                    self,
                ).nodes()[k],
            old(self).nodes().dom().contains(id) ==> {
                &&& final(self).nodes()[id].id == old(self).nodes()[id].id
                &&& final(self).nodes()[id].parent == old(self).nodes()[id].parent
                &&& final(self).nodes()[id].children == old(self).nodes()[id].children
                &&& old(self).nodes()[id].kind matches NodeKind::Element { tag: t0, attrs: a0, .. }
                    ==> final(self).nodes()[id].kind == (NodeKind::Element { tag: t0, attrs: a0, computed: style })
                &&& !(old(self).nodes()[id].kind is Element) ==> final(self).nodes()[id].kind == old(self).nodes()[id].kind
            },
    {
        let is_el = match arena_get(&self.nodes, id) {
            Some(n) => n.kind.is_element(),
            None => false,
        };
        if !is_el {
            return;
        }
        let ghost m0 = self.nodes();
        let n = arena_get_mut(&mut self.nodes, id);
        match &mut n.kind {
            NodeKind::Element { computed, .. } => {
                *computed = style;
            },
            _ => {},
        }
        proof {
            let m = self.nodes();
            assert(m.dom() =~= m0.dom());
            assert forall|q: NodeId, c: NodeId| m.dom().contains(q) && #[trigger] m[q].children@.contains(c) implies m.dom().contains(c)
                && m[c].parent == Some(q) by {
                assert(m0[q].children@.contains(c));
            }
        }
    }

    /// An iterator over the children of `id` (none when `id` has no node).
    pub fn child_ids(&self, id: NodeId) -> (it: ChildIter<'_>)
        ensures
            it.remaining() == if self.nodes().dom().contains(id) {
                self.nodes()[id].children@
            } else {
                Seq::<NodeId>::empty()
            },
    {
        match arena_get(&self.nodes, id) {
            Some(n) => ChildIter { ids: Some(&n.children), pos: 0 },
            None => ChildIter { ids: None, pos: 0 },
        }
    }

    /// The number of children of `id` (0 when `id` has no node).
    pub fn child_count(&self, id: NodeId) -> (n: usize)
        ensures
            n == if self.nodes().dom().contains(id) {
                self.nodes()[id].children@.len()
            } else {
                0
            },
    {
        match arena_get(&self.nodes, id) {
            Some(n) => n.children.len(),
            None => 0,
        }
    }

    /// The child of `id` at position `index`.
    pub fn get_child_id(&self, id: NodeId, index: usize) -> (c: NodeId)
        requires
            self.nodes().dom().contains(id),
            index < self.nodes()[id].children@.len(),
        ensures
            c == self.nodes()[id].children@[index as int],
    {
        match arena_get(&self.nodes, id) {
            Some(n) => n.children[index],
            None => {
                proof {
                    assert(false);
                }
                0
            },
        }
    }

    /// The ids of all nodes, in increasing order.
    pub fn ids(&self) -> (keys: Vec<NodeId>)
        ensures
            forall|k: NodeId| self.nodes().dom().contains(k) <==> keys@.contains(k),
            forall|i: int, j: int| 0 <= i < j < keys@.len() ==> keys@[i] < keys@[j],
    {
        arena_keys(&self.nodes)
    }
}

} // verus!
