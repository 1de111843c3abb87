//! Tree construction steps driven by the HTML5 tree builder: creating
//! nodes, appending nodes or text (merging adjacent text), foster-parent
//! insertion, attribute merging, reparenting, and picking the root.

use vstd::prelude::*;

use crate::dom::{
    Document, NodeData, NodeId, NodeKind, DOCUMENT_SENTINEL, lemma_without, lemma_without_first,
    position_of, prev_sibling_spec, tree_ok, without,
};
use crate::error::LayoutError;
use crate::attrs::attr_lookup;
use crate::text::{copy_str, str_eq};

verus! {

/// What the tree builder appends: an existing node, or text.
pub enum NodeOrText {
    AppendNode(NodeId),
    AppendText(String),
}

/// The last child of `p`, if it has one.
pub open spec fn last_child(m: Map<NodeId, NodeData>, p: NodeId) -> Option<NodeId> {
    if m[p].children@.len() > 0 {
        Some(m[p].children@.last())
    } else {
        None
    }
}

/// `m` and `m0` agree on every node other than `x`.
pub open spec fn same_except(m0: Map<NodeId, NodeData>, m: Map<NodeId, NodeData>, x: NodeId) -> bool {
    forall|k: NodeId| #![trigger m[k]] m0.dom().contains(k) && k != x ==> m[k] == m0[k]
}

/// What appending node `id` to `parent` leaves: under the sentinel `id` is
/// detached; otherwise it is `parent`'s last child, having left any
/// previous place.
pub open spec fn append_node_post(m0: Map<NodeId, NodeData>, m: Map<NodeId, NodeData>, parent: NodeId, id: NodeId) -> bool {
    &&& m.dom() == m0.dom()
    &&& parent == DOCUMENT_SENTINEL ==> m[id].parent is None
    &&& parent != DOCUMENT_SENTINEL ==> {
        &&& m[id].parent == Some(parent)
        &&& m[parent].children@ == without(m0[parent].children@, id).push(id)
    }
}

/// What appending `text` to `parent` leaves: nothing under the sentinel;
/// the text added to the last child when that is a text node; otherwise a
/// new text node as `parent`'s last child.
pub open spec fn append_text_post(m0: Map<NodeId, NodeData>, m: Map<NodeId, NodeData>, parent: NodeId, text: Seq<char>) -> bool {
    if parent == DOCUMENT_SENTINEL {
        m == m0
    } else if last_child(m0, parent) is Some && m0[last_child(m0, parent)->0].kind is Text {
        let l = last_child(m0, parent)->0;
        &&& m.dom() == m0.dom()
        &&& m[l].kind is Text
        &&& m[l].kind->Text_0@ == m0[l].kind->Text_0@ + text
    } else {
        exists|t: NodeId|
            {
                &&& !m0.dom().contains(t)
                &&& m.dom() == m0.dom().insert(t)
                &&& #[trigger] m[t].kind is Text
                &&& m[t].kind->Text_0@ == text
                &&& m[t].parent == Some(parent)
                &&& m[parent].children@ == m0[parent].children@.push(t)
            }
    }
}

/// Removing an id from a concatenation removes it from each part.
proof fn lemma_without_concat(a: Seq<NodeId>, b: Seq<NodeId>, x: NodeId)
    ensures
        without(a + b, x) == without(a, x) + without(b, x),
    decreases b.len(),
{
    if b.len() == 0 {
        assert(a + b =~= a);
        assert(without(b, x) =~= b);
        assert(without(a, x) + without(b, x) =~= without(a, x));
    } else {
        lemma_without_concat(a, b.drop_last(), x);
        assert((a + b).drop_last() =~= a + b.drop_last());
        assert((a + b).last() == b.last());
        if b.last() == x {
        } else {
            assert(without(a, x) + without(b.drop_last(), x).push(b.last()) =~= (without(a, x) + without(
                b.drop_last(),
                x,
            )).push(b.last()));
        }
    }
}

/// What inserting `new_node` before `sibling` leaves: a node moves just
/// before `sibling` among the children of `sibling`'s parent; text merges
/// into the preceding sibling when that is a text node, and otherwise
/// becomes a new text node just before `sibling`.
pub open spec fn before_sibling_post(
    m0: Map<NodeId, NodeData>,
    m: Map<NodeId, NodeData>,
    sibling: NodeId,
    new_node: NodeOrText,
) -> bool {
    let sp = m0[sibling].parent->0;
    match new_node {
        NodeOrText::AppendNode(id) => {
            let w = without(m0[sp].children@, id);
            &&& m.dom() == m0.dom()
            &&& m[id].parent == Some(sp)
            &&& m[sp].children@ == w.insert(position_of(w, sibling), id)
        },
        NodeOrText::AppendText(text) => {
            if prev_sibling_spec(m0, sibling) is Some && m0[prev_sibling_spec(m0, sibling)->0].kind is Text {
                let p = prev_sibling_spec(m0, sibling)->0;
                &&& m.dom() == m0.dom()
                &&& m[p].kind is Text
                &&& m[p].kind->Text_0@ == m0[p].kind->Text_0@ + text@
            } else {
                exists|t: NodeId|
                    {
                        let w = m0[sp].children@;
                        &&& !m0.dom().contains(t)
                        &&& m.dom() == m0.dom().insert(t)
                        &&& #[trigger] m[t].kind == NodeKind::Text(text)
                        &&& m[t].parent == Some(sp)
                        &&& m[sp].children@ == w.insert(position_of(w, sibling), t)
                    }
            }
        },
    }
}

/// What detaching node `id` leaves: `id` has no parent and is no one's
/// child; nothing else changes.
pub open spec fn detached_post(m0: Map<NodeId, NodeData>, m: Map<NodeId, NodeData>, id: NodeId) -> bool {
    &&& m.dom() == m0.dom()
    &&& m[id].parent is None
    &&& forall|k: NodeId|
        #![trigger m[k]]
        m0.dom().contains(k) ==> {
            &&& Document::links_kept(m0, m, k)
            &&& k != id ==> m[k].parent == m0[k].parent
            &&& m[k].children@ == without(m0[k].children@, id)
        }
}

/// What inserting `new_node` before a parentless sibling leaves: there is
/// no place to insert at, so a node is detached from where it was and text
/// becomes a new detached text node.
pub open spec fn before_detached_post(m0: Map<NodeId, NodeData>, m: Map<NodeId, NodeData>, new_node: NodeOrText) -> bool {
    match new_node {
        NodeOrText::AppendNode(id) => detached_post(m0, m, id),
        NodeOrText::AppendText(text) => exists|t: NodeId|
            {
                &&& !m0.dom().contains(t)
                &&& m.dom() == m0.dom().insert(t)
                &&& #[trigger] m[t].kind == NodeKind::Text(text)
                &&& m[t].parent is None
                &&& same_except(m0, m, t)
            },
    }
}

/// The value of the first pair named `n`, if any.
pub open spec fn first_pair_value(pairs: Seq<(String, String)>, n: Seq<char>) -> Option<Seq<char>>
    decreases pairs.len(),
{
    if pairs.len() == 0 {
        None
    } else {
        match first_pair_value(pairs.drop_last(), n) {
            Some(v) => Some(v),
            None => if pairs.last().0@ == n {
                Some(pairs.last().1@)
            } else {
                None
            },
        }
    }
}

impl Document {
    /// Creates a detached element and returns its id.
    pub fn create_element(&mut self, tag: String, attrs: Vec<(String, String)>) -> (id: NodeId)
        requires
            old(self).wf(),
        ensures
            final(self).wf(),
            final(self).root_id() == old(self).root_id(),
            !old(self).nodes().dom().contains(id),
            final(self).nodes().dom() == old(self).nodes().dom().insert(id),
            final(self).nodes()[id].parent is None,
            final(self).nodes()[id].children@.len() == 0,
            final(self).nodes()[id].kind matches NodeKind::Element { tag: t, attrs: a, .. } && t@ == tag@
                && forall|n: Seq<char>|
                #![trigger attr_lookup(a@, n)]
                attr_lookup(a@, n) == crate::attrs::last_pair_value(attrs@, n),
            same_except(old(self).nodes(), final(self).nodes(), id),
    {
        let node = NodeData::new_element(tag, attrs);
        self.insert(node)
    }

    /// Creates a detached comment and returns its id.
    pub fn create_comment(&mut self, text: String) -> (id: NodeId)
        requires
            old(self).wf(),
        ensures
            final(self).wf(),
            final(self).root_id() == old(self).root_id(),
            !old(self).nodes().dom().contains(id),
            final(self).nodes().dom() == old(self).nodes().dom().insert(id),
            final(self).nodes()[id].parent is None,
            final(self).nodes()[id].children@.len() == 0,
            final(self).nodes()[id].kind == NodeKind::Comment(text),
            same_except(old(self).nodes(), final(self).nodes(), id),
    {
        self.insert(NodeData::new_comment(text))
    }

    /// Creates a detached text node and returns its id.
    pub fn create_text(&mut self, text: String) -> (id: NodeId)
        requires
            old(self).wf(),
        ensures
            final(self).wf(),
            final(self).root_id() == old(self).root_id(),
            !old(self).nodes().dom().contains(id),
            final(self).nodes().dom() == old(self).nodes().dom().insert(id),
            final(self).nodes()[id].parent is None,
            final(self).nodes()[id].children@.len() == 0,
            final(self).nodes()[id].kind == NodeKind::Text(text),
            same_except(old(self).nodes(), final(self).nodes(), id),
    {
        self.insert(NodeData::new_text(text))
    }

    /// Appends a node or text to `parent`. Under the document sentinel a
    /// node is only detached (it becomes a top-level node) and text is
    /// dropped. Text merges into a trailing text child when there is one.
    pub fn append(&mut self, parent: NodeId, child: NodeOrText)
        requires
            old(self).wf(),
            parent == DOCUMENT_SENTINEL || old(self).nodes().dom().contains(parent),
            child matches NodeOrText::AppendNode(id) ==> old(self).nodes().dom().contains(id),
        ensures
            final(self).wf(),
            final(self).root_id() == old(self).root_id(),
            match child {
                NodeOrText::AppendNode(id) => append_node_post(old(self).nodes(), final(self).nodes(), parent, id),
                NodeOrText::AppendText(text) => append_text_post(old(self).nodes(), final(self).nodes(), parent, text@),
            },
    {
        match child {
            NodeOrText::AppendNode(id) => self.append_node(parent, id),
            NodeOrText::AppendText(text) => self.append_text(parent, text),
        }
    }

    /// Appends node `id` to `parent` (see [`Document::append`]).
    pub fn append_node(&mut self, parent: NodeId, id: NodeId)
        requires
            old(self).wf(),
            parent == DOCUMENT_SENTINEL || old(self).nodes().dom().contains(parent),
            old(self).nodes().dom().contains(id),
        ensures
            final(self).wf(),
            final(self).root_id() == old(self).root_id(),
            append_node_post(old(self).nodes(), final(self).nodes(), parent, id),
    {
        if parent == DOCUMENT_SENTINEL {
            self.remove_node(id);
        } else {
            self.append_child(parent, id);
        }
    }

    /// Appends text to `parent` (see [`Document::append`]).
    pub fn append_text(&mut self, parent: NodeId, text: String)
        requires
            old(self).wf(),
            parent == DOCUMENT_SENTINEL || old(self).nodes().dom().contains(parent),
        ensures
            final(self).wf(),
            final(self).root_id() == old(self).root_id(),
            append_text_post(old(self).nodes(), final(self).nodes(), parent, text@),
    {
        if parent == DOCUMENT_SENTINEL {
            return;
        }
        let ghost m0 = self.nodes();
        let last = match self.get(parent) {
            Some(n) => if n.children.len() > 0 {
                Some(n.children[n.children.len() - 1])
            } else {
                None
            },
            None => None,
        };
        proof {
            if last is Some {
                let l = last->0;
                assert(m0[parent].children@[m0[parent].children@.len() - 1] == l);
                assert(m0[parent].children@.contains(l));
            }
        }
        let merged = match last {
            Some(l) => match self.append_text_to(l, text.as_str()) {
                Ok(()) => true,
                Err(()) => false,
            },
            None => false,
        };
        proof {
            if merged {
                assert(self.nodes().dom() =~= m0.dom());
            }
        }
        if !merged {
            let ghost text_view = text@;
            let t = self.create_text(text);
            self.append_child(parent, t);
            proof {
                lemma_without(m0[parent].children@, t);
                assert(!m0[parent].children@.contains(t));
                assert(self.nodes()[t].kind is Text && self.nodes()[t].kind->Text_0@ == text_view);
            }
        }
    }

    /// Inserts a node or text just before `sibling` (foster parenting).
    /// Text merges into the preceding sibling when that is a text node. A
    /// parentless `sibling` gives no place to insert at (see
    /// [`before_detached_post`]).
    pub fn append_before_sibling(&mut self, sibling: NodeId, new_node: NodeOrText)
        requires
            old(self).wf(),
            old(self).nodes().dom().contains(sibling),
            new_node matches NodeOrText::AppendNode(id) ==> old(self).nodes().dom().contains(id),
        ensures
            final(self).wf(),
            final(self).root_id() == old(self).root_id(),
            old(self).nodes()[sibling].parent is Some ==> before_sibling_post(
                old(self).nodes(),
                final(self).nodes(),
                sibling,
                new_node,
            ),
            old(self).nodes()[sibling].parent is None ==> before_detached_post(
                old(self).nodes(),
                final(self).nodes(),
                new_node,
            ),
    {
        match new_node {
            NodeOrText::AppendNode(id) => {
                self.insert_before(sibling, id);
            },
            NodeOrText::AppendText(text) => {
                let prev = self.previous_sibling(sibling);
                proof {
                    if prev is Some {
                        let sp = self.nodes()[sibling].parent->0;
                        let sibs = self.nodes()[sp].children@;
                        assert(sibs.contains(sibling));
                        let i = sibs.index_of(sibling);
                        assert(sibs[i - 1] == prev->0);
                        assert(sibs.contains(prev->0));
                    }
                }
                let merged = match prev {
                    Some(p) => match self.append_text_to(p, text.as_str()) {
                        Ok(()) => true,
                        Err(()) => false,
                    },
                    None => false,
                };
                if !merged {
                    let ghost m0 = self.nodes();
                    let t = self.create_text(text);
                    let ghost m1 = self.nodes();
                    proof {
                        assert(m1[sibling] == m0[sibling]);
                        if m0[sibling].parent is Some {
                            let sp = m0[sibling].parent->0;
                            assert(m1[sp] == m0[sp]);
                            lemma_without(m0[sp].children@, t);
                            assert(!m0[sp].children@.contains(t));
                        }
                    }
                    self.insert_before(sibling, t);
                    proof {
                        assert(self.nodes()[t].kind == NodeKind::Text(text));
                    }
                }
            },
        }
    }

    /// Appends before `element` when it has a parent, and to
    /// `prev_element` otherwise.
    pub fn append_based_on_parent_node(
        &mut self,
        element: NodeId,
        prev_element: NodeId,
        child: NodeOrText,
    )
        requires
            old(self).wf(),
            old(self).nodes().dom().contains(element),
            old(self).nodes()[element].parent is None ==> (prev_element == DOCUMENT_SENTINEL
                || old(self).nodes().dom().contains(prev_element)),
            child matches NodeOrText::AppendNode(id) ==> old(self).nodes().dom().contains(id),
        ensures
            final(self).wf(),
            final(self).root_id() == old(self).root_id(),
            old(self).nodes()[element].parent is Some ==> before_sibling_post(
                old(self).nodes(),
                final(self).nodes(),
                element,
                child,
            ),
            old(self).nodes()[element].parent is None ==> match child {
                NodeOrText::AppendNode(id) => append_node_post(old(self).nodes(), final(self).nodes(), prev_element, id),
                NodeOrText::AppendText(text) => append_text_post(old(self).nodes(), final(self).nodes(), prev_element, text@),
            },
    {
        let has_parent = match self.get(element) {
            Some(n) => n.parent.is_some(),
            None => false,
        };
        if has_parent {
            self.append_before_sibling(element, child);
        } else {
            self.append(prev_element, child);
        }
    }

    /// Adds each attribute that `target` (an element) does not have yet;
    /// of several new attributes with one name, the first is kept.
    pub fn add_attrs_if_missing(&mut self, target: NodeId, attrs: Vec<(String, String)>)
        requires
            old(self).wf(),
        ensures
            final(self).wf(),
            final(self).root_id() == old(self).root_id(),
            final(self).nodes().dom() == old(self).nodes().dom(),
            same_except(old(self).nodes(), final(self).nodes(), target),
            old(self).nodes().dom().contains(target) ==> {
                &&& final(self).nodes()[target].parent == old(self).nodes()[target].parent
                &&& final(self).nodes()[target].children == old(self).nodes()[target].children
                &&& !(old(self).nodes()[target].kind is Element) ==> final(self).nodes()[target] == old(self).nodes()[target]
                &&& old(self).nodes()[target].kind matches NodeKind::Element { tag: t0, attrs: a0, .. }
                    ==> final(self).nodes()[target].kind matches NodeKind::Element { tag: t1, attrs: a1, .. } && t1 == t0
                    && forall|n: Seq<char>|
                    #![trigger attr_lookup(a1@, n)]
                    attr_lookup(a1@, n) == match attr_lookup(a0@, n) {
                        Some(v) => Some(v),
                        None => first_pair_value(attrs@, n),
                    }
            },
    {
        if !(match self.get(target) {
            Some(n) => n.kind.is_element(),
            None => false,
        }) {
            return;
        }
        let ghost m0 = self.nodes();
        let mut i: usize = 0;
        while i < attrs.len()
            invariant
                self.wf(),
                self.root_id() == old(self).root_id(),
                m0 == old(self).nodes(),
                self.nodes().dom() == m0.dom(),
                m0.dom().contains(target),
                m0[target].kind is Element,
                same_except(m0, self.nodes(), target),
                self.nodes()[target].parent == m0[target].parent,
                self.nodes()[target].children == m0[target].children,
                self.nodes()[target].kind matches NodeKind::Element { tag: t1, attrs: a1, .. } && t1
                    == m0[target].kind->tag && forall|n: Seq<char>|
                    #![trigger attr_lookup(a1@, n)]
                    attr_lookup(a1@, n) == match attr_lookup(m0[target].kind->attrs@, n) {
                        Some(v) => Some(v),
                        None => first_pair_value(attrs@.take(i as int), n),
                    },
                i <= attrs.len(),
            decreases attrs.len() - i,
        {
            let name = copy_str(attrs[i].0.as_str());
            let value = copy_str(attrs[i].1.as_str());
            self.insert_attr(target, name, value, false);
            proof {
                assert(attrs@.take(i + 1).drop_last() =~= attrs@.take(i as int));
                assert(attrs@.take(i + 1).last() == attrs@[i as int]);
            }
            i += 1;
        }
        proof {
            assert(attrs@.take(attrs.len() as int) =~= attrs@);
        }
    }

    /// Moves every child of `old_parent` to the end of `new_parent`'s
    /// children, in order.
    pub fn reparent_children(&mut self, old_parent: NodeId, new_parent: NodeId)
        requires
            old(self).wf(),
            old(self).nodes().dom().contains(old_parent),
            old(self).nodes().dom().contains(new_parent),
        ensures
            final(self).wf(),
            final(self).root_id() == old(self).root_id(),
            final(self).nodes().dom() == old(self).nodes().dom(),
            forall|c: NodeId| #[trigger] old(self).nodes()[old_parent].children@.contains(c) ==> final(self).nodes()[c].parent
                == Some(new_parent),
            old_parent != new_parent ==> final(self).nodes()[old_parent].children@.len() == 0,
            old_parent != new_parent ==> final(self).nodes()[new_parent].children@ == old(self).nodes()[new_parent].children@
                + old(self).nodes()[old_parent].children@,
            old_parent == new_parent ==> final(self).nodes()[new_parent].children@ == old(self).nodes()[new_parent].children@,
    {
        let ghost m0 = self.nodes();
        let children: Vec<NodeId> = match self.get(old_parent) {
            Some(n) => n.children.clone(),
            None => Vec::new(),
        };
        proof {
            assert(children@.skip(0) + children@.take(0) =~= children@);
        }
        let mut i: usize = 0;
        while i < children.len()
            invariant
                self.wf(),
                self.root_id() == old(self).root_id(),
                self.nodes().dom() == m0.dom(),
                m0 == old(self).nodes(),
                tree_ok(m0),
                m0.dom().contains(old_parent),
                m0.dom().contains(new_parent),
                children@ == m0[old_parent].children@,
                i <= children.len(),
                forall|k: int| 0 <= k < i ==> self.nodes()[#[trigger] children@[k]].parent == Some(new_parent),
                old_parent != new_parent ==> self.nodes()[old_parent].children@ == children@.skip(i as int),
                old_parent != new_parent ==> self.nodes()[new_parent].children@ == m0[new_parent].children@
                    + children@.take(i as int),
                old_parent == new_parent ==> self.nodes()[new_parent].children@ == children@.skip(i as int)
                    + children@.take(i as int),
            decreases children.len() - i,
        {
            let ghost before = self.nodes();
            let c = children[i];
            proof {
                assert(m0[old_parent].children@[i as int] == c);
                assert(m0[old_parent].children@.contains(c));
                assert(m0.dom().contains(c));
                assert(m0[old_parent].children@.no_duplicates());
            }
            self.append_child(new_parent, c);
            proof {
                let after = self.nodes();
                assert forall|k: int| 0 <= k < i + 1 implies after[#[trigger] children@[k]].parent == Some(new_parent) by {
                    if k < i {
                        assert(m0[old_parent].children@[k] == children@[k]);
                        assert(m0[old_parent].children@.contains(children@[k]));
                        assert(children@[k] != c) by {
                            assert(m0[old_parent].children@.no_duplicates());
                        }
                    }
                }
                if old_parent != new_parent {
                    let rest = children@.skip(i as int);
                    assert(rest[0] == c);
                    assert(!m0[new_parent].children@.contains(c)) by {
                        if m0[new_parent].children@.contains(c) {
                            assert(m0[c].parent == Some(new_parent));
                        }
                    }
                    assert(!before[new_parent].children@.contains(c)) by {
                        if before[new_parent].children@.contains(c) {
                            let j = choose|j: int| 0 <= j < before[new_parent].children@.len()
                                && before[new_parent].children@[j] == c;
                            if j >= m0[new_parent].children@.len() {
                                let jj = j - m0[new_parent].children@.len();
                                assert(children@[jj] == c);
                                assert(m0[old_parent].children@.no_duplicates());
                            }
                        }
                    }
                    lemma_without(before[new_parent].children@, c);
                    assert(children@.take(i + 1) =~= children@.take(i as int).push(c));
                    assert(after[new_parent].children@ =~= m0[new_parent].children@ + children@.take(i + 1));
                    lemma_without_first(rest, c);
                    assert(rest.drop_first() =~= children@.skip(i + 1));
                } else {
                    let rest = children@.skip(i as int);
                    let done = children@.take(i as int);
                    assert(rest[0] == c);
                    assert(rest.no_duplicates()) by {
                        assert forall|a: int, b: int| 0 <= a < b < rest.len() implies rest[a] != rest[b] by {
                            assert(rest[a] == children@[a + i] && rest[b] == children@[b + i]);
                        }
                    }
                    lemma_without_first(rest, c);
                    assert(!done.contains(c)) by {
                        if done.contains(c) {
                            let j = choose|j: int| 0 <= j < done.len() && done[j] == c;
                            assert(children@[j] == children@[i as int]);
                        }
                    }
                    lemma_without(done, c);
                    lemma_without_concat(rest, done, c);
                    assert(rest.drop_first() =~= children@.skip(i + 1));
                    assert(children@.take(i + 1) =~= done.push(c));
                    assert(after[new_parent].children@ =~= children@.skip(i + 1) + children@.take(i + 1));
                }
            }
            i += 1;
        }
        proof {
            assert(children@.skip(children.len() as int) =~= Seq::<NodeId>::empty());
            assert(children@.take(children.len() as int) =~= children@);
            if old_parent == new_parent {
                assert(children@.skip(0) =~= children@);
                assert(children@.take(0) =~= Seq::<NodeId>::empty());
            }
        }
    }
}


/// A node with no parent.
pub open spec fn is_top(m: Map<NodeId, NodeData>, k: NodeId) -> bool {
    m.dom().contains(k) && m[k].parent is None
}

/// A top-level element.
pub open spec fn is_top_element(m: Map<NodeId, NodeData>, k: NodeId) -> bool {
    is_top(m, k) && m[k].kind is Element
}

/// A top-level `<html>` element.
pub open spec fn is_top_html(m: Map<NodeId, NodeData>, k: NodeId) -> bool {
    is_top_element(m, k) && m[k].kind->Element_tag@ == "html"@
}

/// Picks the root of a freshly parsed document: the first top-level
/// `<html>` element, or else the first top-level element (for input that
/// has none). Fails when there is no top-level element at all.
pub fn finalize(document: Document) -> (r: Result<Document, LayoutError>)
    requires
        document.wf(),
    ensures
        match r {
            Ok(d) => {
                &&& d.wf()
                &&& d.nodes() == document.nodes()
                &&& (exists|k: NodeId| is_top_html(document.nodes(), k)) ==> {
                    &&& is_top_html(document.nodes(), d.root_id())
                    &&& forall|j: NodeId| j < d.root_id() ==> !is_top_html(document.nodes(), j)
                }
                &&& !(exists|k: NodeId| is_top_html(document.nodes(), k)) ==> {
                    &&& is_top_element(document.nodes(), d.root_id())
                    &&& forall|j: NodeId| j < d.root_id() ==> !is_top_element(document.nodes(), j)
                }
            },
            Err(e) => {
                &&& forall|k: NodeId| !is_top_element(document.nodes(), k)
                &&& e matches LayoutError::HtmlParse(msg) && msg@ == "no root element found"@
            },
        },
{
    let mut document = document;
    let ghost m = document.nodes();
    let keys = document.ids();
    let mut html: Option<NodeId> = None;
    let mut first_el: Option<NodeId> = None;
    let mut i: usize = 0;
    while i < keys.len()
        invariant
            document.wf(),
            m == document.nodes(),
            forall|k: NodeId| m.dom().contains(k) <==> keys@.contains(k),
            forall|a: int, b: int| 0 <= a < b < keys@.len() ==> keys@[a] < keys@[b],
            i <= keys.len(),
            match html {
                Some(h) => is_top_html(m, h) && forall|j: NodeId| j < h ==> !is_top_html(m, j),
                None => forall|a: int| 0 <= a < i ==> !is_top_html(m, #[trigger] keys@[a]),
            },
            match first_el {
                Some(f) => is_top_element(m, f) && forall|j: NodeId| j < f ==> !is_top_element(m, j),
                None => forall|a: int| 0 <= a < i ==> !is_top_element(m, #[trigger] keys@[a]),
            },
        decreases keys.len() - i,
    {
        let k = keys[i];
        let (top_el, top_html) = match document.get(k) {
            Some(n) => if n.parent.is_none() {
                match &n.kind {
                    NodeKind::Element { tag, .. } => (true, str_eq(tag.as_str(), "html")),
                    _ => (false, false),
                }
            } else {
                (false, false)
            },
            None => (false, false),
        };
        proof {
            assert(keys@.contains(k));
            assert(top_el == is_top_element(m, k));
            assert(top_html == is_top_html(m, k));
        }
        if top_html && html.is_none() {
            proof {
                assert forall|j: NodeId| j < k implies !is_top_html(m, j) by {
                    if is_top_html(m, j) {
                        assert(keys@.contains(j));
                        let a = choose|a: int| 0 <= a < keys@.len() && keys@[a] == j;
                        if a >= i {
                            assert(keys@[i as int] < keys@[a] || a == i);
                        }
                    }
                }
            }
            html = Some(k);
        }
        if top_el && first_el.is_none() {
            proof {
                assert forall|j: NodeId| j < k implies !is_top_element(m, j) by {
                    if is_top_element(m, j) {
                        assert(keys@.contains(j));
                        let a = choose|a: int| 0 <= a < keys@.len() && keys@[a] == j;
                        if a >= i {
                            assert(keys@[i as int] < keys@[a] || a == i);
                        }
                    }
                }
            }
            first_el = Some(k);
        }
        i += 1;
    }
    proof {
        if html is None {
            assert forall|k: NodeId| !is_top_html(m, k) by {
                if is_top_html(m, k) {
                    assert(keys@.contains(k));
                    let a = choose|a: int| 0 <= a < keys@.len() && keys@[a] == k;
                }
            }
        }
        if first_el is None {
            assert forall|k: NodeId| !is_top_element(m, k) by {
                if is_top_element(m, k) {
                    assert(keys@.contains(k));
                    let a = choose|a: int| 0 <= a < keys@.len() && keys@[a] == k;
                }
            }
        }
    }
    let chosen = match html {
        Some(h) => Some(h),
        None => first_el,
    };
    match chosen {
        Some(root) => {
            document.set_root(root);
            Ok(document)
        },
        None => Err(LayoutError::HtmlParse(copy_str("no root element found"))),
    }
}

} // verus!
