//! Document-order walks of the tree: the pre-order listing of a subtree,
//! the text it holds, and the `<style>` sheets embedded in a document.
//!
//! A walk follows child links at most as many levels deep as the document
//! has nodes; a tree (whose depth is below its size) is walked completely.

use vstd::prelude::*;
use vstd::string::*;

use crate::dom::{Document, NodeData, NodeId, NodeKind, tree_ok};
use crate::text::{eq_ignore_ascii_case, eq_ignore_ascii_case_spec, trim, trim_spec};

verus! {

/// Pre-order listing of the subtree at `id`, to `fuel` levels: `id`, then
/// the listing of each child in order. An id with no node is listed alone.
pub open spec fn preorder(m: Map<NodeId, NodeData>, id: NodeId, fuel: nat) -> Seq<NodeId>
    decreases fuel, 0nat,
{
    if fuel == 0 {
        Seq::empty()
    } else if m.dom().contains(id) {
        seq![id] + preorder_list(m, m[id].children@, (fuel - 1) as nat)
    } else {
        seq![id]
    }
}

/// The pre-order listings of the subtrees at `ids`, one after another.
pub open spec fn preorder_list(m: Map<NodeId, NodeData>, ids: Seq<NodeId>, fuel: nat) -> Seq<NodeId>
    decreases fuel, ids.len(),
{
    if ids.len() == 0 {
        Seq::empty()
    } else {
        preorder(m, ids[0], fuel) + preorder_list(m, ids.drop_first(), fuel)
    }
}

/// The levels a walk of `m` follows.
pub open spec fn walk_depth(m: Map<NodeId, NodeData>) -> nat {
    m.dom().len() + 1
}

/// The document's nodes in pre-order from the root.
pub open spec fn document_order(d: Document) -> Seq<NodeId> {
    preorder(d.nodes(), d.root_id(), walk_depth(d.nodes()))
}

/// Listings of a stack of pending subtrees, top (last) first.
pub open spec fn stack_seq(m: Map<NodeId, NodeData>, st: Seq<(NodeId, nat)>) -> Seq<NodeId>
    decreases st.len(),
{
    if st.len() == 0 {
        Seq::empty()
    } else {
        preorder(m, st.last().0, st.last().1) + stack_seq(m, st.drop_last())
    }
}

proof fn lemma_preorder_list_zero(m: Map<NodeId, NodeData>, ids: Seq<NodeId>)
    ensures
        preorder_list(m, ids, 0) == Seq::<NodeId>::empty(),
    decreases ids.len(),
{
    if ids.len() > 0 {
        lemma_preorder_list_zero(m, ids.drop_first());
        assert(preorder(m, ids[0], 0) == Seq::<NodeId>::empty());
        assert(preorder_list(m, ids, 0) =~= Seq::<NodeId>::empty());
    }
}

proof fn lemma_preorder_list_skip(m: Map<NodeId, NodeData>, ids: Seq<NodeId>, j: int, fuel: nat)
    requires
        0 <= j < ids.len(),
    ensures
        preorder_list(m, ids.skip(j), fuel) == preorder(m, ids[j], fuel) + preorder_list(m, ids.skip(j + 1), fuel),
{
    let s = ids.skip(j);
    assert(s[0] == ids[j]);
    assert(s.drop_first() =~= ids.skip(j + 1));
}

/// Pre-order listing of the subtree at `id`, to `fuel` levels.
pub fn subtree_order(d: &Document, id: NodeId, fuel: u128) -> (order: Vec<NodeId>)
    requires
        d.wf(),
    ensures
        order@ == preorder(d.nodes(), id, fuel as nat),
{
    let ghost m = d.nodes();
    let mut order: Vec<NodeId> = Vec::new();
    let mut stack: Vec<(NodeId, u128)> = Vec::new();
    if fuel == 0 {
        return order;
    }
    stack.push((id, fuel));
    proof {
        let st = stack@.map_values(|e: (NodeId, u128)| (e.0, e.1 as nat));
        assert(st.drop_last() =~= Seq::<(NodeId, nat)>::empty());
        assert(st.last() == (id, fuel as nat));
        assert(stack_seq(m, st.drop_last()) == Seq::<NodeId>::empty());
        assert(stack_seq(m, st) =~= preorder(m, id, fuel as nat));
    }
    while stack.len() > 0
        invariant
            d.wf(),
            m == d.nodes(),
            forall|k: int| 0 <= k < stack@.len() ==> (#[trigger] stack@[k]).1 >= 1,
            order@ + stack_seq(m, stack@.map_values(|e: (NodeId, u128)| (e.0, e.1 as nat))) == preorder(
                m,
                id,
                fuel as nat,
            ),
        decreases stack_seq(m, stack@.map_values(|e: (NodeId, u128)| (e.0, e.1 as nat))).len(),
    {
        let ghost st0 = stack@.map_values(|e: (NodeId, u128)| (e.0, e.1 as nat));
        let ghost rest0 = stack_seq(m, st0);
        let top = stack.pop().unwrap();
        let (cur, f) = top;
        let ghost base = stack@.map_values(|e: (NodeId, u128)| (e.0, e.1 as nat));
        proof {
            assert(st0.drop_last() =~= base);
            assert(st0.last() == (cur, f as nat));
        }
        order.push(cur);
        match d.get(cur) {
            Some(node) => {
                if f > 1 {
                    let n = node.children.len();
                    let mut j: usize = n;
                    while j > 0
                        invariant
                            d.wf(),
                            m == d.nodes(),
                            m.dom().contains(cur),
                            *node == m[cur],
                            n == node.children.len(),
                            j <= n,
                            f > 1,
                            forall|k: int| 0 <= k < stack@.len() ==> (#[trigger] stack@[k]).1 >= 1,
                            stack_seq(m, stack@.map_values(|e: (NodeId, u128)| (e.0, e.1 as nat)))
                                == preorder_list(m, node.children@.skip(j as int), (f - 1) as nat)
                                + stack_seq(m, base),
                        decreases j,
                    {
                        let ghost before = stack@.map_values(|e: (NodeId, u128)| (e.0, e.1 as nat));
                        j -= 1;
                        stack.push((node.children[j], f - 1));
                        proof {
                            let after = stack@.map_values(|e: (NodeId, u128)| (e.0, e.1 as nat));
                            assert(after.drop_last() =~= before);
                            lemma_preorder_list_skip(m, node.children@, j as int, (f - 1) as nat);
                        }
                    }
                    proof {
                        assert(node.children@.skip(0) =~= node.children@);
                        assert(preorder(m, cur, f as nat) == seq![cur] + preorder_list(
                            m,
                            m[cur].children@,
                            (f - 1) as nat,
                        ));
                        assert((order@ + stack_seq(m, stack@.map_values(|e: (NodeId, u128)| (e.0, e.1 as nat))))
                            =~= (order@.drop_last() + rest0));
                    }
                } else {
                    proof {
                        lemma_preorder_list_zero(m, m[cur].children@);
                        assert(preorder(m, cur, f as nat) =~= seq![cur]);
                        assert((order@ + stack_seq(m, base)) =~= (order@.drop_last() + rest0));
                    }
                }
            },
            None => {
                proof {
                    assert((order@ + stack_seq(m, base)) =~= (order@.drop_last() + rest0));
                }
            },
        }
    }
    proof {
        assert(stack@.map_values(|e: (NodeId, u128)| (e.0, e.1 as nat)) =~= Seq::<(NodeId, nat)>::empty());
        assert(order@ + Seq::<NodeId>::empty() =~= order@);
    }
    order
}

/// The document's nodes in pre-order from the root, each parent before its
/// children (the order in which the cascade visits them).
pub fn topological_order(d: &Document) -> (order: Vec<NodeId>)
    requires
        d.wf(),
    ensures
        order@ == document_order(*d),
{
    let n = d.len();
    subtree_order(d, d.root_id(), n as u128 + 1)
}

/// The text content of the nodes `ids` (non-text nodes contribute nothing),
/// concatenated.
pub open spec fn texts_of(m: Map<NodeId, NodeData>, ids: Seq<NodeId>) -> Seq<char>
    decreases ids.len(),
{
    if ids.len() == 0 {
        Seq::empty()
    } else {
        texts_of(m, ids.drop_last()) + match m[ids.last()].kind {
            NodeKind::Text(s) => if m.dom().contains(ids.last()) {
                s@
            } else {
                Seq::empty()
            },
            _ => Seq::empty(),
        }
    }
}

/// The text held in the subtree at `id`, in document order.
pub fn collect_text(d: &Document, id: NodeId) -> (s: String)
    requires
        d.wf(),
    ensures
        s@ == texts_of(d.nodes(), preorder(d.nodes(), id, walk_depth(d.nodes()))),
{
    let order = subtree_order(d, id, d.len() as u128 + 1);
    let mut out = String::new();
    let mut i: usize = 0;
    while i < order.len()
        invariant
            d.wf(),
            i <= order.len(),
            out@ == texts_of(d.nodes(), order@.take(i as int)),
        decreases order.len() - i,
    {
        proof {
            assert(order@.take(i + 1).drop_last() =~= order@.take(i as int));
        }
        match d.get(order[i]) {
            Some(node) => match &node.kind {
                NodeKind::Text(s) => {
                    out.append(s.as_str());
                },
                _ => {},
            },
            None => {},
        }
        i += 1;
    }
    proof {
        assert(order@.take(order.len() as int) =~= order@);
    }
    out
}

/// Whether node `id` is an element whose tag is `style` (any ASCII case).
pub open spec fn is_style_element(m: Map<NodeId, NodeData>, id: NodeId) -> bool {
    &&& m.dom().contains(id)
    &&& m[id].kind matches NodeKind::Element { tag, .. } && eq_ignore_ascii_case_spec(tag@, "style"@)
}

/// The texts of the `<style>` elements among `ids` that hold something other
/// than whitespace, in order.
pub open spec fn style_sheets_of(m: Map<NodeId, NodeData>, ids: Seq<NodeId>) -> Seq<Seq<char>>
    decreases ids.len(),
{
    if ids.len() == 0 {
        Seq::empty()
    } else {
        let rest = style_sheets_of(m, ids.drop_last());
        let id = ids.last();
        let text = texts_of(m, preorder(m, id, walk_depth(m)));
        if is_style_element(m, id) && trim_spec(text).len() > 0 {
            rest.push(text)
        } else {
            rest
        }
    }
}

/// The embedded `<style>` sheets of the document, in document order; an
/// empty or whitespace-only sheet is skipped.
pub fn collect_inline_stylesheets(d: &Document, sink: &mut Vec<String>)
    requires
        d.wf(),
    ensures
        final(sink)@.map_values(|s: String| s@) == old(sink)@.map_values(|s: String| s@)
            + style_sheets_of(d.nodes(), document_order(*d)),
{
    let order = topological_order(d);
    let ghost start = sink@.map_values(|s: String| s@);
    let mut i: usize = 0;
    while i < order.len()
        invariant
            d.wf(),
            order@ == document_order(*d),
            i <= order.len(),
            sink@.map_values(|s: String| s@) == start + style_sheets_of(d.nodes(), order@.take(i as int)),
        decreases order.len() - i,
    {
        proof {
            assert(order@.take(i + 1).drop_last() =~= order@.take(i as int));
        }
        let id = order[i];
        let is_style = match d.get(id) {
            Some(node) => match &node.kind {
                NodeKind::Element { tag, .. } => eq_ignore_ascii_case(tag.as_str(), "style"),
                _ => false,
            },
            None => false,
        };
        if is_style {
            let text = collect_text(d, id);
            let trimmed = trim(text.as_str());
            if trimmed.unicode_len() > 0 {
                let ghost before = sink@;
                sink.push(text);
                proof {
                    assert(sink@.map_values(|s: String| s@) =~= before.map_values(|s: String| s@).push(
                        text@,
                    ));
                }
            }
        }
        i += 1;
    }
    proof {
        assert(order@.take(order.len() as int) =~= order@);
    }
}

// ───────────────────────── laws ─────────────────────────

/// Every entry of `s` is a child of `p` or a child of an earlier entry.
pub open spec fn parents_first(m: Map<NodeId, NodeData>, s: Seq<NodeId>, p: NodeId) -> bool {
    forall|k: int|
        0 <= k < s.len() ==> m[#[trigger] s[k]].parent == Some(p) || exists|j: int|
            0 <= j < k && m[s[k]].parent == Some(#[trigger] s[j])
}

proof fn lemma_shift_parents_first(m: Map<NodeId, NodeData>, a: Seq<NodeId>, b: Seq<NodeId>, p: NodeId)
    requires
        parents_first(m, a, p),
        parents_first(m, b, p),
    ensures
        parents_first(m, a + b, p),
{
    let s = a + b;
    assert forall|k: int| 0 <= k < s.len() implies m[#[trigger] s[k]].parent == Some(p) || exists|j: int|
        0 <= j < k && m[s[k]].parent == Some(#[trigger] s[j]) by {
        if k < a.len() {
            assert(s[k] == a[k]);
            if m[a[k]].parent != Some(p) {
                let j = choose|j: int| 0 <= j < k && m[a[k]].parent == Some(#[trigger] a[j]);
                assert(s[j] == a[j]);
            }
        } else {
            assert(s[k] == b[k - a.len()]);
            if m[b[k - a.len()]].parent != Some(p) {
                let j = choose|j: int| 0 <= j < k - a.len() && m[b[k - a.len()]].parent == Some(#[trigger] b[j]);
                assert(s[j + a.len()] == b[j]);
            }
        }
    }
}

proof fn lemma_preorder_parents_first(m: Map<NodeId, NodeData>, id: NodeId, fuel: nat)
    requires
        tree_ok(m),
        m.dom().contains(id),
        fuel > 0,
    ensures
        parents_first(m, preorder(m, id, fuel).drop_first(), id),
    decreases fuel, 0nat,
{
    let kids = m[id].children@;
    assert(preorder(m, id, fuel).drop_first() =~= preorder_list(m, kids, (fuel - 1) as nat));
    assert forall|c: NodeId| kids.contains(c) implies m.dom().contains(c) && m[c].parent == Some(id) by {}
    lemma_list_parents_first(m, kids, (fuel - 1) as nat, id);
}

proof fn lemma_list_parents_first(m: Map<NodeId, NodeData>, ids: Seq<NodeId>, fuel: nat, p: NodeId)
    requires
        tree_ok(m),
        forall|c: NodeId| ids.contains(c) ==> m.dom().contains(c) && m[c].parent == Some(p),
    ensures
        parents_first(m, preorder_list(m, ids, fuel), p),
    decreases fuel, ids.len(),
{
    if ids.len() > 0 {
        let first = ids[0];
        assert(ids.contains(first));
        let rest = ids.drop_first();
        assert forall|c: NodeId| rest.contains(c) implies m.dom().contains(c) && m[c].parent == Some(p) by {
            let k = choose|k: int| 0 <= k < rest.len() && rest[k] == c;
            assert(ids[k + 1] == c);
            assert(ids.contains(c));
        }
        lemma_list_parents_first(m, rest, fuel, p);
        let head = preorder(m, first, fuel);
        if fuel > 0 {
            lemma_preorder_parents_first(m, first, fuel);
            let tail = head.drop_first();
            assert(head =~= seq![first] + tail);
            assert forall|k: int| 0 <= k < head.len() implies m[#[trigger] head[k]].parent == Some(p) || exists|j: int|
                0 <= j < k && m[head[k]].parent == Some(#[trigger] head[j]) by {
                if k > 0 {
                    assert(head[k] == tail[k - 1]);
                    if m[tail[k - 1]].parent != Some(first) {
                        let j = choose|j: int| 0 <= j < k - 1 && m[tail[k - 1]].parent == Some(#[trigger] tail[j]);
                        assert(head[j + 1] == tail[j]);
                    } else {
                        assert(head[0] == first);
                    }
                }
            }
        } else {
            assert(head =~= Seq::<NodeId>::empty());
        }
        lemma_shift_parents_first(m, head, preorder_list(m, rest, fuel), p);
    }
}

/// Entry `k` of `order` has its parent among the entries before it.
pub open spec fn parent_listed_before(m: Map<NodeId, NodeData>, order: Seq<NodeId>, k: int) -> bool {
    exists|j: int| 0 <= j < k && m[order[k]].parent == Some(#[trigger] order[j])
}

/// In document order every node but the root comes after its parent: the
/// cascade, which visits nodes in this order, styles a parent before its
/// children.
pub proof fn law_parent_before_child(d: Document)
    requires
        d.wf(),
        d.nodes().dom().contains(d.root_id()),
    ensures
        forall|k: int| 0 < k < document_order(d).len() ==> #[trigger] parent_listed_before(d.nodes(), document_order(d), k),
{
    let m = d.nodes();
    let order = document_order(d);
    lemma_preorder_parents_first(m, d.root_id(), walk_depth(m));
    let tail = order.drop_first();
    assert forall|k: int| 0 < k < order.len() implies #[trigger] parent_listed_before(m, order, k) by {
        assert(order[k] == tail[k - 1]);
        assert(order[0] == d.root_id());
        if m[tail[k - 1]].parent != Some(d.root_id()) {
            let j = choose|j: int| 0 <= j < k - 1 && m[tail[k - 1]].parent == Some(#[trigger] tail[j]);
            assert(order[j + 1] == tail[j]);
        }
    }
}

// ───────────────────────── paths from the root ─────────────────────────

/// `p` follows child links: every entry is a node, and every entry after
/// the first has the one before it as its parent.
pub open spec fn is_path(m: Map<NodeId, NodeData>, p: Seq<NodeId>) -> bool {
    &&& p.len() > 0
    &&& forall|i: int| 0 <= i < p.len() ==> m.dom().contains(#[trigger] p[i])
    &&& forall|i: int| 1 <= i < p.len() ==> m[#[trigger] p[i]].parent == Some(p[i - 1])
}

/// `p` is a path from `id` to `x`.
pub open spec fn path_from(m: Map<NodeId, NodeData>, p: Seq<NodeId>, id: NodeId, x: NodeId) -> bool {
    is_path(m, p) && p[0] == id && p.last() == x
}

/// Child links lead from `id` to `x`.
pub open spec fn reachable(m: Map<NodeId, NodeData>, id: NodeId, x: NodeId) -> bool {
    exists|p: Seq<NodeId>| #[trigger] path_from(m, p, id, x)
}

/// Walking back from the common last entry, two paths agree step by step.
proof fn lemma_paths_agree_back(m: Map<NodeId, NodeData>, p1: Seq<NodeId>, p2: Seq<NodeId>, k: int)
    requires
        is_path(m, p1),
        is_path(m, p2),
        p1.last() == p2.last(),
        0 <= k < p1.len(),
        k < p2.len(),
    ensures
        p1[p1.len() - 1 - k] == p2[p2.len() - 1 - k],
    decreases k,
{
    if k > 0 {
        lemma_paths_agree_back(m, p1, p2, k - 1);
        let i = p1.len() - k;
        let j = p2.len() - k;
        assert(m[p1[i]].parent == Some(p1[i - 1]));
        assert(m[p2[j]].parent == Some(p2[j - 1]));
    }
}

/// Two paths that start at parentless nodes and end at the same node are
/// the same path.
proof fn lemma_paths_from_top_agree(m: Map<NodeId, NodeData>, p1: Seq<NodeId>, p2: Seq<NodeId>)
    requires
        is_path(m, p1),
        is_path(m, p2),
        p1.last() == p2.last(),
        m[p1[0]].parent is None,
        m[p2[0]].parent is None,
    ensures
        p1 == p2,
{
    if p1.len() < p2.len() {
        lemma_paths_agree_back(m, p1, p2, p1.len() - 1);
        let t = p2.len() - p1.len();
        assert(m[p2[t]].parent == Some(p2[t - 1]));
    } else if p2.len() < p1.len() {
        lemma_paths_agree_back(m, p2, p1, p2.len() - 1);
        let t = p1.len() - p2.len();
        assert(m[p1[t]].parent == Some(p1[t - 1]));
    } else {
        assert forall|i: int| 0 <= i < p1.len() implies p1[i] == p2[i] by {
            lemma_paths_agree_back(m, p1, p2, p1.len() - 1 - i);
        }
        assert(p1 =~= p2);
    }
}

/// A path from a parentless node never repeats a node.
proof fn lemma_path_from_top_distinct(m: Map<NodeId, NodeData>, p: Seq<NodeId>)
    requires
        is_path(m, p),
        m[p[0]].parent is None,
    ensures
        p.no_duplicates(),
{
    assert forall|i: int, j: int| 0 <= i < p.len() && 0 <= j < p.len() && i != j implies p[i] != p[j] by {
        if p[i] == p[j] {
            let a = p.take(i + 1);
            let b = p.take(j + 1);
            assert(is_path(m, a)) by {
                assert forall|k: int| 1 <= k < a.len() implies m[#[trigger] a[k]].parent == Some(a[k - 1]) by {
                    assert(a[k] == p[k] && a[k - 1] == p[k - 1]);
                }
            }
            assert(is_path(m, b)) by {
                assert forall|k: int| 1 <= k < b.len() implies m[#[trigger] b[k]].parent == Some(b[k - 1]) by {
                    assert(b[k] == p[k] && b[k - 1] == p[k - 1]);
                }
            }
            lemma_paths_from_top_agree(m, a, b);
            assert(a.len() == b.len());
        }
    }
}

/// Appending a path that starts at a child of `p`'s last node.
proof fn lemma_path_concat(m: Map<NodeId, NodeData>, p: Seq<NodeId>, q: Seq<NodeId>)
    requires
        is_path(m, p),
        is_path(m, q),
        m[q[0]].parent == Some(p.last()),
    ensures
        is_path(m, p + q),
        (p + q)[0] == p[0],
        (p + q).last() == q.last(),
{
    let pq = p + q;
    assert forall|i: int| 0 <= i < pq.len() implies m.dom().contains(#[trigger] pq[i]) by {
        if i >= p.len() {
            assert(pq[i] == q[i - p.len()]);
        }
    }
    assert forall|i: int| 1 <= i < pq.len() implies m[#[trigger] pq[i]].parent == Some(pq[i - 1]) by {
        if i > p.len() {
            assert(pq[i] == q[i - p.len()] && pq[i - 1] == q[i - 1 - p.len()]);
        } else if i == p.len() {
            assert(pq[i] == q[0] && pq[i - 1] == p.last());
        }
    }
}

/// Every entry of the listing of `id`'s subtree is reached from `id`.
proof fn lemma_listed_reachable(m: Map<NodeId, NodeData>, id: NodeId, fuel: nat, x: NodeId)
    requires
        tree_ok(m),
        m.dom().contains(id),
        preorder(m, id, fuel).contains(x),
    ensures
        exists|p: Seq<NodeId>| #[trigger] path_from(m, p, id, x),
    decreases fuel, 0nat, 0nat,
{
    if fuel > 0 {
        let kids = m[id].children@;
        let l = preorder_list(m, kids, (fuel - 1) as nat);
        assert(preorder(m, id, fuel) == seq![id] + l);
        if x == id {
            assert(path_from(m, seq![id], id, x));
        } else {
            assert(l.contains(x)) by {
                let k = choose|k: int| 0 <= k < preorder(m, id, fuel).len() && preorder(m, id, fuel)[k] == x;
                assert(k > 0);
                assert(l[k - 1] == x);
            }
            assert forall|j: int| 0 <= j < kids.len() implies m.dom().contains(#[trigger] kids[j]) by {
                assert(m[id].children@.contains(kids[j]));
            }
            lemma_list_reachable(m, kids, (fuel - 1) as nat, x);
            let (j, q) = choose|j: int, q: Seq<NodeId>| 0 <= j < kids.len() && #[trigger] path_from(m, q, kids[j], x);
            assert(m[id].children@.contains(kids[j]));
            lemma_path_concat(m, seq![id], q);
            assert(path_from(m, seq![id] + q, id, x));
        }
    }
}

/// Every entry of the listings of the subtrees at `ids` is reached from one
/// of `ids`.
proof fn lemma_list_reachable(m: Map<NodeId, NodeData>, ids: Seq<NodeId>, fuel: nat, x: NodeId)
    requires
        tree_ok(m),
        forall|j: int| 0 <= j < ids.len() ==> m.dom().contains(#[trigger] ids[j]),
        preorder_list(m, ids, fuel).contains(x),
    ensures
        exists|j: int, q: Seq<NodeId>| 0 <= j < ids.len() && #[trigger] path_from(m, q, ids[j], x),
    decreases fuel, 1nat, ids.len(),
{
    if ids.len() > 0 {
        let a = preorder(m, ids[0], fuel);
        let b = preorder_list(m, ids.drop_first(), fuel);
        assert(preorder_list(m, ids, fuel) == a + b);
        let k = choose|k: int| 0 <= k < (a + b).len() && (a + b)[k] == x;
        if k < a.len() {
            assert(a[k] == x);
            lemma_listed_reachable(m, ids[0], fuel, x);
            let q = choose|q: Seq<NodeId>| #[trigger] path_from(m, q, ids[0], x);
            assert(path_from(m, q, ids[0], x));
        } else {
            assert(b[k - a.len()] == x);
            let rest = ids.drop_first();
            assert forall|j: int| 0 <= j < rest.len() implies m.dom().contains(#[trigger] rest[j]) by {
                assert(rest[j] == ids[j + 1]);
            }
            lemma_list_reachable(m, rest, fuel, x);
            let (j, q) = choose|j: int, q: Seq<NodeId>| 0 <= j < rest.len() && #[trigger] path_from(m, q, rest[j], x);
            assert(rest[j] == ids[j + 1]);
            assert(path_from(m, q, ids[j + 1], x));
        }
    }
}

/// The listing of a subtree whose root is reached from a parentless node
/// repeats no node.
proof fn lemma_preorder_unique(m: Map<NodeId, NodeData>, r: Seq<NodeId>, fuel: nat)
    requires
        tree_ok(m),
        is_path(m, r),
        m[r[0]].parent is None,
    ensures
        preorder(m, r.last(), fuel).no_duplicates(),
    decreases fuel, 0nat, 0nat,
{
    let id = r.last();
    assert(m.dom().contains(r[r.len() - 1]));
    if fuel > 0 {
        let kids = m[id].children@;
        let l = preorder_list(m, kids, (fuel - 1) as nat);
        assert(preorder(m, id, fuel) == seq![id] + l);
        lemma_preorder_list_unique(m, r, kids, (fuel - 1) as nat);
        assert(!l.contains(id)) by {
            if l.contains(id) {
                assert forall|j: int| 0 <= j < kids.len() implies m.dom().contains(#[trigger] kids[j]) by {
                    assert(m[id].children@.contains(kids[j]));
                }
                lemma_list_reachable(m, kids, (fuel - 1) as nat, id);
                let (j, q) = choose|j: int, q: Seq<NodeId>| 0 <= j < kids.len() && #[trigger] path_from(m, q, kids[j], id);
                assert(m[id].children@.contains(kids[j]));
                lemma_path_concat(m, r, q);
                lemma_path_from_top_distinct(m, r + q);
                let rq = r + q;
                assert(rq[r.len() - 1] == id);
                assert(rq[rq.len() - 1] == id);
            }
        }
        let all = seq![id] + l;
        assert forall|i: int, j: int| 0 <= i < all.len() && 0 <= j < all.len() && i != j implies all[i] != all[j] by {
            if i > 0 && j > 0 {
                assert(all[i] == l[i - 1] && all[j] == l[j - 1]);
            } else if i == 0 {
                assert(all[j] == l[j - 1]);
            } else {
                assert(all[i] == l[i - 1]);
            }
        }
    }
}

/// The listings of the subtrees at distinct children of a node reached
/// from a parentless node repeat no node.
proof fn lemma_preorder_list_unique(m: Map<NodeId, NodeData>, r: Seq<NodeId>, ids: Seq<NodeId>, fuel: nat)
    requires
        tree_ok(m),
        is_path(m, r),
        m[r[0]].parent is None,
        ids.no_duplicates(),
        forall|j: int| 0 <= j < ids.len() ==> m[r.last()].children@.contains(#[trigger] ids[j]),
    ensures
        preorder_list(m, ids, fuel).no_duplicates(),
    decreases fuel, 1nat, ids.len(),
{
    if ids.len() > 0 {
        let id = r.last();
        assert(m.dom().contains(r[r.len() - 1]));
        let rest = ids.drop_first();
        let a = preorder(m, ids[0], fuel);
        let b = preorder_list(m, rest, fuel);
        assert(preorder_list(m, ids, fuel) == a + b);
        assert(m[id].children@.contains(ids[0]));
        let r0 = r.push(ids[0]);
        lemma_path_concat(m, r, seq![ids[0]]);
        assert(r + seq![ids[0]] =~= r0);
        lemma_preorder_unique(m, r0, fuel);
        assert(r0.last() == ids[0]);
        assert(rest.no_duplicates()) by {
            assert forall|i: int, j: int| 0 <= i < rest.len() && 0 <= j < rest.len() && i != j implies rest[i] != rest[j] by {
                assert(rest[i] == ids[i + 1] && rest[j] == ids[j + 1]);
            }
        }
        assert forall|j: int| 0 <= j < rest.len() implies m[r.last()].children@.contains(#[trigger] rest[j]) by {
            assert(rest[j] == ids[j + 1]);
        }
        lemma_preorder_list_unique(m, r, rest, fuel);
        assert forall|x: NodeId| a.contains(x) implies !b.contains(x) by {
            if b.contains(x) {
                lemma_listed_reachable(m, ids[0], fuel, x);
                let q1 = choose|q: Seq<NodeId>| #[trigger] path_from(m, q, ids[0], x);
                assert forall|j: int| 0 <= j < rest.len() implies m.dom().contains(#[trigger] rest[j]) by {
                    assert(rest[j] == ids[j + 1]);
                    assert(m[id].children@.contains(ids[j + 1]));
                }
                lemma_list_reachable(m, rest, fuel, x);
                let (j, q2) = choose|j: int, q: Seq<NodeId>| 0 <= j < rest.len() && #[trigger] path_from(m, q, rest[j], x);
                assert(rest[j] == ids[j + 1]);
                assert(m[id].children@.contains(ids[j + 1]));
                lemma_path_concat(m, r, q1);
                lemma_path_concat(m, r, q2);
                lemma_paths_from_top_agree(m, r + q1, r + q2);
                assert((r + q1)[r.len() as int] == q1[0]);
                assert((r + q2)[r.len() as int] == q2[0]);
                assert(ids[0] != ids[j + 1]);
            }
        }
        let all = a + b;
        assert forall|i: int, j: int| 0 <= i < all.len() && 0 <= j < all.len() && i != j implies all[i] != all[j] by {
            if i < a.len() && j < a.len() {
            } else if i >= a.len() && j >= a.len() {
                assert(all[i] == b[i - a.len()] && all[j] == b[j - a.len()]);
            } else if i < a.len() {
                assert(all[i] == a[i] && all[j] == b[j - a.len()]);
                assert(a.contains(a[i]));
            } else {
                assert(all[j] == a[j] && all[i] == b[i - a.len()]);
                assert(a.contains(a[j]));
            }
        }
    }
}

/// A path from a parentless node is no longer than the document.
pub proof fn lemma_path_fits(m: Map<NodeId, NodeData>, p: Seq<NodeId>)
    requires
        tree_ok(m),
        is_path(m, p),
        m[p[0]].parent is None,
    ensures
        p.len() < walk_depth(m),
{
    lemma_path_from_top_distinct(m, p);
    p.unique_seq_to_set();
    assert(p.to_set().subset_of(m.dom())) by {
        assert forall|x: NodeId| p.to_set().contains(x) implies m.dom().contains(x) by {
            let i = choose|i: int| 0 <= i < p.len() && p[i] == x;
        }
    }
    vstd::set_lib::lemma_len_subset(p.to_set(), m.dom());
}

/// A path's last node is listed in the listing of the subtree at its
/// first node, given as many levels as the path has nodes.
proof fn lemma_path_listed(m: Map<NodeId, NodeData>, p: Seq<NodeId>, fuel: nat)
    requires
        tree_ok(m),
        is_path(m, p),
        p.len() <= fuel,
    ensures
        preorder(m, p[0], fuel).contains(p.last()),
    decreases p.len(),
{
    let id = p[0];
    assert(m.dom().contains(p[0]));
    let kids = m[id].children@;
    let l = preorder_list(m, kids, (fuel - 1) as nat);
    assert(preorder(m, id, fuel) == seq![id] + l);
    if p.len() == 1 {
        assert((seq![id] + l)[0] == id);
    } else {
        let q = p.drop_first();
        assert(is_path(m, q)) by {
            assert forall|i: int| 1 <= i < q.len() implies m[#[trigger] q[i]].parent == Some(q[i - 1]) by {
                assert(q[i] == p[i + 1] && q[i - 1] == p[i]);
            }
        }
        lemma_path_listed(m, q, (fuel - 1) as nat);
        assert(m[p[1]].parent == Some(p[0]));
        assert(kids.contains(p[1]));
        let j = choose|j: int| 0 <= j < kids.len() && kids[j] == p[1];
        let y = q.last();
        assert(y == p.last());
        lemma_list_contains(m, kids, (fuel - 1) as nat, j, y);
        let k = choose|k: int| 0 <= k < l.len() && l[k] == y;
        assert((seq![id] + l)[k + 1] == y);
    }
}

/// The listings of the subtrees at `ids` include the listing of each.
proof fn lemma_list_contains(m: Map<NodeId, NodeData>, ids: Seq<NodeId>, fuel: nat, j: int, x: NodeId)
    requires
        0 <= j < ids.len(),
        preorder(m, ids[j], fuel).contains(x),
    ensures
        preorder_list(m, ids, fuel).contains(x),
    decreases ids.len(),
{
    let a = preorder(m, ids[0], fuel);
    let b = preorder_list(m, ids.drop_first(), fuel);
    assert(preorder_list(m, ids, fuel) == a + b);
    if j == 0 {
        let k = choose|k: int| 0 <= k < a.len() && a[k] == x;
        assert((a + b)[k] == x);
    } else {
        assert(ids.drop_first()[j - 1] == ids[j]);
        lemma_list_contains(m, ids.drop_first(), fuel, j - 1, x);
        let k = choose|k: int| 0 <= k < b.len() && b[k] == x;
        assert((a + b)[a.len() + k] == x);
    }
}

/// Document order lists every node that child links lead to from the
/// (parentless) root, and lists each once: the cascade styles every element
/// of the tree exactly once.
pub proof fn law_document_order_lists_tree_once(d: Document, x: NodeId)
    requires
        d.wf(),
        d.nodes().dom().contains(d.root_id()),
        d.nodes()[d.root_id()].parent is None,
    ensures
        document_order(d).no_duplicates(),
        reachable(d.nodes(), d.root_id(), x) ==> document_order(d).contains(x),
{
    let m = d.nodes();
    let r = seq![d.root_id()];
    assert(is_path(m, r));
    lemma_preorder_unique(m, r, walk_depth(m));
    assert(r.last() == d.root_id());
    if reachable(m, d.root_id(), x) {
        let p = choose|p: Seq<NodeId>| #[trigger] path_from(m, p, d.root_id(), x);
        lemma_path_fits(m, p);
        lemma_path_listed(m, p, walk_depth(m));
    }
}

} // verus!
