//! The mathematical model of the link structure: well-formedness, ancestry,
//! and the traversal order that the iterators follow.
use vstd::prelude::*;

use crate::tree::{Links, NodeId};

verus! {

/// The links of node `i` agree with the rest of the store.
pub open spec fn links_ok(s: Seq<Links>, i: int) -> bool {
    let l = s[i];
    &&& (l.parent matches Some(p) ==> p.0 < i)
    &&& (l.last_child matches Some(c) ==> c.0 < s.len() && s[c.0 as int].parent == Some(
        NodeId(i as usize),
    ))
    &&& (l.prev_sibling matches Some(q) ==> q.0 < i && l.parent is Some && s[q.0 as int].parent
        == l.parent)
    &&& (l.parent matches Some(p) ==> (s[p.0 as int].last_child matches Some(c) && in_chain(
        s,
        c,
        NodeId(i as usize),
    )))
}

/// A well-formed store: a parent precedes its children and a previous sibling
/// precedes the node (so the links are acyclic), siblings share their parent
/// (a root has none),
/// and every child lies on its parent's backward sibling chain.
pub open spec fn wf(s: Seq<Links>) -> bool {
    forall|i: int| 0 <= i < s.len() ==> #[trigger] links_ok(s, i)
}

/// `y` is reached from `c` by following previous-sibling links.
pub open spec fn in_chain(s: Seq<Links>, c: NodeId, y: NodeId) -> bool
    decreases c.0,
{
    c == y || match s[c.0 as int].prev_sibling {
        Some(q) => q.0 < c.0 && in_chain(s, q, y),
        None => false,
    }
}

/// `a` is `y` itself or one of its ancestors.
pub open spec fn descends(s: Seq<Links>, y: NodeId, a: NodeId) -> bool
    decreases y.0,
{
    y == a || match s[y.0 as int].parent {
        Some(p) => p.0 < y.0 && descends(s, p, a),
        None => false,
    }
}

/// The nodes of the subtree rooted at `x`.
pub open spec fn subtree(s: Seq<Links>, x: NodeId) -> Set<NodeId> {
    Set::new(|y: NodeId| y.0 < s.len() && descends(s, y, x))
}

/// The node reached from `x` by following last-child links to the end.
pub open spec fn deepest(s: Seq<Links>, x: NodeId) -> NodeId
    decreases s.len() - x.0,
    when wf(s) && x.0 < s.len()
{
    match s[x.0 as int].last_child {
        Some(c) => {
            proof {
                assert(links_ok(s, x.0 as int));
                assert(links_ok(s, c.0 as int));
            }
            deepest(s, c)
        },
        None => x,
    }
}

/// Where the cursor goes after yielding `y`, when `y` is not the start:
/// the deepest node under the previous sibling, else the parent.
pub open spec fn step(s: Seq<Links>, y: NodeId) -> Option<NodeId> {
    match s[y.0 as int].prev_sibling {
        Some(q) => Some(deepest(s, q)),
        None => s[y.0 as int].parent,
    }
}

/// Index of a node's parent, or -1 for a root.
pub open spec fn parent_rank(s: Seq<Links>, c: NodeId) -> int {
    match s[c.0 as int].parent {
        Some(p) => p.0 as int,
        None => -1,
    }
}

/// Traversal order of the subtree of `x`: the children's subtrees from the
/// last child back to the first, then `x` itself.
pub open spec fn subtree_order(s: Seq<Links>, x: NodeId) -> Seq<NodeId>
    decreases s.len() - x.0, s.len() + 1,
    when wf(s) && x.0 < s.len()
{
    match s[x.0 as int].last_child {
        Some(c) => {
            proof {
                assert(links_ok(s, x.0 as int));
            }
            sibling_order(s, c).push(x)
        },
        None => seq![x],
    }
}

/// Traversal order of the subtrees of `c` and of each of its previous siblings,
/// from `c` backwards.
pub open spec fn sibling_order(s: Seq<Links>, c: NodeId) -> Seq<NodeId>
    decreases s.len() - parent_rank(s, c), c.0 + 1,
    when wf(s) && c.0 < s.len()
{
    proof {
        assert(links_ok(s, c.0 as int));
    }
    match s[c.0 as int].prev_sibling {
        Some(q) => subtree_order(s, c) + sibling_order(s, q),
        None => subtree_order(s, c),
    }
}

/// The ancestor of `y` (or `y` itself) whose parent is `p`.
pub open spec fn child_toward(s: Seq<Links>, y: NodeId, p: NodeId) -> NodeId
    decreases y.0,
{
    match s[y.0 as int].parent {
        Some(q) => if q == p || q.0 >= y.0 {
            y
        } else {
            child_toward(s, q, p)
        },
        None => y,
    }
}

proof fn lemma_descends_index(s: Seq<Links>, y: NodeId, a: NodeId)
    requires
        descends(s, y, a),
    ensures
        a.0 <= y.0,
    decreases y.0,
{
    if y != a {
        let p = s[y.0 as int].parent->Some_0;
        lemma_descends_index(s, p, a);
    }
}

proof fn lemma_descends_trans(s: Seq<Links>, y: NodeId, b: NodeId, a: NodeId)
    requires
        descends(s, y, b),
        descends(s, b, a),
    ensures
        descends(s, y, a),
    decreases y.0,
{
    if y != b {
        let p = s[y.0 as int].parent->Some_0;
        lemma_descends_trans(s, p, b, a);
    }
}

proof fn lemma_child_toward(s: Seq<Links>, y: NodeId, c: NodeId, p: NodeId)
    requires
        wf(s),
        y.0 < s.len(),
        c.0 < s.len(),
        descends(s, y, c),
        s[c.0 as int].parent == Some(p),
    ensures
        child_toward(s, y, p) == c,
    decreases y.0,
{
    assert(links_ok(s, c.0 as int));
    if y != c {
        let q = s[y.0 as int].parent->Some_0;
        if q == p {
            lemma_descends_index(s, q, c);
        } else {
            lemma_child_toward(s, q, c, p);
        }
    }
}

proof fn lemma_subtree_order(s: Seq<Links>, x: NodeId)
    requires
        wf(s),
        x.0 < s.len(),
    ensures
        subtree_order(s, x).len() >= 1,
        subtree_order(s, x)[0] == deepest(s, x),
        subtree_order(s, x).last() == x,
        forall|i: int|
            0 <= i < subtree_order(s, x).len() - 1 ==> step(s, #[trigger] subtree_order(s, x)[i])
                == Some(subtree_order(s, x)[i + 1]) && subtree_order(s, x)[i] != x,
        forall|i: int|
            0 <= i < subtree_order(s, x).len() ==> (#[trigger] subtree_order(s, x)[i]).0 < s.len()
                && descends(s, subtree_order(s, x)[i], x),
        subtree_order(s, x).no_duplicates(),
    decreases s.len() - x.0, s.len() + 1,
{
    assert(links_ok(s, x.0 as int));
    let o = subtree_order(s, x);
    match s[x.0 as int].last_child {
        Some(c) => {
            assert(links_ok(s, c.0 as int));
            lemma_sibling_order(s, c);
            let so = sibling_order(s, c);
            assert(o == so.push(x));
            assert(so.push(x) =~= so + seq![x]);
            vstd::seq_lib::lemma_no_dup_in_concat(so, seq![x]);
            assert(descends(s, x, x));
        },
        None => {
            assert(descends(s, x, x));
        },
    }
}

proof fn lemma_sibling_order(s: Seq<Links>, c: NodeId)
    requires
        wf(s),
        c.0 < s.len(),
    ensures
        sibling_order(s, c).len() >= 1,
        sibling_order(s, c)[0] == deepest(s, c),
        step(s, sibling_order(s, c).last()) == s[c.0 as int].parent,
        forall|i: int|
            0 <= i < sibling_order(s, c).len() - 1 ==> step(s, #[trigger] sibling_order(s, c)[i])
                == Some(sibling_order(s, c)[i + 1]),
        forall|i: int|
            0 <= i < sibling_order(s, c).len() ==> (#[trigger] sibling_order(s, c)[i]).0 < s.len(),
        forall|i: int|
            #![trigger sibling_order(s, c)[i]]
            0 <= i < sibling_order(s, c).len() ==> (s[c.0 as int].parent matches Some(p) ==> (
            descends(s, sibling_order(s, c)[i], p) && sibling_order(s, c)[i] != p && child_toward(
                s,
                sibling_order(s, c)[i],
                p,
            ).0 <= c.0)),
        sibling_order(s, c).no_duplicates(),
    decreases s.len() - parent_rank(s, c), c.0 + 1,
{
    assert(links_ok(s, c.0 as int));
    lemma_subtree_order(s, c);
    let so = subtree_order(s, c);
    let o = sibling_order(s, c);
    if let Some(p) = s[c.0 as int].parent {
        assert(descends(s, c, p)) by {
            assert(descends(s, p, p));
        }
        assert forall|i: int| 0 <= i < so.len() implies descends(s, #[trigger] so[i], p) && so[i]
            != p && child_toward(s, so[i], p) == c by {
            lemma_descends_trans(s, so[i], c, p);
            lemma_descends_index(s, so[i], c);
            lemma_child_toward(s, so[i], c, p);
        }
    }
    match s[c.0 as int].prev_sibling {
        Some(q) => {
            assert(links_ok(s, q.0 as int));
            lemma_sibling_order(s, q);
            let ro = sibling_order(s, q);
            assert(o == so + ro);
            let p = s[c.0 as int].parent->Some_0;
            assert forall|i: int, j: int| 0 <= i < so.len() && 0 <= j < ro.len() implies so[i]
                != ro[j] by {
                assert(child_toward(s, so[i], p) == c);
                assert(child_toward(s, ro[j], p).0 <= q.0);
            }
            vstd::seq_lib::lemma_no_dup_in_concat(so, ro);
            assert forall|i: int| 0 <= i < o.len() - 1 implies step(s, #[trigger] o[i]) == Some(
                o[i + 1]) by {
                if i < so.len() - 1 {
                    assert(o[i] == so[i] && o[i + 1] == so[i + 1]);
                } else if i == so.len() - 1 {
                    assert(o[i] == c);
                } else {
                    assert(o[i] == ro[i - so.len()]);
                }
            }
            assert forall|i: int| 0 <= i < o.len() implies (#[trigger] o[i]).0 < s.len() && (s[c.0 as int].parent matches Some(pp) ==> (
                descends(s, o[i], pp) && o[i] != pp && child_toward(s, o[i], pp).0 <= c.0)) by {
                if i >= so.len() {
                    assert(o[i] == ro[i - so.len()]);
                }
            }
        },
        None => {},
    }
}

proof fn lemma_child_on_path(s: Seq<Links>, y: NodeId, x: NodeId)
    requires
        wf(s),
        y.0 < s.len(),
        descends(s, y, x),
        y != x,
    ensures
        child_toward(s, y, x).0 < s.len(),
        s[child_toward(s, y, x).0 as int].parent == Some(x),
        descends(s, y, child_toward(s, y, x)),
    decreases y.0,
{
    let q = s[y.0 as int].parent->Some_0;
    if q == x {
        assert(descends(s, y, y));
    } else {
        lemma_child_on_path(s, q, x);
    }
}

proof fn lemma_chain_contains(s: Seq<Links>, c0: NodeId, c: NodeId, y: NodeId)
    requires
        wf(s),
        c0.0 < s.len(),
        c.0 < s.len(),
        in_chain(s, c0, c),
        subtree_order(s, c).contains(y),
    ensures
        sibling_order(s, c0).contains(y),
    decreases c0.0,
{
    assert(links_ok(s, c0.0 as int));
    let so = subtree_order(s, c0);
    if c0 == c {
        let k = choose|k: int| 0 <= k < so.len() && so[k] == y;
        match s[c0.0 as int].prev_sibling {
            Some(q) => {
                assert((so + sibling_order(s, q))[k] == y);
            },
            None => {},
        }
    } else {
        let q = s[c0.0 as int].prev_sibling->Some_0;
        lemma_chain_contains(s, q, c, y);
        let ro = sibling_order(s, q);
        let k = choose|k: int| 0 <= k < ro.len() && ro[k] == y;
        assert((so + ro)[so.len() + k] == y);
    }
}

proof fn lemma_descendant_in_order(s: Seq<Links>, x: NodeId, y: NodeId)
    requires
        wf(s),
        x.0 < s.len(),
        y.0 < s.len(),
        descends(s, y, x),
    ensures
        subtree_order(s, x).contains(y),
    decreases s.len() - x.0,
{
    lemma_subtree_order(s, x);
    let o = subtree_order(s, x);
    if y == x {
        assert(o[o.len() - 1] == y);
    } else {
        lemma_child_on_path(s, y, x);
        let c = child_toward(s, y, x);
        assert(links_ok(s, c.0 as int));
        assert(links_ok(s, x.0 as int));
        let c0 = s[x.0 as int].last_child->Some_0;
        lemma_descendant_in_order(s, c, y);
        lemma_chain_contains(s, c0, c, y);
        let so = sibling_order(s, c0);
        assert(o == so.push(x));
        let k = choose|k: int| 0 <= k < so.len() && so[k] == y;
        assert(o[k] == y);
    }
}

/// Traversing from `x` yields each node of its subtree exactly once, and `x`
/// itself last: as many handles as the subtree has nodes.
pub proof fn lemma_order_covers_subtree(s: Seq<Links>, x: NodeId)
    requires
        wf(s),
        x.0 < s.len(),
    ensures
        subtree_order(s, x).no_duplicates(),
        subtree_order(s, x).last() == x,
        subtree_order(s, x).to_set() == subtree(s, x),
        subtree_order(s, x).len() == subtree(s, x).len(),
{
    lemma_subtree_order(s, x);
    let o = subtree_order(s, x);
    assert forall|y: NodeId| o.to_set().contains(y) <==> subtree(s, x).contains(y) by {
        if subtree(s, x).contains(y) {
            lemma_descendant_in_order(s, x, y);
        }
        if o.contains(y) {
            let k = choose|k: int| 0 <= k < o.len() && o[k] == y;
            assert(o[k].0 < s.len());
        }
    }
    assert(o.to_set() =~= subtree(s, x));
    o.unique_seq_to_set();
}

/// The store after a new node, numbered `s.len()`, is added as the last child of `p`.
pub open spec fn with_child(s: Seq<Links>, p: NodeId) -> Seq<Links> {
    let n = NodeId(s.len() as usize);
    let old_p = s[p.0 as int];
    s.update(
        p.0 as int,
        Links { parent: old_p.parent, prev_sibling: old_p.prev_sibling, last_child: Some(n) },
    ).push(Links { parent: Some(p), prev_sibling: old_p.last_child, last_child: None })
}

proof fn lemma_in_chain_extend(s: Seq<Links>, t: Seq<Links>, a: NodeId, b: NodeId)
    requires
        s.len() <= t.len(),
        forall|x: int| 0 <= x < s.len() ==> #[trigger] t[x].prev_sibling == s[x].prev_sibling,
        a.0 < s.len(),
        in_chain(s, a, b),
    ensures
        in_chain(t, a, b),
    decreases a.0,
{
    if a != b {
        let q = s[a.0 as int].prev_sibling->Some_0;
        lemma_in_chain_extend(s, t, q, b);
    }
}

/// Adding a last child to a node of a well-formed store keeps it well-formed.
pub proof fn lemma_with_child_wf(s: Seq<Links>, p: NodeId)
    requires
        wf(s),
        p.0 < s.len(),
        s.len() < usize::MAX,
    ensures
        wf(with_child(s, p)),
{
    let t = with_child(s, p);
    let n = NodeId(s.len() as usize);
    assert(links_ok(s, p.0 as int));
    assert forall|x: int| 0 <= x < s.len() implies #[trigger] t[x].prev_sibling
        == s[x].prev_sibling && t[x].parent == s[x].parent by {}
    assert forall|i: int| 0 <= i < t.len() implies #[trigger] links_ok(t, i) by {
        if i == s.len() {
            if let Some(c) = s[p.0 as int].last_child {
                assert(links_ok(s, c.0 as int));
            }
            assert(in_chain(t, n, n));
        } else {
            assert(links_ok(s, i));
            let l = s[i];
            if let Some(q) = l.parent {
                assert(links_ok(s, q.0 as int));
                let c = s[q.0 as int].last_child->Some_0;
                lemma_in_chain_extend(s, t, c, NodeId(i as usize));
                if q == p {
                    assert(t[n.0 as int].prev_sibling == Some(c));
                    assert(in_chain(t, n, NodeId(i as usize)));
                }
            }
        }
    }
}

/// The cursor after `k` steps of a traversal whose order is `o`.
pub open spec fn cursor_at(o: Seq<NodeId>, k: int) -> Option<NodeId> {
    if 0 <= k < o.len() {
        Some(o[k])
    } else {
        None
    }
}

/// One step of a traversal from `start`: the next cursor and the node yielded.
pub open spec fn advance(s: Seq<Links>, start: NodeId, cursor: Option<NodeId>) -> (
    Option<NodeId>,
    Option<NodeId>,
) {
    match cursor {
        None => (None, None),
        Some(c) => if c == start {
            (None, Some(c))
        } else {
            (step(s, c), Some(c))
        },
    }
}

/// Stepping from the `k`-th cursor of the traversal from `start` yields its
/// `k`-th node and moves to the next one; past the end nothing is yielded.
pub proof fn lemma_advance_follows_order(s: Seq<Links>, start: NodeId, k: int)
    requires
        wf(s),
        start.0 < s.len(),
        0 <= k <= subtree_order(s, start).len(),
    ensures
        subtree_order(s, start)[0] == deepest(s, start),
        subtree_order(s, start).last() == start,
        advance(s, start, cursor_at(subtree_order(s, start), k)) == (
            cursor_at(subtree_order(s, start), k + 1),
            cursor_at(subtree_order(s, start), k),
        ),
        forall|i: int|
            0 <= i < subtree_order(s, start).len() ==> (#[trigger] subtree_order(s, start)[i]).0
                < s.len(),
{
    lemma_subtree_order(s, start);
    let o = subtree_order(s, start);
    if k < o.len() - 1 {
        assert(step(s, o[k]) == Some(o[k + 1]));
    }
}

} // verus!
