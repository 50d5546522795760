use arena_link_tree::{DepthFirstIter, MutDepthFirstIter, NodeId, Runtime, RuntimeId, Scope, ScopeId, Tree};

fn collect<T>(tree: &Tree<T>, start: NodeId) -> Vec<NodeId> {
    let mut it = DepthFirstIter::new(tree, start);
    let mut out = Vec::new();
    while let Some(id) = it.next() {
        out.push(id);
    }
    out
}

fn three_children() -> (Tree<u32>, NodeId, NodeId, NodeId, NodeId) {
    let mut tree = Tree::new(0u32);
    let a = NodeId(0);
    let c1 = tree.add_child(a, 1);
    let c2 = tree.add_child(a, 2);
    let c3 = tree.add_child(a, 3);
    (tree, a, c1, c2, c3)
}

#[test]
fn single_node_yields_itself() {
    let tree = Tree::new("root");
    let root = NodeId(0);
    assert_eq!(collect(&tree, root), vec![root]);
}

#[test]
fn single_node_ends_after_one() {
    let tree = Tree::new(7u8);
    let mut it = DepthFirstIter::new(&tree, NodeId(0));
    assert_eq!(it.next(), Some(NodeId(0)));
    assert_eq!(it.next(), None);
    assert_eq!(it.next(), None);
}

#[test]
fn chain_yields_deepest_first() {
    let mut tree = Tree::new('a');
    let a = NodeId(0);
    let b = tree.add_child(a, 'b');
    let c = tree.add_child(b, 'c');
    assert_eq!(tree.last_child(a), Some(b));
    assert_eq!(tree.last_child(b), Some(c));
    assert_eq!(collect(&tree, a), vec![c, b, a]);
}

#[test]
fn children_visited_last_to_first() {
    let (tree, a, c1, c2, c3) = three_children();
    assert_eq!(tree.last_child(a), Some(c3));
    assert_eq!(tree.prev_sibling(c3), Some(c2));
    assert_eq!(tree.prev_sibling(c2), Some(c1));
    assert_eq!(tree.prev_sibling(c1), None);
    assert_eq!(collect(&tree, a), vec![c3, c2, c1, a]);
}

#[test]
fn subtree_start_stops_at_start() {
    // a has children b and e; b has children c and d.
    let mut tree = Tree::new(0u32);
    let a = NodeId(0);
    let b = tree.add_child(a, 1);
    let c = tree.add_child(b, 2);
    let d = tree.add_child(b, 3);
    let e = tree.add_child(a, 4);
    assert_eq!(collect(&tree, a), vec![e, d, c, b, a]);
    assert_eq!(collect(&tree, b), vec![d, c, b]);
    assert_eq!(collect(&tree, c), vec![c]);
    assert_eq!(collect(&tree, e), vec![e]);
}

#[test]
fn each_node_once_start_last() {
    // a wider tree: root with three children, the middle one with two of its own,
    // one of which has a child.
    let mut tree = Tree::new(0u32);
    let r = NodeId(0);
    let x = tree.add_child(r, 1);
    let y = tree.add_child(r, 2);
    let y1 = tree.add_child(y, 3);
    let _z = tree.add_child(r, 4);
    let _y2 = tree.add_child(y, 5);
    let _w = tree.add_child(y1, 6);
    let _x1 = tree.add_child(x, 7);
    let order = collect(&tree, r);
    assert_eq!(order.len(), tree.len());
    assert_eq!(*order.last().unwrap(), r);
    let mut seen = vec![false; tree.len()];
    for id in &order {
        assert!(!seen[id.index()]);
        seen[id.index()] = true;
    }
    assert!(seen.iter().all(|s| *s));
    let sub = collect(&tree, y);
    assert_eq!(sub.len(), 4);
    assert_eq!(*sub.last().unwrap(), y);
}

#[test]
fn mutating_matches_read_only_order() {
    // each visit stamps the node with one more than the largest stamp so far
    let (mut tree, a, c1, c2, c3) = three_children();
    let d = tree.add_child(c2, 0);
    for i in 0..tree.len() {
        tree.set(NodeId(i), 0);
    }
    let expected = collect(&tree, a);
    assert_eq!(expected, vec![c3, d, c2, c1, a]);
    {
        let mut it = MutDepthFirstIter::new(&mut tree, a);
        it.for_each(|t: &mut Tree<u32>, id: NodeId| {
            let mut top = 0;
            for i in 0..t.len() {
                top = top.max(*t.get(NodeId(i)));
            }
            t.set(id, top + 1);
        });
    }
    for (k, id) in expected.iter().enumerate() {
        assert_eq!(*tree.get(*id), k as u32 + 1);
    }
    assert_eq!(collect(&tree, a), expected);
}

#[test]
fn mutating_visits_each_node_once() {
    let (mut tree, a, _c1, c2, _c3) = three_children();
    tree.add_child(c2, 10);
    {
        let mut it = MutDepthFirstIter::new(&mut tree, a);
        it.for_each(|t: &mut Tree<u32>, id: NodeId| {
            let v = *t.get(id);
            t.set(id, v + 100);
        });
    }
    assert_eq!(*tree.get(NodeId(0)), 100);
    assert_eq!(*tree.get(NodeId(1)), 101);
    assert_eq!(*tree.get(NodeId(2)), 102);
    assert_eq!(*tree.get(NodeId(3)), 103);
    assert_eq!(*tree.get(NodeId(4)), 110);
}

#[test]
fn mutating_subtree_leaves_rest() {
    let (mut tree, _a, c1, c2, c3) = three_children();
    {
        let mut it = MutDepthFirstIter::new(&mut tree, c2);
        it.for_each(|t: &mut Tree<u32>, id: NodeId| t.set(id, 50));
    }
    assert_eq!(*tree.get(c2), 50);
    assert_eq!(*tree.get(c1), 1);
    assert_eq!(*tree.get(c3), 3);
    assert_eq!(*tree.get(NodeId(0)), 0);
}

#[test]
fn skip_does_not_change_read_only_order() {
    let (tree, a, c1, c2, c3) = three_children();
    let mut it = DepthFirstIter::new(&tree, a);
    it.skip(c2);
    let mut out = Vec::new();
    while let Some(id) = it.next() {
        out.push(id);
    }
    assert_eq!(out, vec![c3, c2, c1, a]);
}

#[test]
fn skip_midway_does_not_change_order() {
    let (tree, a, c1, c2, c3) = three_children();
    let mut it = DepthFirstIter::new(&tree, a);
    assert_eq!(it.next(), Some(c3));
    it.skip(c1);
    assert_eq!(it.next(), Some(c2));
    assert_eq!(it.next(), Some(c1));
    assert_eq!(it.next(), Some(a));
    assert_eq!(it.next(), None);
}

#[test]
fn skip_does_not_change_mutating_order() {
    let (mut tree, a, c1, c2, c3) = three_children();
    for i in 0..tree.len() {
        tree.set(NodeId(i), 0);
    }
    {
        let mut it = MutDepthFirstIter::new(&mut tree, a);
        it.skip(c2);
        it.for_each(|t: &mut Tree<u32>, id: NodeId| {
            let mut top = 0;
            for i in 0..t.len() {
                top = top.max(*t.get(NodeId(i)));
            }
            t.set(id, top + 1);
        });
    }
    assert_eq!(*tree.get(c3), 1);
    assert_eq!(*tree.get(c2), 2);
    assert_eq!(*tree.get(c1), 3);
    assert_eq!(*tree.get(a), 4);
}

#[test]
fn add_child_links() {
    let mut tree = Tree::new(());
    let a = NodeId(0);
    let b = tree.add_child(a, ());
    let c = tree.add_child(a, ());
    assert_eq!(b, NodeId(1));
    assert_eq!(c, NodeId(2));
    assert_eq!(c.index(), 2);
    assert_eq!(tree.len(), 3);
    assert_eq!(tree.parent(b), Some(a));
    assert_eq!(tree.parent(c), Some(a));
    assert_eq!(tree.parent(a), None);
    assert_eq!(tree.prev_sibling(c), Some(b));
    assert_eq!(tree.last_child(a), Some(c));
    assert_eq!(tree.last_child(b), None);
    let l = tree.links(c);
    assert_eq!(l.parent, Some(a));
    assert_eq!(l.prev_sibling, Some(b));
    assert_eq!(l.last_child, None);
}

#[test]
fn scope_equality() {
    let rt1 = Runtime::new(RuntimeId(1));
    let rt2 = Runtime::new(RuntimeId(2));
    let s = Scope::new(ScopeId(5), &rt1);
    assert_eq!(s.id(), ScopeId(5));
    assert_eq!(s.runtime(), RuntimeId(1));
    assert_eq!(s, Scope::new(ScopeId(5), &rt1));
    assert_ne!(s, Scope::new(ScopeId(6), &rt1));
    assert_ne!(s, Scope::new(ScopeId(5), &rt2));
}

#[test]
fn exhausted_mutating_traversal_calls_nothing() {
    let (mut tree, a, _c1, _c2, _c3) = three_children();
    {
        let mut it = MutDepthFirstIter::new(&mut tree, a);
        it.for_each(|t: &mut Tree<u32>, id: NodeId| {
            let v = *t.get(id);
            t.set(id, v + 10);
        });
        it.for_each(|t: &mut Tree<u32>, id: NodeId| t.set(id, 999));
    }
    assert_eq!(*tree.get(NodeId(0)), 10);
    assert_eq!(*tree.get(NodeId(1)), 11);
    assert_eq!(*tree.get(NodeId(2)), 12);
    assert_eq!(*tree.get(NodeId(3)), 13);
}
