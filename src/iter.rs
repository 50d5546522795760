//! Stack-free depth-first traversal: children from the last one back to the
//! first, each subtree before its root, the start node last.
use vstd::prelude::*;

use crate::shape::{
    advance, cursor_at, deepest, lemma_advance_follows_order, links_ok, subtree_order,
};
use crate::tree::{NodeId, Tree};

verus! {

/// Follows last-child links from `node` until a node without children.
fn drill_down<T>(tree: &Tree<T>, node: NodeId) -> (r: NodeId)
    requires
        tree.well_formed(),
        tree.has(node),
    ensures
        r == deepest(tree.shape(), node),
        tree.has(r),
{
    let mut cur = node;
    loop
        invariant
            tree.well_formed(),
            tree.has(cur),
            deepest(tree.shape(), cur) == deepest(tree.shape(), node),
        decreases tree.shape().len() - cur.0,
    {
        match tree.last_child(cur) {
            Some(child) => {
                proof {
                    assert(links_ok(tree.shape(), cur.0 as int));
                    assert(links_ok(tree.shape(), child.0 as int));
                }
                cur = child;
            },
            None => {
                return cur;
            },
        }
    }
}

/// One step of the traversal from `start`: returns the next cursor and the
/// node to yield now, or `(None, None)` once the cursor is empty. The node to
/// exclude is accepted and has no effect. A cursor inside the subtree of
/// `start` never reaches a node other than `start` that lacks both a previous
/// sibling and a parent.
fn next<T>(tree: &Tree<T>, start: NodeId, cursor: Option<NodeId>, _skip: Option<NodeId>) -> (r: (
    Option<NodeId>,
    Option<NodeId>,
))
    requires
        tree.well_formed(),
        cursor matches Some(c) ==> tree.has(c),
    ensures
        r == advance(tree.shape(), start, cursor),
        r.0 matches Some(c) ==> tree.has(c),
        tree.has(start) ==> (cursor matches Some(c) && subtree_order(tree.shape(), start).contains(c)
            && c != start ==> r.0 is Some),
        tree.has(start) ==> (cursor matches Some(c) && subtree_order(tree.shape(), start).contains(c)
            && r.0 is Some ==> subtree_order(tree.shape(), start).contains(r.0->Some_0)),
{
    let current = match cursor {
        Some(c) => c,
        None => {
            return (None, None);
        },
    };
    proof {
        assert(links_ok(tree.shape(), current.0 as int));
        if tree.has(start) && subtree_order(tree.shape(), start).contains(current) {
            let o = subtree_order(tree.shape(), start);
            let k = choose|k: int| 0 <= k < o.len() && o[k] == current;
            lemma_advance_follows_order(tree.shape(), start, k);
            if current != start {
                assert(k != o.len() - 1);
                assert(o.contains(o[k + 1]));
            }
        }
    }
    if current == start {
        return (None, Some(start));
    }
    let next = match tree.prev_sibling(current) {
        // a previous sibling comes next: start at its deepest last child
        Some(node) => Some(drill_down(tree, node)),
        // no previous sibling: every child of the parent has been visited
        None => tree.parent(current),
    };
    (next, Some(current))
}

/// Read-only traversal of the subtree of a start node.
pub struct DepthFirstIter<'a, T> {
    tree: &'a Tree<T>,
    start: NodeId,
    /// The next node to yield.
    next: Option<NodeId>,
    /// A node recorded as excluded; the traversal does not consult it.
    skip: Option<NodeId>,
    /// How many nodes have been yielded.
    pos: Ghost<nat>,
}

impl<'a, T> DepthFirstIter<'a, T> {
    pub closed spec fn tree(&self) -> Tree<T> {
        *self.tree
    }

    pub closed spec fn start(&self) -> NodeId {
        self.start
    }

    pub closed spec fn skipped(&self) -> Option<NodeId> {
        self.skip
    }

    /// Every node that the traversal yields, in order.
    pub closed spec fn order(&self) -> Seq<NodeId> {
        subtree_order(self.tree.shape(), self.start)
    }

    /// How many nodes have been yielded so far.
    pub closed spec fn position(&self) -> nat {
        self.pos@
    }

    pub closed spec fn inv(&self) -> bool {
        &&& self.tree.well_formed()
        &&& self.tree.has(self.start)
        &&& self.pos@ <= self.order().len()
        &&& self.next == cursor_at(self.order(), self.pos@ as int)
    }

    /// Starts a traversal of the subtree of `start` at its deepest last child.
    pub fn new(tree: &'a Tree<T>, start: NodeId) -> (r: Self)
        requires
            tree.well_formed(),
            tree.has(start),
        ensures
            r.inv(),
            r.tree() == *tree,
            r.start() == start,
            r.order() == subtree_order(tree.shape(), start),
            r.position() == 0,
            r.skipped() == None::<NodeId>,
    {
        let next = Some(drill_down(tree, start));
        proof {
            lemma_advance_follows_order(tree.shape(), start, 0);
        }
        DepthFirstIter { tree, start, next, skip: None, pos: Ghost(0) }
    }

    /// Records `node` as excluded; what the traversal yields is unchanged.
    pub fn skip(&mut self, node: NodeId)
        requires
            old(self).inv(),
        ensures
            final(self).inv(),
            final(self).tree() == old(self).tree(),
            final(self).start() == old(self).start(),
            final(self).order() == old(self).order(),
            final(self).position() == old(self).position(),
            final(self).skipped() == Some(node),
    {
        self.skip = Some(node);
    }

    /// Yields the next node of the traversal, or `None` once all are yielded.
    pub fn next(&mut self) -> (r: Option<NodeId>)
        requires
            old(self).inv(),
        ensures
            final(self).inv(),
            final(self).tree() == old(self).tree(),
            final(self).start() == old(self).start(),
            final(self).order() == old(self).order(),
            final(self).skipped() == old(self).skipped(),
            r == cursor_at(old(self).order(), old(self).position() as int),
            final(self).position() == if old(self).position() < old(self).order().len() {
                old(self).position() + 1
            } else {
                old(self).position()
            },
    {
        proof {
            lemma_advance_follows_order(self.tree.shape(), self.start, self.pos@ as int);
        }
        let (next, current) = next(self.tree, self.start, self.next, None);
        self.next = next;
        if current.is_some() {
            self.pos = Ghost(self.pos@ + 1);
        }
        current
    }
}

/// Traversal of the subtree of a start node that hands each node, once and in
/// order, to an action that may change the node's payload.
pub struct MutDepthFirstIter<'a, T> {
    tree: &'a mut Tree<T>,
    start: NodeId,
    /// The next node to hand to the action.
    next: Option<NodeId>,
    /// A node recorded as excluded; the traversal does not consult it.
    skip: Option<NodeId>,
    /// The nodes handed to the action so far.
    visited: Ghost<Seq<NodeId>>,
}

impl<'a, T> MutDepthFirstIter<'a, T> {
    pub closed spec fn tree(&self) -> Tree<T> {
        *self.tree
    }

    /// The borrowed store; its final value is what the traversal leaves.
    pub closed spec fn target(&self) -> &'a mut Tree<T> {
        self.tree
    }

    pub closed spec fn start(&self) -> NodeId {
        self.start
    }

    pub closed spec fn skipped(&self) -> Option<NodeId> {
        self.skip
    }

    /// Every node that the traversal hands to the action, in order.
    pub closed spec fn order(&self) -> Seq<NodeId> {
        subtree_order(self.tree.shape(), self.start)
    }

    /// How far the traversal has gone: the nodes handed out so far, a prefix of
    /// `order()`. What each call of the action received is stated by
    /// `for_each`'s contract.
    pub closed spec fn visited(&self) -> Seq<NodeId> {
        self.visited@
    }

    pub closed spec fn inv(&self) -> bool {
        &&& self.tree.well_formed()
        &&& self.tree.has(self.start)
        &&& self.visited@.len() <= self.order().len()
        &&& self.visited@ == self.order().take(self.visited@.len() as int)
        &&& self.next == cursor_at(self.order(), self.visited@.len() as int)
    }

    /// Starts a traversal of the subtree of `start` at its deepest last child.
    pub fn new(tree: &'a mut Tree<T>, start: NodeId) -> (r: Self)
        requires
            old(tree).well_formed(),
            old(tree).has(start),
        ensures
            r.inv(),
            r.tree() == *old(tree),
            *final(tree) == *final(r.target()),
            r.start() == start,
            r.order() == subtree_order(old(tree).shape(), start),
            r.visited() == Seq::<NodeId>::empty(),
            r.skipped() == None::<NodeId>,
    {
        let next = Some(drill_down(tree, start));
        proof {
            lemma_advance_follows_order(tree.shape(), start, 0);
        }
        let r = MutDepthFirstIter { tree, start, next, skip: None, visited: Ghost(Seq::empty()) };
        assert(r.visited@ =~= r.order().take(0));
        r
    }

    /// Records `node` as excluded; what the traversal visits is unchanged.
    pub fn skip(&mut self, node: NodeId)
        requires
            old(self).inv(),
        ensures
            final(self).inv(),
            final(self).tree() == old(self).tree(),
            *final(final(self).target()) == *final(old(self).target()),
            final(self).start() == old(self).start(),
            final(self).order() == old(self).order(),
            final(self).visited() == old(self).visited(),
            final(self).skipped() == Some(node),
    {
        self.skip = Some(node);
    }

    /// Hands each remaining node, in traversal order, to `f` together with the
    /// store, one call per node: the `i`-th call receives the store that the
    /// call before it left, and the store ends as the last call leaves it. The
    /// next node is found before `f` runs, so `f` may change the payload of the
    /// node it is given. `f` is asked to keep the links of every node, visited
    /// or not.
    pub fn for_each(&mut self, f: impl Fn(&mut Tree<T>, NodeId))
        requires
            old(self).inv(),
            forall|t: &mut Tree<T>, id: NodeId|
                (*t).well_formed() && (*t).has(id) ==> #[trigger] f.requires((t, id)),
            forall|t: &mut Tree<T>, id: NodeId|
                #[trigger] f.ensures((t, id), ()) ==> (*final(t)).shape() == (*t).shape(),
        ensures
            final(self).inv(),
            final(self).tree().shape() == old(self).tree().shape(),
            *final(final(self).target()) == *final(old(self).target()),
            final(self).start() == old(self).start(),
            final(self).order() == old(self).order(),
            final(self).visited() == old(self).order(),
            final(self).skipped() == old(self).skipped(),
            exists|rs: Seq<&mut Tree<T>>|
                #![trigger rs.len()]
                {
                    &&& rs.len() == old(self).order().len() - old(self).visited().len()
                    &&& forall|i: int|
                        0 <= i < rs.len() ==> #[trigger] f.ensures(
                            (rs[i], old(self).order()[old(self).visited().len() + i]),
                            (),
                        )
                    &&& forall|i: int|
                        0 <= i < rs.len() - 1 ==> *final(#[trigger] rs[i]) == *rs[i + 1]
                    &&& rs.len() == 0 ==> final(self).tree() == old(self).tree()
                    &&& rs.len() > 0 ==> *rs[0] == old(self).tree() && *final(rs.last())
                        == final(self).tree()
                },
    {
        let ghost k0 = self.visited@.len();
        proof {
            let e = Seq::<&mut Tree<T>>::empty();
            assert(e.len() == 0);
        }
        loop
            invariant
                self.inv(),
                self.tree.shape() == old(self).tree.shape(),
                *final(self.tree) == *final(old(self).tree),
                self.start == old(self).start,
                self.skip == old(self).skip,
                k0 == old(self).visited@.len(),
                k0 <= self.visited@.len(),
                self.order() == old(self).order(),
                forall|t: &mut Tree<T>, id: NodeId|
                    (*t).well_formed() && (*t).has(id) ==> #[trigger] f.requires((t, id)),
                forall|t: &mut Tree<T>, id: NodeId|
                    #[trigger] f.ensures((t, id), ()) ==> (*final(t)).shape() == (*t).shape(),
                exists|rs: Seq<&mut Tree<T>>|
                    #![trigger rs.len()]
                    {
                        &&& rs.len() == self.visited@.len() - k0
                        &&& forall|i: int|
                            0 <= i < rs.len() ==> #[trigger] f.ensures(
                                (rs[i], self.order()[k0 + i]),
                                (),
                            )
                        &&& forall|i: int|
                            0 <= i < rs.len() - 1 ==> *final(#[trigger] rs[i]) == *rs[i + 1]
                        &&& rs.len() == 0 ==> *self.tree == *old(self).tree
                        &&& rs.len() > 0 ==> *rs[0] == *old(self).tree && *final(rs.last()) == *self.tree
                    },
            ensures
                self.visited@ == self.order(),
            decreases self.order().len() - self.visited@.len(),
        {
            proof {
                lemma_advance_follows_order(
                    self.tree.shape(),
                    self.start,
                    self.visited@.len() as int,
                );
            }
            let (next, current) = next(self.tree, self.start, self.next, self.skip);
            match current {
                Some(current) => {
                    self.next = next;
                    let ghost k = self.visited@.len();
                    proof {
                        self.visited@ = self.visited@.push(current);
                        assert(self.visited@ =~= self.order().take(self.visited@.len() as int));
                    }
                    let ghost before = *self.tree;
                    proof {
                        assert(exists|rs: Seq<&mut Tree<T>>|
                    #![trigger rs.len()]
                    {
                        &&& rs.len() == k - k0
                        &&& forall|i: int|
                            0 <= i < rs.len() ==> #[trigger] f.ensures(
                                (rs[i], self.order()[k0 + i]),
                                (),
                            )
                        &&& forall|i: int|
                            0 <= i < rs.len() - 1 ==> *final(#[trigger] rs[i]) == *rs[i + 1]
                        &&& rs.len() == 0 ==> before == *old(self).tree
                        &&& rs.len() > 0 ==> *rs[0] == *old(self).tree && *final(rs.last()) == before
                    });
                    }
                    let r = &mut *self.tree;
                    let ghost g = r;
                    f(r, current);
                    proof {
                        assert(exists|rs: Seq<&mut Tree<T>>|
                    #![trigger rs.len()]
                    {
                        &&& rs.len() == self.visited@.len() - k0
                        &&& forall|i: int|
                            0 <= i < rs.len() ==> #[trigger] f.ensures(
                                (rs[i], self.order()[k0 + i]),
                                (),
                            )
                        &&& forall|i: int|
                            0 <= i < rs.len() - 1 ==> *final(#[trigger] rs[i]) == *rs[i + 1]
                        &&& rs.len() == 0 ==> *self.tree == *old(self).tree
                        &&& rs.len() > 0 ==> *rs[0] == *old(self).tree && *final(rs.last()) == *self.tree
                    }) by {
                            let rs0 = choose|rs: Seq<&mut Tree<T>>|
                                #![trigger rs.len()]
                                {
                                    &&& rs.len() == k - k0
                                    &&& forall|i: int|
                                        0 <= i < rs.len() ==> #[trigger] f.ensures(
                                            (rs[i], self.order()[k0 + i]),
                                            (),
                                        )
                                    &&& forall|i: int|
                                        0 <= i < rs.len() - 1 ==> *final(#[trigger] rs[i])
                                            == *rs[i + 1]
                                    &&& rs.len() == 0 ==> before == *old(self).tree
                                    &&& rs.len() > 0 ==> *rs[0] == *old(self).tree && *final(rs.last())
                                        == before
                                };
                            let x = choose|x: &mut Tree<T>|
                                #[trigger] f.ensures((x, current), ()) && *x == *g && *final(x)
                                    == *final(g);
                            let rs1 = rs0.push(x);
                            assert(rs1.len() == self.visited@.len() - k0);
                            assert(self.order()[k0 + (k - k0)] == current);
                            assert forall|i: int| 0 <= i < rs1.len() implies #[trigger] f.ensures(
                                (rs1[i], self.order()[k0 + i]),
                                (),
                            ) by {
                                if i < rs1.len() - 1 {
                                    assert(rs1[i] == rs0[i]);
                                }
                            }
                            assert forall|i: int| 0 <= i < rs1.len() - 1 implies *final(#[trigger] rs1[i])
                                == *rs1[i + 1] by {
                                assert(rs1[i] == rs0[i]);
                                if i < rs1.len() - 2 {
                                    assert(rs1[i + 1] == rs0[i + 1]);
                                }
                            }
                        }
                    }
                },
                None => {
                    assert(self.visited@ =~= self.order());
                    break ;
                },
            }
        }
    }
}

/// Over stores with the same links, the mutating traversal hands its action
/// the nodes in the order in which the read-only traversal yields them: by
/// the contract of `for_each`, its `i`-th call of the action on a fresh
/// traversal receives `mu.order()[i]`, and by the contract of `next`, the
/// `i`-th node yielded is `ro.order()[i]`.
pub proof fn lemma_mut_order_matches<T>(ro: &DepthFirstIter<T>, mu: &MutDepthFirstIter<T>)
    requires
        ro.tree().shape() == mu.tree().shape(),
        ro.start() == mu.start(),
    ensures
        ro.order() == mu.order(),
{
}

} // verus!
