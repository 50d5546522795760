//! The node store: a dense vector of records addressed by handles.
use vstd::prelude::*;

use crate::shape::{lemma_with_child_wf, wf, with_child};

verus! {

/// A handle: the index of a node's slot in its store.
#[derive(Clone, Copy, Debug, PartialEq, Eq, Structural)]
pub struct NodeId(pub usize);

impl NodeId {
    pub fn index(&self) -> (r: usize)
        ensures
            r == self.0,
    {
        self.0
    }
}

/// The navigation links of one node.
#[derive(Clone, Copy, Debug, PartialEq, Eq, Structural)]
pub struct Links {
    pub parent: Option<NodeId>,
    pub prev_sibling: Option<NodeId>,
    pub last_child: Option<NodeId>,
}

struct Node<T> {
    links: Links,
    data: T,
}

/// A tree stored as a flat vector of nodes; node `i` has handle `NodeId(i)`.
pub struct Tree<T> {
    nodes: Vec<Node<T>>,
}

impl<T> Tree<T> {
    /// The links of every node, by index.
    pub closed spec fn shape(&self) -> Seq<Links> {
        self.nodes@.map_values(|n: Node<T>| n.links)
    }

    /// The payload of every node, by index.
    pub closed spec fn data(&self) -> Seq<T> {
        self.nodes@.map_values(|n: Node<T>| n.data)
    }

    pub open spec fn well_formed(&self) -> bool {
        wf(self.shape())
    }

    pub open spec fn has(&self, id: NodeId) -> bool {
        id.0 < self.shape().len()
    }

    /// A tree holding one node, the root, with handle `NodeId(0)`.
    pub fn new(root: T) -> (r: Self)
        ensures
            r.well_formed(),
            r.shape() == seq![Links { parent: None, prev_sibling: None, last_child: None }],
            r.data() == seq![root],
    {
        let mut nodes: Vec<Node<T>> = Vec::new();
        nodes.push(Node { links: Links { parent: None, prev_sibling: None, last_child: None }, data: root });
        let r = Tree { nodes };
        assert(r.shape() =~= seq![Links { parent: None, prev_sibling: None, last_child: None }]);
        assert(r.data() =~= seq![root]);
        assert(crate::shape::links_ok(r.shape(), 0));
        r
    }

    pub fn len(&self) -> (r: usize)
        ensures
            r == self.shape().len(),
    {
        self.nodes.len()
    }

    pub fn links(&self, id: NodeId) -> (r: Links)
        requires
            self.has(id),
        ensures
            r == self.shape()[id.0 as int],
    {
        self.nodes[id.0].links
    }

    pub fn parent(&self, id: NodeId) -> (r: Option<NodeId>)
        requires
            self.has(id),
        ensures
            r == self.shape()[id.0 as int].parent,
    {
        self.nodes[id.0].links.parent
    }

    pub fn prev_sibling(&self, id: NodeId) -> (r: Option<NodeId>)
        requires
            self.has(id),
        ensures
            r == self.shape()[id.0 as int].prev_sibling,
    {
        self.nodes[id.0].links.prev_sibling
    }

    pub fn last_child(&self, id: NodeId) -> (r: Option<NodeId>)
        requires
            self.has(id),
        ensures
            r == self.shape()[id.0 as int].last_child,
    {
        self.nodes[id.0].links.last_child
    }

    pub fn get(&self, id: NodeId) -> (r: &T)
        requires
            self.has(id),
        ensures
            *r == self.data()[id.0 as int],
    {
        &self.nodes[id.0].data
    }

    /// Replaces the payload of `id`; the links stay as they are.
    pub fn set(&mut self, id: NodeId, data: T)
        requires
            old(self).has(id),
        ensures
            final(self).shape() == old(self).shape(),
            final(self).data() == old(self).data().update(id.0 as int, data),
    {
        let links = self.nodes[id.0].links;
        self.nodes.set(id.0, Node { links, data });
        assert(self.shape() =~= old(self).shape());
        assert(self.data() =~= old(self).data().update(id.0 as int, data));
    }

    /// Adds a node holding `data` as the new last child of `parent`; the
    /// former last child becomes its previous sibling.
    pub fn add_child(&mut self, parent: NodeId, data: T) -> (r: NodeId)
        requires
            old(self).well_formed(),
            old(self).has(parent),
            old(self).shape().len() < usize::MAX,
        ensures
            r.0 == old(self).shape().len(),
            final(self).shape() == with_child(old(self).shape(), parent),
            final(self).data() == old(self).data().push(data),
            final(self).well_formed(),
    {
        let id = NodeId(self.nodes.len());
        let p = self.nodes[parent.0].links;
        let node = Node {
            links: Links { parent: Some(parent), prev_sibling: p.last_child, last_child: None },
            data,
        };
        self.nodes[parent.0].links.last_child = Some(id);
        self.nodes.push(node);
        assert(self.shape() =~= with_child(old(self).shape(), parent));
        assert(self.data() =~= old(self).data().push(data));
        proof {
            lemma_with_child_wf(old(self).shape(), parent);
        }
        id
    }
}

} // verus!
