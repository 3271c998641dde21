//! The parsed HTML document as the layout reads it: an arena of nodes in
//! document order, where every node's children come after it.
use vstd::prelude::*;

verus! {

/// Index of a node in its [`Dom`].
pub type NodeId = usize;

/// An element attribute (local name and value).
pub struct Attribute {
    pub name: String,
    pub value: String,
}

/// What a node is.
pub enum NodeData {
    Document,
    Element { name: String, attrs: Vec<Attribute> },
    Text { contents: String },
    Comment { contents: String },
}

/// One node of the document and its children, in document order.
pub struct Node {
    pub data: NodeData,
    pub children: Vec<NodeId>,
}

/// A document tree. Node 0 is the document node; the children of a node
/// always carry larger ids than the node itself.
pub struct Dom {
    nodes: Vec<Node>,
}

/// The shape every [`Dom`] keeps: a document node at 0, children that come
/// after their parent, and no node listed as a child twice (every node but
/// the document has one parent).
pub open spec fn tree_shape(nodes: Seq<Node>) -> bool {
    &&& nodes.len() >= 1
    &&& nodes[0].data is Document
    &&& forall|i: int, j: int|
        0 <= i < nodes.len() && 0 <= j < nodes[i].children@.len() ==> i < #[trigger] nodes[i].children@[j]
            < nodes.len()
    &&& unique_parents(nodes)
}

/// No node is listed as a child twice.
pub open spec fn unique_parents(nodes: Seq<Node>) -> bool {
    forall|i: int, k: int, j: int, l: int|
        0 <= i < nodes.len() && 0 <= k < nodes[i].children@.len() && 0 <= j < nodes.len() && 0 <= l
            < nodes[j].children@.len() && #[trigger] nodes[i].children@[k] == #[trigger] nodes[j].children@[l] ==> i
            == j && k == l
}

impl View for Dom {
    type V = Seq<Node>;

    closed spec fn view(&self) -> Seq<Node> {
        self.nodes@
    }
}

impl Dom {
    /// The document keeps its tree shape.
    pub open spec fn wf(&self) -> bool {
        tree_shape(self@)
    }

    /// A document holding only the document node.
    pub fn new() -> (dom: Dom)
        ensures
            dom.wf(),
            dom@.len() == 1,
            dom@[0].children@.len() == 0,
    {
        let mut nodes = Vec::new();
        nodes.push(Node { data: NodeData::Document, children: Vec::new() });
        Dom { nodes }
    }

    /// The document node.
    pub fn document(&self) -> (id: NodeId)
        ensures
            id == 0,
    {
        0
    }

    /// The number of nodes.
    pub fn len(&self) -> (n: usize)
        ensures
            n == self@.len(),
    {
        self.nodes.len()
    }

    /// The node with id `id`.
    pub fn node(&self, id: NodeId) -> (node: &Node)
        requires
            id < self@.len(),
        ensures
            *node == self@[id as int],
    {
        &self.nodes[id]
    }

    /// The children of `id`, in document order.
    pub fn children(&self, id: NodeId) -> (children: &Vec<NodeId>)
        requires
            id < self@.len(),
        ensures
            children@ == self@[id as int].children@,
    {
        &self.nodes[id].children
    }

    /// Appends a new node holding `data` as the last child of `parent` and
    /// returns its id.
    pub fn append(&mut self, parent: NodeId, data: NodeData) -> (id: NodeId)
        requires
            old(self).wf(),
            parent < old(self)@.len(),
            old(self)@.len() < usize::MAX,
        ensures
            final(self).wf(),
            id == old(self)@.len(),
            final(self)@.len() == old(self)@.len() + 1,
            final(self)@[id as int].data == data,
            final(self)@[id as int].children@.len() == 0,
            final(self)@[parent as int].data == old(self)@[parent as int].data,
            final(self)@[parent as int].children@ == old(self)@[parent as int].children@.push(id),
            forall|i: int| 0 <= i < old(self)@.len() && i != parent ==> final(self)@[i] == old(self)@[i],
    {
        let id = self.nodes.len();
        self.nodes.push(Node { data, children: Vec::new() });
        self.nodes[parent].children.push(id);
        proof {
            let nodes = self.nodes@;
            let before = old(self).nodes@;
            assert forall|i: int, k: int, j: int, l: int|
                0 <= i < nodes.len() && 0 <= k < nodes[i].children@.len() && 0 <= j < nodes.len() && 0 <= l
                    < nodes[j].children@.len() && #[trigger] nodes[i].children@[k] == #[trigger] nodes[j].children@[l]
                implies i == j && k == l by {
                let ci = nodes[i].children@;
                let cj = nodes[j].children@;
                let new_i = i == parent && k == ci.len() - 1;
                let new_j = j == parent && l == cj.len() - 1;
                if i != id && !new_i {
                    assert(ci[k] == before[i].children@[k]);
                    assert(ci[k] < before.len());
                }
                if j != id && !new_j {
                    assert(cj[l] == before[j].children@[l]);
                    assert(cj[l] < before.len());
                }
                if !new_i && !new_j {
                    assert(before[i].children@[k] == before[j].children@[l]);
                }
            }
            assert forall|i: int, j: int|
                0 <= i < nodes.len() && 0 <= j < nodes[i].children@.len() implies i
                < #[trigger] nodes[i].children@[j] < nodes.len() by {
                if i != parent && i != id {
                    assert(nodes[i] == old(self).nodes@[i]);
                } else if i == parent && j < old(self).nodes@[i].children@.len() {
                    assert(nodes[i].children@[j] == old(self).nodes@[i].children@[j]);
                }
            }
        }
        id
    }
}

/// The value of the first attribute named `name` in `attrs`.
pub open spec fn spec_attr_value(attrs: Seq<Attribute>, name: Seq<char>) -> Option<String>
    decreases attrs.len(),
{
    if attrs.len() == 0 {
        None
    } else if attrs[0].name@ == name {
        Some(attrs[0].value)
    } else {
        spec_attr_value(attrs.drop_first(), name)
    }
}

/// The value of the attribute `name` of node `id`, if it is an element that
/// has one.
pub open spec fn spec_node_attr(nodes: Seq<Node>, id: int, name: Seq<char>) -> Option<String> {
    match nodes[id].data {
        NodeData::Element { attrs, .. } => spec_attr_value(attrs@, name),
        _ => None,
    }
}

/// The value of the first attribute of `attrs` named `name`.
pub fn attr_value<'a>(attrs: &'a Vec<Attribute>, name: &str) -> (r: Option<&'a String>)
    ensures
        r is Some ==> spec_attr_value(attrs@, name@) == Some(*r->0),
        r is None ==> spec_attr_value(attrs@, name@) is None,
{
    let n = attrs.len();
    let mut i: usize = 0;
    assert(attrs@.subrange(0, n as int) =~= attrs@);
    while i < n
        invariant
            n == attrs@.len(),
            i <= n,
            spec_attr_value(attrs@.subrange(i as int, n as int), name@) == spec_attr_value(attrs@, name@),
        decreases n - i,
    {
        let ghost rest = attrs@.subrange(i as int, n as int);
        assert(rest.drop_first() =~= attrs@.subrange(i + 1, n as int));
        assert(rest[0] == attrs@[i as int]);
        if crate::text::str_equals(attrs[i].name.as_str(), name) {
            return Some(&attrs[i].value);
        }
        i = i + 1;
    }
    None
}

} // verus!

verus! {

/// `c` is a child of `p`.
pub open spec fn is_child(nodes: Seq<Node>, p: NodeId, c: NodeId) -> bool {
    p < nodes.len() && nodes[p as int].children@.contains(c)
}

/// The node after position `i` of `path` is a child of the node at `i`.
pub open spec fn down_step(nodes: Seq<Node>, path: Seq<NodeId>, i: int) -> bool {
    is_child(nodes, path[i], path[i + 1])
}

/// `path` goes down the tree, each node a child of the one before it.
pub open spec fn is_down_path(nodes: Seq<Node>, path: Seq<NodeId>) -> bool {
    &&& path.len() >= 1
    &&& forall|i: int| 0 <= i < path.len() - 1 ==> #[trigger] down_step(nodes, path, i)
}

/// A node has at most one parent.
pub proof fn lemma_one_parent(nodes: Seq<Node>, a: NodeId, b: NodeId, c: NodeId)
    requires
        tree_shape(nodes),
        is_child(nodes, a, c),
        is_child(nodes, b, c),
    ensures
        a == b,
{
    let k = choose|k: int| 0 <= k < nodes[a as int].children@.len() && nodes[a as int].children@[k] == c;
    let l = choose|l: int| 0 <= l < nodes[b as int].children@.len() && nodes[b as int].children@[l] == c;
    assert(nodes[a as int].children@[k] == nodes[b as int].children@[l]);
}

/// The document node is nobody's child, and a child comes after its parent.
pub proof fn lemma_child_after_parent(nodes: Seq<Node>, a: NodeId, c: NodeId)
    requires
        tree_shape(nodes),
        is_child(nodes, a, c),
    ensures
        a < c < nodes.len(),
        c != 0,
{
    let k = choose|k: int| 0 <= k < nodes[a as int].children@.len() && nodes[a as int].children@[k] == c;
    assert(a < nodes[a as int].children@[k] < nodes.len());
}

/// A path down ends at or below where it starts.
pub proof fn lemma_down_path_goes_down(nodes: Seq<Node>, path: Seq<NodeId>)
    requires
        tree_shape(nodes),
        is_down_path(nodes, path),
    ensures
        path[0] <= path.last(),
        path.len() > 1 ==> path[0] < path.last(),
    decreases path.len(),
{
    if path.len() > 1 {
        let q = path.drop_last();
        assert forall|i: int| 0 <= i < q.len() - 1 implies #[trigger] down_step(nodes, q, i) by {
            assert(down_step(nodes, path, i));
        }
        lemma_down_path_goes_down(nodes, q);
        assert(down_step(nodes, path, path.len() - 2));
        lemma_child_after_parent(nodes, path[path.len() - 2], path.last());
    }
}

/// In a tree there is one way down to a node: a path down from the document
/// that ends where another path down ends has that other path as its tail.
pub proof fn lemma_down_paths_share_their_tail(nodes: Seq<Node>, p: Seq<NodeId>, q: Seq<NodeId>)
    requires
        tree_shape(nodes),
        is_down_path(nodes, p),
        is_down_path(nodes, q),
        p[0] == 0,
        p.last() == q.last(),
    ensures
        q.len() <= p.len(),
        q == p.subrange(p.len() - q.len(), p.len() as int),
    decreases q.len(),
{
    if q.len() == 1 {
        assert(q =~= p.subrange(p.len() - 1, p.len() as int));
    } else {
        let m = q.last();
        assert(down_step(nodes, q, q.len() - 2));
        lemma_child_after_parent(nodes, q[q.len() - 2], m);
        assert(p.len() >= 2);
        assert(down_step(nodes, p, p.len() - 2));
        lemma_one_parent(nodes, p[p.len() - 2], q[q.len() - 2], m);
        let p1 = p.drop_last();
        let q1 = q.drop_last();
        assert forall|i: int| 0 <= i < p1.len() - 1 implies #[trigger] down_step(nodes, p1, i) by {
            assert(down_step(nodes, p, i));
        }
        assert forall|i: int| 0 <= i < q1.len() - 1 implies #[trigger] down_step(nodes, q1, i) by {
            assert(down_step(nodes, q, i));
        }
        lemma_down_paths_share_their_tail(nodes, p1, q1);
        assert(q =~= p.subrange(p.len() - q.len(), p.len() as int)) by {
            assert forall|i: int| 0 <= i < q.len() implies q[i] == p[p.len() - q.len() + i] by {
                if i < q.len() - 1 {
                    assert(q[i] == q1[i]);
                    assert(q1[i] == p1.subrange(p1.len() - q1.len(), p1.len() as int)[i]);
                }
            }
        }
    }
}

} // verus!
