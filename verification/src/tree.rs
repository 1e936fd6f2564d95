//! The tree model.
//!
//! A [`Tree`] owns every node of a forest. A node is named by a [`NodeId`],
//! a plain value that may be copied and kept: all copies name the same node,
//! and what is changed through the tree is seen through every one of them.
//! A node's children are an ordered sequence; its parent is a back-reference
//! by which no node is owned. A [`NodeRef`] is a node borrowed for reading.

use crate::attributes::{inserted, names_distinct, Attribute, Attributes, AttributesView};
use crate::name::{ExpandedName, QualName, QualNameView};
use vstd::prelude::*;

verus! {

/// The content of a document type declaration.
#[derive(Debug, Clone, PartialEq, Eq)]
pub struct Doctype {
    pub name: String,
    pub public_id: String,
    pub system_id: String,
}

/// The content of an element: its name and its attributes.
#[derive(Debug, PartialEq, Eq)]
pub struct ElementData {
    pub name: QualName,
    pub attributes: Attributes,
}

/// What a node is.
#[derive(Debug, PartialEq, Eq)]
pub enum NodeData {
    /// An element.
    Element(ElementData),
    /// Character data.
    Text(String),
    /// A comment.
    Comment(String),
    /// A processing instruction: its target and its data.
    ProcessingInstruction(String, String),
    /// A document type declaration.
    Doctype(Doctype),
    /// The root of a full document.
    Document,
    /// The root of a subtree that belongs to no document.
    DocumentFragment,
}

/// The mathematical value of a [`NodeData`].
#[allow(inconsistent_fields)]
pub enum NodeDataView {
    Element { name: QualNameView, attributes: AttributesView },
    Text { text: Seq<char> },
    Comment { text: Seq<char> },
    ProcessingInstruction { target: Seq<char>, data: Seq<char> },
    Doctype { name: Seq<char>, public_id: Seq<char>, system_id: Seq<char> },
    Document,
    DocumentFragment,
}

impl View for NodeData {
    type V = NodeDataView;

    open spec fn view(&self) -> NodeDataView {
        match *self {
            NodeData::Element(el) => NodeDataView::Element {
                name: el.name@,
                attributes: el.attributes@,
            },
            NodeData::Text(text) => NodeDataView::Text { text: text@ },
            NodeData::Comment(text) => NodeDataView::Comment { text: text@ },
            NodeData::ProcessingInstruction(target, data) => NodeDataView::ProcessingInstruction {
                target: target@,
                data: data@,
            },
            NodeData::Doctype(doctype) => NodeDataView::Doctype {
                name: doctype.name@,
                public_id: doctype.public_id@,
                system_id: doctype.system_id@,
            },
            NodeData::Document => NodeDataView::Document,
            NodeData::DocumentFragment => NodeDataView::DocumentFragment,
        }
    }
}

/// The kinds of node that never have children.
pub open spec fn is_leaf(data: NodeDataView) -> bool {
    data is Text || data is Comment || data is ProcessingInstruction || data is Doctype
}

impl NodeData {
    /// Whether a node of this kind never has children.
    pub fn is_leaf(&self) -> (r: bool)
        ensures
            r == is_leaf(self@),
    {
        match self {
            NodeData::Text(_) => true,
            NodeData::Comment(_) => true,
            NodeData::ProcessingInstruction(_, _) => true,
            NodeData::Doctype(_) => true,
            NodeData::Element(_) => false,
            NodeData::Document => false,
            NodeData::DocumentFragment => false,
        }
    }
}

/// The mathematical value of one node of a tree: its content, the position
/// of its parent and the positions of its children, in order.
pub struct NodeView {
    pub data: NodeDataView,
    pub parent: Option<int>,
    pub children: Seq<int>,
}

/// The mathematical value of a [`Tree`]: its nodes by position.
pub type TreeView = Seq<NodeView>;

/// What must hold of the node at position `id` of `t`:
/// its parent, if it has one, stands before it and lists it as a child;
/// each of its children stands after it and has it as parent; no child is
/// listed twice; a leaf has no child; the attribute names of an element are
/// distinct.
pub open spec fn node_ok(t: TreeView, id: int) -> bool {
    let n = t[id];
    &&& match n.parent {
        Some(p) => 0 <= p < id && t[p].children.contains(id),
        None => true,
    }
    &&& forall|k: int|
        0 <= k < n.children.len() ==> id < #[trigger] n.children[k] < t.len()
            && t[n.children[k]].parent == Some(id)
    &&& forall|j: int, k: int|
        0 <= j < k < n.children.len() ==> #[trigger] n.children[j] < #[trigger] n.children[k]
    &&& is_leaf(n.data) ==> n.children.len() == 0
    &&& n.data matches NodeDataView::Element { attributes, .. } ==> names_distinct(attributes)
}

/// Every node of `t` is as [`node_ok`] asks. So every node has at most one
/// parent, and following children never comes back to a node.
pub open spec fn well_formed(t: TreeView) -> bool {
    forall|id: int| 0 <= id < t.len() ==> #[trigger] node_ok(t, id)
}

/// A node without parent or children.
pub open spec fn detached(data: NodeDataView) -> NodeView {
    NodeView { data, parent: None, children: Seq::empty() }
}

/// `t` with one more node, detached.
pub open spec fn with_root(t: TreeView, data: NodeDataView) -> TreeView {
    t.push(detached(data))
}

/// `t` with one more node, made the last child of the node at `parent`.
pub open spec fn with_child(t: TreeView, parent: int, data: NodeDataView) -> TreeView {
    t.update(
        parent,
        NodeView { children: t[parent].children.push(t.len() as int), ..t[parent] },
    ).push(NodeView { data, parent: Some(parent), children: Seq::empty() })
}

/// `t` with the content of the node at `id` replaced.
pub open spec fn with_data(t: TreeView, id: int, data: NodeDataView) -> TreeView {
    t.update(id, NodeView { data, ..t[id] })
}

/// The name of a node: a plain value that stays valid as long as the tree.
#[derive(Debug, Clone, Copy, PartialEq, Eq, Hash)]
pub struct NodeId {
    index: usize,
}

impl View for NodeId {
    type V = int;

    closed spec fn view(&self) -> int {
        self.index as int
    }
}

impl NodeId {
    /// The position of the node in its tree.
    pub fn index(&self) -> (r: usize)
        ensures
            r == self@,
    {
        self.index
    }
}

struct Node {
    data: NodeData,
    parent: Option<usize>,
    children: Vec<usize>,
}

spec fn node_view(n: Node) -> NodeView {
    NodeView {
        data: n.data@,
        parent: match n.parent {
            Some(p) => Some(p as int),
            None => None,
        },
        children: Seq::new(n.children@.len(), |k: int| n.children@[k] as int),
    }
}

spec fn nodes_view(v: Seq<Node>) -> TreeView {
    Seq::new(v.len(), |i: int| node_view(v[i]))
}

/// A forest of nodes.
pub struct Tree {
    nodes: Vec<Node>,
}

impl View for Tree {
    type V = TreeView;

    closed spec fn view(&self) -> TreeView {
        nodes_view(self.nodes@)
    }
}

proof fn lemma_with_root_ok(t: TreeView, data: NodeDataView)
    requires
        well_formed(t),
        data matches NodeDataView::Element { attributes, .. } ==> names_distinct(attributes),
    ensures
        well_formed(with_root(t, data)),
{
    let t2 = with_root(t, data);
    assert forall|id: int| 0 <= id < t2.len() implies #[trigger] node_ok(t2, id) by {
        if id < t.len() {
            assert(node_ok(t, id));
            assert(t2[id] == t[id]);
            match t[id].parent {
                Some(p) => {
                    assert(t2[p] == t[p]);
                },
                None => {},
            }
            assert forall|k: int| 0 <= k < t2[id].children.len() implies id
                < #[trigger] t2[id].children[k] < t2.len() && t2[t2[id].children[k]].parent
                == Some(id) by {
                assert(t2[t[id].children[k]] == t[t[id].children[k]]);
            }
        }
    }
}

proof fn lemma_with_child_ok(t: TreeView, parent: int, data: NodeDataView)
    requires
        well_formed(t),
        0 <= parent < t.len(),
        !is_leaf(t[parent].data),
        data matches NodeDataView::Element { attributes, .. } ==> names_distinct(attributes),
    ensures
        well_formed(with_child(t, parent, data)),
{
    let t2 = with_child(t, parent, data);
    let fresh = t.len() as int;
    assert(t2[parent].children == t[parent].children.push(fresh));
    assert(t2[parent].children[t[parent].children.len() as int] == fresh);
    assert forall|id: int| 0 <= id < t2.len() implies #[trigger] node_ok(t2, id) by {
        if id == fresh {
            assert(t2[parent].children.contains(fresh));
        } else {
            assert(node_ok(t, id));
            assert(node_ok(t, parent));
            match t[id].parent {
                Some(p) => {
                    let w = choose|w: int| 0 <= w < t[p].children.len() && t[p].children[w] == id;
                    assert(t2[p].children[w] == id);
                    assert(t2[p].children.contains(id));
                },
                None => {},
            }
            assert forall|k: int| 0 <= k < t2[id].children.len() implies id
                < #[trigger] t2[id].children[k] < t2.len() && t2[t2[id].children[k]].parent
                == Some(id) by {
                if id == parent && k == t[parent].children.len() {
                } else {
                    let c = t[id].children[k];
                    assert(id < c < t.len());
                    assert(t2[c].parent == t[c].parent);
                }
            }
            assert forall|j: int, k: int| 0 <= j < k < t2[id].children.len() implies
                #[trigger] t2[id].children[j] < #[trigger] t2[id].children[k] by {
                if id == parent && k == t[parent].children.len() {
                    assert(t[id].children[j] < t.len());
                } else {
                    assert(t[id].children[j] < t[id].children[k]);
                }
            }
        }
    }
}

/// Replacing the content of a node keeps a tree well formed, where a node
/// with children does not become a leaf and an element's attribute names
/// are distinct.
pub proof fn lemma_with_data_ok(t: TreeView, id: int, data: NodeDataView)
    requires
        well_formed(t),
        0 <= id < t.len(),
        is_leaf(data) ==> is_leaf(t[id].data),
        data matches NodeDataView::Element { attributes, .. } ==> names_distinct(attributes),
    ensures
        well_formed(with_data(t, id, data)),
{
    let t2 = with_data(t, id, data);
    assert forall|i: int| 0 <= i < t2.len() implies #[trigger] node_ok(t2, i) by {
        assert(node_ok(t, i));
        assert(node_ok(t, id));
        assert(t2[i].children == t[i].children);
        assert(t2[i].parent == t[i].parent);
        match t[i].parent {
            Some(p) => {
                assert(t2[p].children == t[p].children);
            },
            None => {},
        }
        assert forall|k: int| 0 <= k < t2[i].children.len() implies i
            < #[trigger] t2[i].children[k] < t2.len() && t2[t2[i].children[k]].parent == Some(
            i,
        ) by {
            let c = t[i].children[k];
            assert(i < c < t.len());
            assert(t2[c].parent == t[c].parent);
        }
    }
}

impl Tree {
    #[verifier::type_invariant]
    spec fn inv(self) -> bool {
        well_formed(self@)
    }

    /// A tree without nodes.
    pub fn new() -> (r: Tree)
        ensures
            r@ == Seq::<NodeView>::empty(),
    {
        Tree { nodes: Vec::new() }
    }

    /// The number of nodes, attached or not.
    pub fn len(&self) -> (r: usize)
        ensures
            r == self@.len(),
            well_formed(self@),
    {
        proof {
            use_type_invariant(self);
        }
        self.nodes.len()
    }

    /// Adds a node that has no parent, and gives its name.
    pub fn create(&mut self, data: NodeData) -> (id: NodeId)
        ensures
            id@ == old(self)@.len(),
            final(self)@ == with_root(old(self)@, data@),
            well_formed(final(self)@),
    {
        proof {
            use_type_invariant(&*self);
        }
        match &data {
            NodeData::Element(el) => {
                el.attributes.valid();
            },
            _ => {},
        }
        let ghost before = self@;
        let mut nodes: Vec<Node> = Vec::new();
        std::mem::swap(&mut nodes, &mut self.nodes);
        let index = nodes.len();
        nodes.push(Node { data, parent: None, children: Vec::new() });
        proof {
            let after = nodes_view(nodes@);
            let want = with_root(before, data@);
            assert(after.len() == want.len());
            assert forall|i: int| 0 <= i < after.len() implies after[i] == want[i] by {
                if i == index {
                    assert(after[i].children =~= want[i].children);
                }
            }
            assert(after =~= want);
            lemma_with_root_ok(before, data@);
        }
        self.nodes = nodes;
        NodeId { index }
    }

    /// Adds a node as the last child of `parent`, and gives its name.
    /// Nothing is added, and `None` returned, where `parent` names no node
    /// of this tree or names a leaf.
    pub fn append_child(&mut self, parent: NodeId, data: NodeData) -> (r: Option<NodeId>)
        ensures
            well_formed(final(self)@),
            match r {
                Some(id) => {
                    &&& parent@ < old(self)@.len()
                    &&& !is_leaf(old(self)@[parent@].data)
                    &&& id@ == old(self)@.len()
                    &&& final(self)@ == with_child(old(self)@, parent@, data@)
                },
                None => {
                    &&& !(parent@ < old(self)@.len() && !is_leaf(old(self)@[parent@].data))
                    &&& final(self)@ == old(self)@
                },
            },
    {
        proof {
            use_type_invariant(&*self);
        }
        let p = parent.index;
        if p >= self.nodes.len() {
            return None;
        }
        if self.nodes[p].data.is_leaf() {
            return None;
        }
        match &data {
            NodeData::Element(el) => {
                el.attributes.valid();
            },
            _ => {},
        }
        let ghost before = self@;
        let mut nodes: Vec<Node> = Vec::new();
        std::mem::swap(&mut nodes, &mut self.nodes);
        let index = nodes.len();
        nodes.push(Node { data, parent: Some(p), children: Vec::new() });
        let mut kids: Vec<usize> = Vec::new();
        std::mem::swap(&mut kids, &mut nodes[p].children);
        kids.push(index);
        std::mem::swap(&mut kids, &mut nodes[p].children);
        proof {
            let after = nodes_view(nodes@);
            let want = with_child(before, p as int, data@);
            assert(after.len() == want.len());
            assert forall|i: int| 0 <= i < after.len() implies after[i] == want[i] by {
                if i == p {
                    assert(after[i].children =~= want[i].children);
                } else if i == index {
                    assert(after[i].children =~= want[i].children);
                }
            }
            assert(after =~= want);
            lemma_with_child_ok(before, p as int, data@);
        }
        self.nodes = nodes;
        Some(NodeId { index })
    }

    /// Puts `data` in the place of the content of the node at `index`, and
    /// gives back what the node held.
    fn replace_data(&mut self, index: usize, data: NodeData) -> (prev: NodeData)
        requires
            index < old(self)@.len(),
            is_leaf(data@) ==> is_leaf(old(self)@[index as int].data),
            data@ matches NodeDataView::Element { attributes, .. } ==> names_distinct(attributes),
        ensures
            prev@ == old(self)@[index as int].data,
            final(self)@ == with_data(old(self)@, index as int, data@),
            well_formed(final(self)@),
    {
        proof {
            use_type_invariant(&*self);
        }
        let ghost before = self@;
        let ghost data_view = data@;
        let mut nodes: Vec<Node> = Vec::new();
        std::mem::swap(&mut nodes, &mut self.nodes);
        let mut slot = data;
        std::mem::swap(&mut slot, &mut nodes[index].data);
        proof {
            let after = nodes_view(nodes@);
            let want = with_data(before, index as int, data_view);
            assert(after.len() == want.len());
            assert forall|i: int| 0 <= i < after.len() implies after[i] == want[i] by {
                assert(after[i].children =~= want[i].children);
            }
            assert(after =~= want);
            lemma_with_data_ok(before, index as int, data_view);
        }
        self.nodes = nodes;
        slot
    }

    /// Replaces the characters of a text node. Nothing changes, and `false`
    /// is returned, where `id` does not name a text node of this tree.
    pub fn set_text(&mut self, id: NodeId, text: String) -> (r: bool)
        ensures
            well_formed(final(self)@),
            r == (id@ < old(self)@.len() && old(self)@[id@].data is Text),
            final(self)@ == if r {
                with_data(old(self)@, id@, NodeDataView::Text { text: text@ })
            } else {
                old(self)@
            },
    {
        proof {
            use_type_invariant(&*self);
        }
        if id.index >= self.nodes.len() {
            return false;
        }
        match &self.nodes[id.index].data {
            NodeData::Text(_) => {},
            _ => {
                return false;
            },
        }
        let _ = self.replace_data(id.index, NodeData::Text(text));
        true
    }

    /// Replaces the characters of a comment. Nothing changes, and `false` is
    /// returned, where `id` does not name a comment of this tree.
    pub fn set_comment(&mut self, id: NodeId, text: String) -> (r: bool)
        ensures
            well_formed(final(self)@),
            r == (id@ < old(self)@.len() && old(self)@[id@].data is Comment),
            final(self)@ == if r {
                with_data(old(self)@, id@, NodeDataView::Comment { text: text@ })
            } else {
                old(self)@
            },
    {
        proof {
            use_type_invariant(&*self);
        }
        if id.index >= self.nodes.len() {
            return false;
        }
        match &self.nodes[id.index].data {
            NodeData::Comment(_) => {},
            _ => {
                return false;
            },
        }
        let _ = self.replace_data(id.index, NodeData::Comment(text));
        true
    }

    /// Replaces the target and the data of a processing instruction. Nothing
    /// changes, and `false` is returned, where `id` does not name a
    /// processing instruction of this tree.
    pub fn set_processing_instruction(&mut self, id: NodeId, target: String, data: String) -> (r:
        bool)
        ensures
            well_formed(final(self)@),
            r == (id@ < old(self)@.len() && old(self)@[id@].data is ProcessingInstruction),
            final(self)@ == if r {
                with_data(
                    old(self)@,
                    id@,
                    NodeDataView::ProcessingInstruction { target: target@, data: data@ },
                )
            } else {
                old(self)@
            },
    {
        proof {
            use_type_invariant(&*self);
        }
        if id.index >= self.nodes.len() {
            return false;
        }
        match &self.nodes[id.index].data {
            NodeData::ProcessingInstruction(_, _) => {},
            _ => {
                return false;
            },
        }
        let _ = self.replace_data(id.index, NodeData::ProcessingInstruction(target, data));
        true
    }

    /// Stores `attr` under `name` among the attributes of an element, as
    /// [`Attributes::insert`] does. Nothing changes, and `false` is returned,
    /// where `id` does not name an element of this tree.
    pub fn set_attribute(&mut self, id: NodeId, name: ExpandedName, attr: Attribute) -> (r: bool)
        ensures
            well_formed(final(self)@),
            r == (id@ < old(self)@.len() && old(self)@[id@].data is Element),
            final(self)@ == if r {
                with_data(
                    old(self)@,
                    id@,
                    NodeDataView::Element {
                        name: old(self)@[id@].data->Element_name,
                        attributes: inserted(
                            old(self)@[id@].data->attributes,
                            name@,
                            attr@,
                        ),
                    },
                )
            } else {
                old(self)@
            },
    {
        proof {
            use_type_invariant(&*self);
        }
        if id.index >= self.nodes.len() {
            return false;
        }
        match &self.nodes[id.index].data {
            NodeData::Element(_) => {},
            _ => {
                return false;
            },
        }
        let ghost before = self@;
        let prev = self.replace_data(id.index, NodeData::Document);
        match prev {
            NodeData::Element(el) => {
                let mut el = el;
                let _ = el.attributes.insert(name, attr);
                let _ = self.replace_data(id.index, NodeData::Element(el));
                proof {
                    assert(self@ =~= with_data(
                        before,
                        id@,
                        NodeDataView::Element {
                            name: before[id@].data->Element_name,
                            attributes: inserted(before[id@].data->attributes, name@, attr@),
                        },
                    ));
                }
                true
            },
            other => {
                let _ = self.replace_data(id.index, other);
                false
            },
        }
    }

    /// Borrows the node that `id` names, if it names one of this tree.
    pub fn node(&self, id: NodeId) -> (r: Option<NodeRef<'_>>)
        ensures
            well_formed(self@),
            match r {
                Some(node) => id@ < self@.len() && node.nodes() == self@ && node.position() == id@,
                None => id@ >= self@.len(),
            },
    {
        proof {
            use_type_invariant(self);
        }
        if id.index < self.nodes.len() {
            Some(NodeRef { tree: self, index: id.index })
        } else {
            None
        }
    }
}

/// A node of a tree, borrowed for reading.
pub struct NodeRef<'a> {
    tree: &'a Tree,
    index: usize,
}

impl<'a> NodeRef<'a> {
    #[verifier::type_invariant]
    spec fn inv(self) -> bool {
        self.index < self.tree@.len()
    }

    /// The value of the tree this node belongs to.
    pub closed spec fn nodes(&self) -> TreeView {
        self.tree@
    }

    /// The position of this node in its tree.
    pub closed spec fn position(&self) -> int {
        self.index as int
    }

    /// The value of this node.
    pub open spec fn node(&self) -> NodeView {
        self.nodes()[self.position()]
    }

    /// Makes known to the caller's proof what holds of every borrowed node:
    /// it is a node of its tree, and the tree is well formed.
    pub fn valid(&self)
        ensures
            well_formed(self.nodes()),
            0 <= self.position() < self.nodes().len(),
    {
        proof {
            use_type_invariant(self);
            use_type_invariant(self.tree);
        }
    }

    /// The name of this node.
    pub fn id(&self) -> (r: NodeId)
        ensures
            r@ == self.position(),
    {
        NodeId { index: self.index }
    }

    /// The content of this node.
    pub fn data(&self) -> (r: &'a NodeData)
        ensures
            r@ == self.node().data,
    {
        proof {
            use_type_invariant(self);
        }
        &self.tree.nodes[self.index].data
    }

    /// The parent of this node, if it has one.
    pub fn parent(&self) -> (r: Option<NodeRef<'a>>)
        ensures
            match r {
                Some(p) => self.node().parent == Some(p.position()) && p.nodes() == self.nodes(),
                None => self.node().parent is None,
            },
    {
        proof {
            use_type_invariant(self);
            use_type_invariant(self.tree);
            assert(node_ok(self.tree@, self.index as int));
        }
        match self.tree.nodes[self.index].parent {
            Some(p) => Some(NodeRef { tree: self.tree, index: p }),
            None => None,
        }
    }

    /// The number of children of this node.
    pub fn child_count(&self) -> (r: usize)
        ensures
            r == self.node().children.len(),
    {
        proof {
            use_type_invariant(self);
        }
        self.tree.nodes[self.index].children.len()
    }

    /// The child at place `k` among the children of this node, as they are
    /// when the call is made.
    pub fn child(&self, k: usize) -> (r: Option<NodeRef<'a>>)
        ensures
            match r {
                Some(c) => k < self.node().children.len() && c.position()
                    == self.node().children[k as int] && c.nodes() == self.nodes()
                    && self.position() < c.position(),
                None => k >= self.node().children.len(),
            },
    {
        proof {
            use_type_invariant(self);
            use_type_invariant(self.tree);
            assert(node_ok(self.tree@, self.index as int));
        }
        let kids = &self.tree.nodes[self.index].children;
        if k < kids.len() {
            proof {
                assert(self.tree@[self.index as int].children[k as int] == kids@[k as int]);
            }
            Some(NodeRef { tree: self.tree, index: kids[k] })
        } else {
            None
        }
    }

    /// The children of this node, in order, as they are when the call is
    /// made.
    pub fn children(&self) -> (r: Vec<NodeRef<'a>>)
        ensures
            r@.len() == self.node().children.len(),
            forall|k: int|
                0 <= k < r@.len() ==> (#[trigger] r@[k]).position() == self.node().children[k]
                    && r@[k].nodes() == self.nodes(),
    {
        let n = self.child_count();
        let mut out: Vec<NodeRef<'a>> = Vec::new();
        let mut k: usize = 0;
        while k < n
            invariant
                k <= n,
                n == self.node().children.len(),
                out@.len() == k,
                forall|j: int|
                    0 <= j < k ==> (#[trigger] out@[j]).position() == self.node().children[j]
                        && out@[j].nodes() == self.nodes(),
            decreases n - k,
        {
            match self.child(k) {
                Some(c) => {
                    out.push(c);
                },
                None => {},
            }
            k += 1;
        }
        out
    }
}

} // verus!
