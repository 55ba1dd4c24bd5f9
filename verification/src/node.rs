//! The tree element shared by every renderer.

use vstd::prelude::*;

verus! {

/// One element of the prompt tree.
///
/// A node is a *leaf* when `children` is absent or empty; a leaf's
/// `content` is its value.  A node with a non-empty `children` vector is
/// a *branch*.  `id` is carried for the caller's benefit and never read
/// by a renderer; `is_list` is likewise carried but does not take part
/// in any structural decision.
pub struct Node {
    pub id: String,
    pub tag: String,
    pub content: String,
    pub is_list: Option<bool>,
    pub children: Option<Vec<Node>>,
}

/// The mathematical image of a [`Node`]: strings become character
/// sequences and the two "no children" shapes (`None` and an empty
/// vector), which every renderer treats alike, collapse into an empty
/// child sequence.
pub struct NodeView {
    pub id: Seq<char>,
    pub tag: Seq<char>,
    pub content: Seq<char>,
    pub is_list: Option<bool>,
    pub children: Seq<NodeView>,
}

impl View for Node {
    type V = NodeView;

    open spec fn view(&self) -> NodeView
        decreases *self,
    {
        NodeView {
            id: self.id@,
            tag: self.tag@,
            content: self.content@,
            is_list: self.is_list,
            children: match self.children {
                Option::Some(v) => {
                    proof {
                        assert(decreases_to!(*self => self.children));
                        assert(decreases_to!(self.children => v));
                        assert(decreases_to!(v => v@));
                    }
                    forest_view(v@)
                },
                Option::None => Seq::empty(),
            },
        }
    }
}

/// The sequence of views of a sequence of nodes.
pub open spec fn forest_view(nodes: Seq<Node>) -> Seq<NodeView>
    decreases nodes,
{
    if nodes.len() == 0 {
        Seq::empty()
    } else {
        Seq::empty().push(nodes[0]@) + forest_view(nodes.subrange(1, nodes.len() as int))
    }
}

/// `forest_view` is the pointwise image of the node sequence.
pub proof fn lemma_forest_view(nodes: Seq<Node>)
    ensures
        forest_view(nodes).len() == nodes.len(),
        forall|i: int| 0 <= i < nodes.len() ==> forest_view(nodes)[i] == nodes[i]@,
    decreases nodes.len(),
{
    if nodes.len() > 0 {
        let rest = nodes.subrange(1, nodes.len() as int);
        lemma_forest_view(rest);
        assert(forest_view(nodes) == Seq::empty().push(nodes[0]@) + forest_view(rest));
        assert(forall|i: int|
            0 <= i < nodes.len() ==> forest_view(nodes)[i] == #[trigger] nodes[i]@) by {
            assert(forall|i: int| 1 <= i < nodes.len() ==> rest[i - 1] == #[trigger] nodes[i]);
        }
    } else {
        assert(forest_view(nodes).len() == 0);
    }
}

/// The height of a node: one more than the height of its children.
pub open spec fn node_height(n: NodeView) -> nat
    decreases n,
{
    1 + forest_height(n.children)
}

/// The largest height among the nodes of a forest; zero when empty.
pub open spec fn forest_height(s: Seq<NodeView>) -> nat
    decreases s,
{
    if s.len() == 0 {
        0
    } else if node_height(s[0]) >= forest_height(s.subrange(1, s.len() as int)) {
        node_height(s[0])
    } else {
        forest_height(s.subrange(1, s.len() as int))
    }
}

/// Every node of a forest stays within the forest's height.
pub proof fn lemma_forest_height(s: Seq<NodeView>)
    ensures
        forall|i: int| 0 <= i < s.len() ==> node_height(s[i]) <= forest_height(s),
    decreases s.len(),
{
    if s.len() > 0 {
        let rest = s.subrange(1, s.len() as int);
        lemma_forest_height(rest);
        assert(forall|i: int| 1 <= i < s.len() ==> rest[i - 1] == #[trigger] s[i]);
        assert(forest_height(rest) <= forest_height(s));
    }
}

} // verus!
