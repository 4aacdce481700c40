use vstd::prelude::*;

verus! {

/// Mathematical model of an accessibility node: its role code, its stacking
/// order and its ordered subtrees.
pub struct Tree {
    pub role: u32,
    pub zorder: i16,
    pub children: Seq<Tree>,
}

/// A node of the reconstructed accessibility hierarchy.
pub struct A11yNode {
    /// Numeric code of the node's role.
    pub role: u32,
    /// Stacking order, or the sentinel when not applicable.
    pub zorder: i16,
    /// Subtrees, in the order the remote service reported them.
    pub children: Vec<A11yNode>,
}

/// The model of a node and everything below it.
pub open spec fn tree_of(n: A11yNode) -> Tree
    decreases n,
{
    Tree {
        role: n.role,
        zorder: n.zorder,
        children: Seq::new(
            n.children@.len(),
            |i: int|
                if 0 <= i < n.children@.len() {
                    tree_of(n.children@[i])
                } else {
                    arbitrary()
                },
        ),
    }
}

impl View for A11yNode {
    type V = Tree;

    open spec fn view(&self) -> Tree {
        tree_of(*self)
    }
}

} // verus!
