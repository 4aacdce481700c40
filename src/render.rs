use vstd::prelude::*;

use crate::node::{A11yNode, Tree};

verus! {

/// One glyph column in front of a rendered node.
#[derive(Clone, Copy, Debug, PartialEq, Eq, Structural)]
pub enum Connector {
    /// Under an ancestor that was the last of its siblings.
    Blank,
    /// Under an ancestor that has siblings after it.
    Vertical,
    /// The node's own column, when siblings follow it.
    Branch,
    /// The node's own column, when it is the last of its siblings.
    End,
}

/// One rendered node: its connector columns, then its role.
pub struct Line {
    pub connectors: Vec<Connector>,
    pub role: u32,
}

impl View for Line {
    type V = (Seq<Connector>, u32);

    open spec fn view(&self) -> (Seq<Connector>, u32) {
        (self.connectors@, self.role)
    }
}

/// The connector in column `i` for a node whose ancestors' and own
/// last-sibling flags are `last`.
pub open spec fn connector_at(last: Seq<bool>, i: int) -> Connector {
    if i == last.len() - 1 {
        if last[i] {
            Connector::End
        } else {
            Connector::Branch
        }
    } else if last[i] {
        Connector::Blank
    } else {
        Connector::Vertical
    }
}

/// The connector columns for the flags `last`.
pub open spec fn connectors_for(last: Seq<bool>) -> Seq<Connector> {
    Seq::new(last.len(), |i: int| connector_at(last, i))
}

/// Lines of `t` and its subtrees, in preorder, when `t` sits under flags
/// `last`.
pub open spec fn lines_of(t: Tree, last: Seq<bool>) -> Seq<(Seq<Connector>, u32)>
    decreases t,
{
    seq![(connectors_for(last), t.role)] + child_lines(t.children, last, t.children.len())
}

/// Lines of the first children `cs` of a node with `total` children.
pub open spec fn child_lines(cs: Seq<Tree>, last: Seq<bool>, total: nat) -> Seq<(Seq<Connector>, u32)>
    decreases cs,
{
    if cs.len() == 0 {
        Seq::empty()
    } else {
        child_lines(cs.drop_last(), last, total) + lines_of(
            cs.last(),
            last.push(cs.len() == total),
        )
    }
}

/// The models of `lines`, in order.
pub open spec fn line_views(lines: Seq<Line>) -> Seq<(Seq<Connector>, u32)> {
    lines.map_values(|l: Line| l@)
}

fn connectors_line(last: &Vec<bool>) -> (r: Vec<Connector>)
    ensures
        r@ == connectors_for(last@),
{
    let mut out: Vec<Connector> = Vec::new();
    let mut i: usize = 0;
    while i < last.len()
        invariant
            i <= last@.len(),
            out@ =~= connectors_for(last@).subrange(0, i as int),
        decreases last@.len() - i,
    {
        let c = if i == last.len() - 1 {
            if last[i] {
                Connector::End
            } else {
                Connector::Branch
            }
        } else if last[i] {
            Connector::Blank
        } else {
            Connector::Vertical
        };
        out.push(c);
        i = i + 1;
    }
    out
}

fn render_into(node: &A11yNode, last: &mut Vec<bool>, out: &mut Vec<Line>)
    ensures
        final(last)@ == old(last)@,
        line_views(final(out)@) == line_views(old(out)@) + lines_of(node@, old(last)@),
    decreases node,
{
    let ghost start = line_views(out@);
    let ghost flags = last@;
    let line = Line { connectors: connectors_line(last), role: node.role };
    out.push(line);
    assert(line_views(out@) =~= start + seq![(connectors_for(flags), node@.role)]);
    let n = node.children.len();
    let mut i: usize = 0;
    while i < n
        invariant
            n == node.children@.len(),
            i <= n,
            last@ == flags,
            line_views(out@) == start + seq![(connectors_for(flags), node@.role)] + child_lines(
                node@.children.subrange(0, i as int),
                flags,
                n as nat,
            ),
        decreases n - i,
    {
        let child: &A11yNode = &node.children[i];
        assert(child@ == node@.children[i as int]);
        let ghost before = line_views(out@);
        last.push(i + 1 == n);
        render_into(child, last, out);
        last.pop();
        assert(last@ =~= flags);
        let ghost cs = node@.children.subrange(0, i + 1);
        assert(cs.drop_last() =~= node@.children.subrange(0, i as int));
        assert(cs.last() == child@);
        assert(flags.push(i + 1 == n) == flags.push(cs.len() == n as nat));
        i = i + 1;
    }
    assert(node@.children.subrange(0, n as int) =~= node@.children);
}

impl A11yNode {
    /// The tree drawn one line per node, the root first, each node's children
    /// below it in order.
    pub fn render(&self) -> (r: Vec<Line>)
        ensures
            line_views(r@) == lines_of(self@, Seq::empty()),
    {
        let mut out: Vec<Line> = Vec::new();
        let mut last: Vec<bool> = Vec::new();
        render_into(self, &mut last, &mut out);
        assert(line_views(Seq::<Line>::empty()) =~= Seq::empty());
        assert(Seq::<(Seq<Connector>, u32)>::empty() + lines_of(self@, Seq::empty()) =~= lines_of(self@, Seq::empty()));
        out
    }
}

/// A node without children renders as a single line with no connectors.
pub proof fn lemma_leaf_single_line(t: Tree)
    requires
        t.children.len() == 0,
    ensures
        lines_of(t, Seq::empty()) == seq![(Seq::<Connector>::empty(), t.role)],
{
    assert(child_lines(t.children, Seq::empty(), 0) =~= Seq::empty());
    assert(connectors_for(Seq::empty()) =~= Seq::<Connector>::empty());
    assert(lines_of(t, Seq::empty()) =~= seq![(Seq::<Connector>::empty(), t.role)]);
}

} // verus!
