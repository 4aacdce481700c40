use vstd::prelude::*;

use crate::node::{A11yNode, Tree};
use crate::scan::{shallow, scan_run, sizes, size, lemma_node_count};

verus! {

/// The models of the nodes `nodes` points to, in order.
pub open spec fn ref_views(nodes: Seq<&A11yNode>) -> Seq<Tree> {
    nodes.map_values(|n: &A11yNode| n@)
}

/// The nodes a depth-first walk with an explicit stack visits: pop the top
/// tree, emit it, push its children in order.
pub open spec fn walk(work: Seq<Tree>, out: Seq<Tree>) -> Seq<Tree>
    decreases sizes(work),
    via walk_decreases
{
    if work.len() == 0 {
        out
    } else {
        let w = work.last();
        walk(work.drop_last() + w.children, out.push(w))
    }
}

#[via_fn]
proof fn walk_decreases(work: Seq<Tree>, out: Seq<Tree>) {
    if work.len() != 0 {
        let w = work.last();
        crate::scan::lemma_sizes_concat(work.drop_last(), w.children);
        assert(sizes(work) == sizes(work.drop_last()) + size(w));
        assert(size(w) == 1 + sizes(w.children));
    }
}

proof fn lemma_walk_scan(work: Seq<Tree>, out: Seq<Tree>)
    ensures
        walk(work, out).map_values(|t: Tree| shallow(t)) == scan_run(
            work,
            out.map_values(|t: Tree| shallow(t)),
        ),
    decreases sizes(work),
{
    if work.len() != 0 {
        let w = work.last();
        crate::scan::lemma_sizes_concat(work.drop_last(), w.children);
        assert(sizes(work) == sizes(work.drop_last()) + size(w));
        assert(size(w) == 1 + sizes(w.children));
        lemma_walk_scan(work.drop_last() + w.children, out.push(w));
        assert(out.push(w).map_values(|t: Tree| shallow(t)) =~= out.map_values(
            |t: Tree| shallow(t),
        ).push(shallow(w)));
    }
}

/// A walk from the root visits every node once: as many nodes as the tree
/// holds, each seen as the scan of the same tree records it.
pub proof fn lemma_walk_covers(t: Tree)
    ensures
        walk(seq![t], Seq::empty()).len() == size(t),
        walk(seq![t], Seq::empty()).map_values(|n: Tree| shallow(n)) == scan_run(
            seq![t],
            Seq::empty(),
        ),
{
    lemma_walk_scan(seq![t], Seq::empty());
    assert(Seq::<Tree>::empty().map_values(|n: Tree| shallow(n)) =~= Seq::empty());
    lemma_node_count(t);
}

impl A11yNode {
    /// All nodes of the tree, the root first, in the order of a depth-first
    /// walk with an explicit stack.
    pub fn as_vec(&self) -> (r: Vec<&A11yNode>)
        ensures
            ref_views(r@) == walk(seq![self@], Seq::empty()),
    {
        let mut nodes: Vec<&A11yNode> = Vec::new();
        let mut stack: Vec<&A11yNode> = Vec::new();
        stack.push(self);
        assert(ref_views(stack@) =~= seq![self@]);
        assert(ref_views(nodes@) =~= Seq::empty());
        while stack.len() > 0
            invariant
                walk(ref_views(stack@), ref_views(nodes@)) == walk(seq![self@], Seq::empty()),
            decreases sizes(ref_views(stack@)),
        {
            let ghost before = ref_views(stack@);
            let ghost before_out = ref_views(nodes@);
            let node = stack.pop().unwrap();
            assert(ref_views(stack@) =~= before.drop_last());
            assert(node@ == before.last());
            nodes.push(node);
            assert(ref_views(nodes@) =~= before_out.push(node@));
            let ghost mid = ref_views(stack@);
            let mut i: usize = 0;
            while i < node.children.len()
                invariant
                    i <= node.children@.len(),
                    ref_views(stack@) =~= mid + node@.children.subrange(0, i as int),
                decreases node.children@.len() - i,
            {
                let child: &A11yNode = &node.children[i];
                assert(*child == node.children@[i as int]);
                assert(node@.children[i as int] == child@);
                let ghost pre = stack@;
                stack.push(child);
                assert(ref_views(stack@) =~= ref_views(pre).push(child@));
                assert(ref_views(stack@) =~= mid + node@.children.subrange(0, i + 1));
                i = i + 1;
            }
            assert(node@.children.subrange(0, node@.children.len() as int) =~= node@.children);
            proof {
                let w = before.last();
                crate::scan::lemma_sizes_concat(before.drop_last(), w.children);
                assert(sizes(before) == sizes(before.drop_last()) + size(w));
                assert(size(w) == 1 + sizes(w.children));
                assert(walk(before, before_out) == walk(before.drop_last() + w.children, before_out.push(w)));
            }
        }
        assert(ref_views(stack@) =~= Seq::empty());
        nodes
    }
}

/// `s` is in ascending order of stacking order.
pub open spec fn ascending(s: Seq<Tree>) -> bool {
    forall|i: int, j: int| 0 <= i < j < s.len() ==> s[i].zorder <= s[j].zorder
}

/// `x` inserted into `s` after every element whose stacking order is not
/// above its own.
pub open spec fn insert_ranked(s: Seq<Tree>, x: Tree) -> Seq<Tree>
    decreases s.len(),
{
    if s.len() == 0 {
        seq![x]
    } else if s.last().zorder <= x.zorder {
        s.push(x)
    } else {
        insert_ranked(s.drop_last(), x).push(s.last())
    }
}

/// `s` ranked by ascending stacking order; of two equal orders, the earlier
/// element of `s` comes first.
pub open spec fn ranked(s: Seq<Tree>) -> Seq<Tree>
    decreases s.len(),
{
    if s.len() == 0 {
        s
    } else {
        insert_ranked(ranked(s.drop_last()), s.last())
    }
}

proof fn lemma_insert_at(s: Seq<Tree>, x: Tree, j: int)
    requires
        0 <= j <= s.len(),
        j > 0 ==> s[j - 1].zorder <= x.zorder,
        forall|k: int| j <= k < s.len() ==> s[k].zorder > x.zorder,
    ensures
        insert_ranked(s, x) == s.insert(j, x),
    decreases s.len(),
{
    if s.len() == 0 {
        assert(s.insert(j, x) =~= seq![x]);
    } else if j == s.len() {
        assert(s.insert(j, x) =~= s.push(x));
    } else {
        lemma_insert_at(s.drop_last(), x, j);
        assert(s.insert(j, x) =~= s.drop_last().insert(j, x).push(s.last()));
    }
}

proof fn lemma_insert_bounded(s: Seq<Tree>, x: Tree, bound: i16)
    requires
        forall|k: int| 0 <= k < s.len() ==> s[k].zorder <= bound,
        x.zorder <= bound,
    ensures
        forall|k: int| 0 <= k < insert_ranked(s, x).len() ==> insert_ranked(s, x)[k].zorder <= bound,
        insert_ranked(s, x).len() == s.len() + 1,
    decreases s.len(),
{
    if s.len() > 0 && s.last().zorder > x.zorder {
        lemma_insert_bounded(s.drop_last(), x, bound);
    }
}

proof fn lemma_insert_ascending(s: Seq<Tree>, x: Tree)
    requires
        ascending(s),
    ensures
        ascending(insert_ranked(s, x)),
    decreases s.len(),
{
    if s.len() > 0 && s.last().zorder > x.zorder {
        let d = s.drop_last();
        lemma_insert_ascending(d, x);
        lemma_insert_bounded(d, x, s.last().zorder);
    }
}

proof fn lemma_ranked_ascending(s: Seq<Tree>)
    ensures
        ascending(ranked(s)),
        ranked(s).len() == s.len(),
    decreases s.len(),
{
    if s.len() > 0 {
        lemma_ranked_ascending(s.drop_last());
        lemma_insert_ascending(ranked(s.drop_last()), s.last());
        lemma_insert_bounded(ranked(s.drop_last()), s.last(), i16::MAX);
    }
}

proof fn lemma_ranked_of_ascending(s: Seq<Tree>)
    requires
        ascending(s),
    ensures
        ranked(s) == s,
    decreases s.len(),
{
    if s.len() > 0 {
        let d = s.drop_last();
        lemma_ranked_of_ascending(d);
        assert(s.drop_last().push(s.last()) =~= s);
    }
}

proof fn lemma_insert_permutes(s: Seq<Tree>, x: Tree)
    ensures
        insert_ranked(s, x).to_multiset() == s.to_multiset().insert(x),
    decreases s.len(),
{
    broadcast use vstd::seq_lib::to_multiset_build;

    if s.len() == 0 {
        assert(s =~= Seq::<Tree>::empty());
        assert(seq![x] =~= s.push(x));
    } else if s.last().zorder > x.zorder {
        let d = s.drop_last();
        lemma_insert_permutes(d, x);
        assert(d.push(s.last()) =~= s);
        assert(insert_ranked(s, x).to_multiset() =~= s.to_multiset().insert(x));
    }
}

proof fn lemma_ranked_permutes(s: Seq<Tree>)
    ensures
        ranked(s).to_multiset() == s.to_multiset(),
    decreases s.len(),
{
    broadcast use vstd::seq_lib::to_multiset_build;

    if s.len() > 0 {
        lemma_ranked_permutes(s.drop_last());
        lemma_insert_permutes(ranked(s.drop_last()), s.last());
        assert(s.drop_last().push(s.last()) =~= s);
    }
}

/// A ranking lists the same nodes in ascending stacking order, compared as
/// integers, and ranking a ranked sequence again changes nothing.
pub proof fn lemma_ranking_ordered_and_idempotent(s: Seq<Tree>)
    ensures
        ascending(ranked(s)),
        ranked(s).len() == s.len(),
        ranked(s).to_multiset() == s.to_multiset(),
        ranked(ranked(s)) == ranked(s),
{
    lemma_ranked_ascending(s);
    lemma_ranked_permutes(s);
    lemma_ranked_of_ascending(ranked(s));
}

/// `nodes` ranked by ascending stacking order; equal orders keep the order
/// they had in `nodes`.
pub fn rank<'a>(nodes: &Vec<&'a A11yNode>) -> (r: Vec<&'a A11yNode>)
    ensures
        ref_views(r@) == ranked(ref_views(nodes@)),
{
    let mut out: Vec<&'a A11yNode> = Vec::new();
    let mut i: usize = 0;
    while i < nodes.len()
        invariant
            i <= nodes@.len(),
            ref_views(out@) == ranked(ref_views(nodes@).subrange(0, i as int)),
        decreases nodes@.len() - i,
    {
        let x: &'a A11yNode = nodes[i];
        let mut j: usize = out.len();
        while j > 0 && out[j - 1].zorder > x.zorder
            invariant
                j <= out@.len(),
                forall|k: int| j <= k < out@.len() ==> out@[k].zorder > x.zorder,
            decreases j,
        {
            j = j - 1;
        }
        let ghost before = ref_views(out@);
        proof {
            lemma_insert_at(before, x@, j as int);
        }
        out.insert(j, x);
        assert(ref_views(out@) =~= before.insert(j as int, x@));
        assert(ref_views(nodes@).subrange(0, i + 1).drop_last() =~= ref_views(nodes@).subrange(0, i as int));
        i = i + 1;
    }
    assert(ref_views(nodes@).subrange(0, nodes@.len() as int) =~= ref_views(nodes@));
    out
}

/// The `n` highest-ranked entries of a ranking, highest first.
pub fn top_n<'a>(ranking: &Vec<&'a A11yNode>, n: usize) -> (r: Vec<&'a A11yNode>)
    ensures
        r@.len() == if n < ranking@.len() { n as int } else { ranking@.len() as int },
        forall|i: int| 0 <= i < r@.len() ==> r@[i] == ranking@[ranking@.len() - 1 - i],
{
    let mut out: Vec<&'a A11yNode> = Vec::new();
    let mut i: usize = 0;
    while i < n && i < ranking.len()
        invariant
            i <= ranking@.len(),
            i <= n,
            out@.len() == i,
            forall|k: int| 0 <= k < i ==> out@[k] == ranking@[ranking@.len() - 1 - k],
        decreases ranking@.len() - i,
    {
        out.push(ranking[ranking.len() - 1 - i]);
        i = i + 1;
    }
    out
}

} // verus!
