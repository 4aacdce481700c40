use vstd::prelude::*;

use crate::builder::{folded_root, fold_onto, with_children};
use crate::node::Tree;

verus! {

/// The scan record of `t`: its role and order, and a leaf per child.
pub open spec fn shallow(t: Tree) -> Tree {
    Tree {
        role: t.role,
        zorder: t.zorder,
        children: t.children.map_values(
            |c: Tree| Tree { role: c.role, zorder: c.zorder, children: Seq::empty() },
        ),
    }
}

/// Number of nodes in `t`.
pub open spec fn size(t: Tree) -> nat
    decreases t,
{
    1 + sizes(t.children)
}

/// Number of nodes in the trees of `ts`.
pub open spec fn sizes(ts: Seq<Tree>) -> nat
    decreases ts,
{
    if ts.len() == 0 {
        0
    } else {
        sizes(ts.drop_last()) + size(ts.last())
    }
}

/// Records in the order a depth-first scan with an explicit stack appends
/// them: the node, then its subtrees from the last child to the first.
pub open spec fn flat(t: Tree) -> Seq<Tree>
    decreases t,
{
    seq![shallow(t)] + flat_all(t.children)
}

/// Records of a stack of pending trees, taken from the top down.
pub open spec fn flat_all(ts: Seq<Tree>) -> Seq<Tree>
    decreases ts,
{
    if ts.len() == 0 {
        Seq::empty()
    } else {
        flat(ts.last()) + flat_all(ts.drop_last())
    }
}

pub proof fn lemma_sizes_concat(a: Seq<Tree>, b: Seq<Tree>)
    ensures
        sizes(a + b) == sizes(a) + sizes(b),
    decreases b.len(),
{
    if b.len() == 0 {
        assert(a + b =~= a);
    } else {
        lemma_sizes_concat(a, b.drop_last());
        assert((a + b).drop_last() =~= a + b.drop_last());
        assert((a + b).last() == b.last());
    }
}

/// The run of the explicit-stack scan over a service that serves the trees
/// on `work`: pop the top tree, append its record, push its children in
/// order.
pub open spec fn scan_run(work: Seq<Tree>, recs: Seq<Tree>) -> Seq<Tree>
    decreases sizes(work),
    via scan_run_decreases
{
    if work.len() == 0 {
        recs
    } else {
        let w = work.last();
        scan_run(work.drop_last() + w.children, recs.push(shallow(w)))
    }
}

#[via_fn]
proof fn scan_run_decreases(work: Seq<Tree>, recs: Seq<Tree>) {
    if work.len() != 0 {
        let w = work.last();
        lemma_sizes_concat(work.drop_last(), w.children);
        assert(sizes(work) == sizes(work.drop_last()) + size(w));
        assert(size(w) == 1 + sizes(w.children));
    }
}

proof fn lemma_flat_all_concat(a: Seq<Tree>, b: Seq<Tree>)
    ensures
        flat_all(a + b) == flat_all(b) + flat_all(a),
    decreases b.len(),
{
    if b.len() == 0 {
        assert(a + b =~= a);
        assert(flat_all(b) =~= Seq::empty());
        assert(flat_all(b) + flat_all(a) =~= flat_all(a));
    } else {
        lemma_flat_all_concat(a, b.drop_last());
        assert((a + b).drop_last() =~= a + b.drop_last());
        assert((a + b).last() == b.last());
        assert(flat_all(a + b) =~= flat_all(b) + flat_all(a));
    }
}

proof fn lemma_scan_run(work: Seq<Tree>, recs: Seq<Tree>)
    ensures
        scan_run(work, recs) == recs + flat_all(work),
    decreases sizes(work),
{
    if work.len() == 0 {
        assert(recs + flat_all(work) =~= recs);
    } else {
        let w = work.last();
        lemma_sizes_concat(work.drop_last(), w.children);
        assert(sizes(work) == sizes(work.drop_last()) + size(w));
        assert(size(w) == 1 + sizes(w.children));
        lemma_scan_run(work.drop_last() + w.children, recs.push(shallow(w)));
        lemma_flat_all_concat(work.drop_last(), w.children);
        assert(flat_all(work) == flat(w) + flat_all(work.drop_last()));
        assert(flat(w) == seq![shallow(w)] + flat_all(w.children));
        assert(recs.push(shallow(w)) + (flat_all(w.children) + flat_all(work.drop_last()))
            =~= recs + flat_all(work));
    }
}

proof fn lemma_fold_concat(stack: Seq<Tree>, x: Seq<Tree>, y: Seq<Tree>)
    ensures
        fold_onto(stack, x + y) == match fold_onto(stack, y) {
            Some(s) => fold_onto(s, x),
            None => None,
        },
    decreases y.len(),
{
    if y.len() == 0 {
        assert(x + y =~= x);
    } else {
        assert((x + y).drop_last() =~= x + y.drop_last());
        assert((x + y).last() == y.last());
        let rec = y.last();
        let k = rec.children.len();
        if k <= stack.len() {
            let b = stack.len() - k;
            let next = stack.subrange(0, b).push(
                with_children(rec, stack.subrange(b, stack.len() as int)),
            );
            lemma_fold_concat(next, x, y.drop_last());
        }
    }
}

proof fn lemma_fold_flat(stack: Seq<Tree>, t: Tree)
    ensures
        fold_onto(stack, flat(t)) == Some(stack.push(t)),
    decreases t,
{
    let cs = t.children;
    lemma_fold_flat_all(stack, cs);
    lemma_fold_concat(stack, seq![shallow(t)], flat_all(cs));
    let s = stack + cs;
    let b = s.len() - cs.len();
    assert(s.subrange(0, b) =~= stack);
    assert(s.subrange(b, s.len() as int) =~= cs);
    assert(with_children(shallow(t), cs) == t);
    assert(seq![shallow(t)].drop_last() =~= Seq::empty());
    assert(seq![shallow(t)].last() == shallow(t));
    assert(shallow(t).children.len() == cs.len());
    assert(fold_onto(s, seq![shallow(t)]) == fold_onto(stack.push(t), Seq::empty()));
    assert(flat(t) == seq![shallow(t)] + flat_all(cs));
}

proof fn lemma_fold_flat_all(stack: Seq<Tree>, ts: Seq<Tree>)
    ensures
        fold_onto(stack, flat_all(ts)) == Some(stack + ts),
    decreases ts,
{
    if ts.len() == 0 {
        assert(stack + ts =~= stack);
    } else {
        let rest = ts.drop_last();
        lemma_fold_flat_all(stack, rest);
        lemma_fold_concat(stack, flat(ts.last()), flat_all(rest));
        lemma_fold_flat(stack + rest, ts.last());
        assert((stack + rest).push(ts.last()) =~= stack + ts);
    }
}

/// Scanning any finite tree with the explicit work stack and then folding the
/// records gives back exactly that tree: the same roles, orders and ordered
/// children at every level, as a plain recursive walk would build it.
pub proof fn lemma_scan_then_fold(t: Tree)
    ensures
        folded_root(scan_run(seq![t], Seq::empty())) == Some(t),
{
    lemma_scan_run(seq![t], Seq::empty());
    assert(seq![t].drop_last() =~= Seq::<Tree>::empty());
    assert(flat_all(Seq::<Tree>::empty()) =~= Seq::empty());
    assert(flat_all(seq![t]) =~= flat(t));
    assert(Seq::<Tree>::empty() + flat_all(seq![t]) =~= flat(t));
    lemma_fold_flat(Seq::empty(), t);
    assert(Seq::<Tree>::empty().push(t) =~= seq![t]);
}

/// Sum of the child counts that the records `recs` report.
pub open spec fn reported_children(recs: Seq<Tree>) -> nat
    decreases recs.len(),
{
    if recs.len() == 0 {
        0
    } else {
        reported_children(recs.drop_last()) + recs.last().children.len()
    }
}

proof fn lemma_reported_concat(a: Seq<Tree>, b: Seq<Tree>)
    ensures
        reported_children(a + b) == reported_children(a) + reported_children(b),
    decreases b.len(),
{
    if b.len() == 0 {
        assert(a + b =~= a);
    } else {
        lemma_reported_concat(a, b.drop_last());
        assert((a + b).drop_last() =~= a + b.drop_last());
        assert((a + b).last() == b.last());
    }
}

proof fn lemma_count_flat(t: Tree)
    ensures
        size(t) == 1 + reported_children(flat(t)),
    decreases t,
{
    lemma_count_flat_all(t.children);
    lemma_reported_concat(seq![shallow(t)], flat_all(t.children));
    assert(seq![shallow(t)].drop_last() =~= Seq::empty());
    assert(reported_children(seq![shallow(t)].drop_last()) == 0);
    assert(shallow(t).children.len() == t.children.len());
    assert(reported_children(seq![shallow(t)]) == t.children.len());
}

proof fn lemma_count_flat_all(ts: Seq<Tree>)
    ensures
        sizes(ts) == ts.len() + reported_children(flat_all(ts)),
    decreases ts,
{
    if ts.len() > 0 {
        lemma_count_flat(ts.last());
        lemma_count_flat_all(ts.drop_last());
        lemma_reported_concat(flat(ts.last()), flat_all(ts.drop_last()));
    } else {
        assert(flat_all(ts) =~= Seq::empty());
    }
}

/// The tree a scan of `t` rebuilds has one node more than the sum, over all
/// the scanned nodes, of the child counts they reported; and the scan makes
/// one record per node.
pub proof fn lemma_node_count(t: Tree)
    ensures
        size(t) == 1 + reported_children(scan_run(seq![t], Seq::empty())),
        size(t) == scan_run(seq![t], Seq::empty()).len(),
{
    lemma_scan_run(seq![t], Seq::empty());
    assert(seq![t].drop_last() =~= Seq::<Tree>::empty());
    assert(flat_all(Seq::<Tree>::empty()) =~= Seq::empty());
    assert(flat_all(seq![t]) =~= flat(t));
    assert(Seq::<Tree>::empty() + flat_all(seq![t]) =~= flat(t));
    lemma_count_flat(t);
    lemma_len_flat(t);
}

proof fn lemma_len_flat(t: Tree)
    ensures
        flat(t).len() == size(t),
    decreases t,
{
    lemma_len_flat_all(t.children);
}

proof fn lemma_len_flat_all(ts: Seq<Tree>)
    ensures
        flat_all(ts).len() == sizes(ts),
    decreases ts,
{
    if ts.len() > 0 {
        lemma_len_flat(ts.last());
        lemma_len_flat_all(ts.drop_last());
    }
}

/// `a` and `b` list records of the same roles, orders and child counts.
pub open spec fn same_shape(a: Seq<Tree>, b: Seq<Tree>) -> bool {
    &&& a.len() == b.len()
    &&& forall|i: int|
        0 <= i < a.len() ==> {
            &&& #[trigger] a[i].role == b[i].role
            &&& a[i].zorder == b[i].zorder
            &&& a[i].children.len() == b[i].children.len()
        }
}

proof fn lemma_fold_reads_shape(stack: Seq<Tree>, a: Seq<Tree>, b: Seq<Tree>)
    requires
        same_shape(a, b),
    ensures
        fold_onto(stack, a) == fold_onto(stack, b),
    decreases a.len(),
{
    if a.len() > 0 {
        let k = a.last().children.len();
        assert(a.last().role == b.last().role);
        if k <= stack.len() {
            let at = stack.len() - k;
            let kids = stack.subrange(at, stack.len() as int);
            assert(with_children(a.last(), kids) == with_children(b.last(), kids));
            let next = stack.subrange(0, at).push(with_children(a.last(), kids));
            assert(same_shape(a.drop_last(), b.drop_last())) by {
                assert forall|i: int| 0 <= i < a.drop_last().len() implies #[trigger] a.drop_last()[i].role
                    == b.drop_last()[i].role && a.drop_last()[i].zorder == b.drop_last()[i].zorder
                    && a.drop_last()[i].children.len() == b.drop_last()[i].children.len() by {
                    assert(a[i].role == b[i].role);
                }
            }
            lemma_fold_reads_shape(next, a.drop_last(), b.drop_last());
        }
    }
}

/// The fold reads of each record only its role, its order and how many
/// children it has: any records of the same shapes as a scan of `t` (whatever
/// their placeholder children carry) fold back into `t`.
pub proof fn lemma_shaped_records_fold(t: Tree, recs: Seq<Tree>)
    requires
        same_shape(recs, scan_run(seq![t], Seq::empty())),
    ensures
        folded_root(recs) == Some(t),
{
    lemma_fold_reads_shape(Seq::empty(), recs, scan_run(seq![t], Seq::empty()));
    lemma_scan_then_fold(t);
}

} // verus!
