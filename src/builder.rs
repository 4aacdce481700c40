use vstd::prelude::*;

use crate::node::{A11yNode, Tree};

verus! {

/// Child count above which a build gives up and reports the node instead.
pub const CHILD_COUNT_LIMIT: i64 = 100000;

/// Stacking order of a node for which none applies.
pub const NO_ZORDER: i16 = -1;

/// Why a build stopped without a tree.
#[derive(Debug, PartialEq, Eq)]
pub enum BuildError {
    /// A node reported more children than the configured limit allows.
    ChildCountTooHigh { reported: i64 },
    /// The fold stack did not reduce to exactly one root.
    FoldInvariant,
}

/// The tree `rec` with its placeholder children replaced by `subtrees`.
pub open spec fn with_children(rec: Tree, subtrees: Seq<Tree>) -> Tree {
    Tree { role: rec.role, zorder: rec.zorder, children: subtrees }
}

/// Folds `recs` onto `stack`, consuming the records from the last one back to
/// the first. A record with `k` placeholder children takes the top `k`
/// subtrees of the stack as its children. `None` when a record asks for more
/// subtrees than the stack holds.
pub open spec fn fold_onto(stack: Seq<Tree>, recs: Seq<Tree>) -> Option<Seq<Tree>>
    decreases recs.len(),
{
    if recs.len() == 0 {
        Some(stack)
    } else {
        let rec = recs.last();
        let k = rec.children.len();
        if k > stack.len() {
            None
        } else {
            let b = stack.len() - k;
            fold_onto(
                stack.subrange(0, b).push(with_children(rec, stack.subrange(b, stack.len() as int))),
                recs.drop_last(),
            )
        }
    }
}

/// The root that folding `recs` yields, if the fold leaves exactly one tree.
pub open spec fn folded_root(recs: Seq<Tree>) -> Option<Tree> {
    match fold_onto(Seq::empty(), recs) {
        Some(s) => if s.len() == 1 { Some(s[0]) } else { None },
        None => None,
    }
}

/// The models of `nodes`, in order.
pub open spec fn views(nodes: Seq<A11yNode>) -> Seq<Tree> {
    nodes.map_values(|n: A11yNode| n@)
}

/// Reassembles a tree from the scan records. Each record's children are
/// placeholders; only their number is read.
pub fn fold_records(records: Vec<A11yNode>) -> (r: Result<A11yNode, BuildError>)
    ensures
        match folded_root(views(records@)) {
            Some(t) => r matches Ok(n) && n@ == t,
            None => r matches Err(BuildError::FoldInvariant),
        },
{
    let mut nodes = records;
    let mut fold_stack: Vec<A11yNode> = Vec::new();
    let ghost full = views(records@);
    assert(views(fold_stack@) =~= Seq::empty());
    while nodes.len() > 0
        invariant
            full == views(records@),
            fold_onto(views(fold_stack@), views(nodes@)) == fold_onto(Seq::empty(), full),
        decreases nodes@.len(),
    {
        let ghost before_nodes = nodes@;
        let ghost before_stack = fold_stack@;
        let mut node = nodes.pop().unwrap();
        assert(views(nodes@) =~= views(before_nodes).drop_last());
        let k = node.children.len();
        assert(views(before_nodes).last() == node@);
        assert(node@.children.len() == k);
        if k > fold_stack.len() {
            assert(fold_onto(views(before_stack), views(before_nodes)) is None);
            assert(fold_onto(Seq::empty(), views(records@)) is None);
            return Err(BuildError::FoldInvariant);
        }
        let b = fold_stack.len() - k;
        let taken = fold_stack.split_off(b);
        node.children = taken;
        proof {
            let vs = views(before_stack);
            assert(views(fold_stack@) =~= vs.subrange(0, b as int));
            let kids = vs.subrange(b as int, vs.len() as int);
            assert(node.children@ == before_stack.subrange(b as int, before_stack.len() as int));
            assert(node@.children.len() == kids.len());
            assert forall|i: int| 0 <= i < kids.len() implies node@.children[i] == kids[i] by {
                assert(node@.children[i] == node.children@[i]@);
            }
            assert(node@.children =~= kids);
            assert(node@ == with_children(views(before_nodes).last(), kids));
        }
        fold_stack.push(node);
        proof {
            let vs = views(before_stack);
            assert(views(fold_stack@) =~= vs.subrange(0, b as int).push(
                with_children(views(before_nodes).last(), vs.subrange(b as int, vs.len() as int))));
        }
    }
    assert(views(nodes@) =~= Seq::empty());
    assert(fold_onto(views(fold_stack@), Seq::empty()) == Some(views(fold_stack@)));
    if fold_stack.len() != 1 {
        assert(folded_root(views(records@)) is None);
        return Err(BuildError::FoldInvariant);
    }
    let ghost last_stack = views(fold_stack@);
    match fold_stack.pop() {
        Some(root) => {
            assert(root@ == last_stack[0]);
            assert(views(records@) == full);
            Ok(root)
        },
        None => Err(BuildError::FoldInvariant),
    }
}

/// What a build is told from outside: the child-count limit and the owners
/// (bus names) that are never asked for a stacking order.
pub struct BuildConfig {
    pub child_limit: i64,
    pub excluded_owners: Vec<String>,
}

/// The names in `owners`, as character sequences.
pub open spec fn owner_views(owners: Seq<String>) -> Seq<Seq<char>> {
    owners.map_values(|s: String| s@)
}

/// A node may be asked for its stacking order only when it has the stacking
/// capability and its owner is not excluded.
pub open spec fn eligible_spec(has_stacking: bool, owner: Seq<char>, excluded: Seq<String>) -> bool {
    has_stacking && !owner_views(excluded).contains(owner)
}

/// The stacking order a node is given: the reported one when eligible, else
/// the sentinel.
pub open spec fn assigned_order(eligible: bool, reported: i16) -> i16 {
    if eligible {
        reported
    } else {
        NO_ZORDER
    }
}

/// The scan record of one node: its own role and order, and one placeholder
/// per child carrying that child's role and order.
pub open spec fn record_model(
    role: u32,
    zorder: i16,
    eligible: bool,
    child_roles: Seq<u32>,
    child_orders: Seq<i16>,
) -> Tree {
    Tree {
        role,
        zorder: assigned_order(eligible, zorder),
        children: Seq::new(
            child_roles.len(),
            |i: int|
                Tree {
                    role: child_roles[i],
                    zorder: assigned_order(eligible, child_orders[i]),
                    children: Seq::empty(),
                },
        ),
    }
}

impl BuildConfig {
    /// The limit of one hundred thousand children, and the registry's own bus
    /// names excluded.
    pub fn standard() -> (r: BuildConfig)
        ensures
            r.child_limit == CHILD_COUNT_LIMIT,
            owner_views(r.excluded_owners@) == seq![
                "org.a11y.atspi.Registry"@,
                ":1.0"@,
            ],
    {
        let mut excluded: Vec<String> = Vec::new();
        excluded.push("org.a11y.atspi.Registry".to_owned());
        excluded.push(":1.0".to_owned());
        assert(owner_views(excluded@) =~= seq!["org.a11y.atspi.Registry"@, ":1.0"@]);
        BuildConfig { child_limit: CHILD_COUNT_LIMIT, excluded_owners: excluded }
    }

    /// Whether a node owned by `owner` may be asked for its stacking order.
    pub fn stacking_eligible(&self, has_stacking: bool, owner: &String) -> (r: bool)
        ensures
            r == eligible_spec(has_stacking, owner@, self.excluded_owners@),
    {
        if !has_stacking {
            return false;
        }
        let ghost names = owner_views(self.excluded_owners@);
        let mut i: usize = 0;
        while i < self.excluded_owners.len()
            invariant
                i <= self.excluded_owners@.len(),
                names == owner_views(self.excluded_owners@),
                forall|j: int| 0 <= j < i ==> names[j] != owner@,
            decreases self.excluded_owners@.len() - i,
        {
            if self.excluded_owners[i] == *owner {
                assert(names[i as int] == owner@);
                return false;
            }
            i = i + 1;
        }
        assert(!names.contains(owner@));
        true
    }
}

/// Working state of a build: the references still to scan (`work`), the
/// records scanned so far, and the reported child count that stopped the
/// build, if one did.
pub struct TreeBuilder<T> {
    pub config: BuildConfig,
    pub work: Vec<T>,
    pub records: Vec<A11yNode>,
    pub tripped: Option<i64>,
}

/// What finishing a build in state `b` yields.
pub open spec fn outcome<T>(b: TreeBuilder<T>) -> Result<Tree, BuildError> {
    match b.tripped {
        Some(c) => Err(BuildError::ChildCountTooHigh { reported: c }),
        None => match folded_root(views(b.records@)) {
            Some(t) => Ok(t),
            None => Err(BuildError::FoldInvariant),
        },
    }
}

impl<T> TreeBuilder<T> {
    /// A build that starts at `root`.
    pub fn new(root: T, config: BuildConfig) -> (r: TreeBuilder<T>)
        ensures
            r.work@ == seq![root],
            r.records@.len() == 0,
            r.tripped is None,
            r.config == config,
    {
        let mut work: Vec<T> = Vec::new();
        work.push(root);
        TreeBuilder { config, work, records: Vec::new(), tripped: None }
    }

    /// The next reference to scan: the top of the work stack, or `None` when
    /// the scan is over (the stack is empty, or the build was stopped).
    pub fn next_ref(&mut self) -> (r: Option<T>)
        ensures
            final(self).config == old(self).config,
            final(self).records == old(self).records,
            final(self).tripped == old(self).tripped,
            old(self).tripped is Some ==> r is None && final(self).work == old(self).work,
            old(self).tripped is None && old(self).work@.len() == 0 ==> r is None
                && final(self).work@ == old(self).work@,
            old(self).tripped is None && old(self).work@.len() > 0 ==> r == Some(
                old(self).work@.last(),
            ) && final(self).work@ == old(self).work@.drop_last(),
    {
        if self.tripped.is_some() {
            return None;
        }
        self.work.pop()
    }

    /// Checks the child count a node reports. Over the limit, the build is
    /// stopped for good and `false` is returned.
    pub fn check_child_count(&mut self, reported: i64) -> (r: bool)
        ensures
            r == (old(self).tripped is None && reported <= old(self).config.child_limit),
            final(self).config == old(self).config,
            final(self).work == old(self).work,
            final(self).records == old(self).records,
            final(self).tripped == if old(self).tripped is None
                && reported > old(self).config.child_limit {
                Some(reported)
            } else {
                old(self).tripped
            },
    {
        if self.tripped.is_some() {
            return false;
        }
        if reported > self.config.child_limit {
            self.tripped = Some(reported);
            return false;
        }
        true
    }

    /// Records a scanned node and pushes its children's references, in the
    /// order given, onto the work stack. Nothing changes once the build is
    /// stopped.
    pub fn record(
        &mut self,
        role: u32,
        zorder: i16,
        eligible: bool,
        child_roles: Vec<u32>,
        child_orders: Vec<i16>,
        child_refs: Vec<T>,
    )
        requires
            child_roles@.len() == child_refs@.len(),
            eligible ==> child_orders@.len() == child_refs@.len(),
        ensures
            final(self).config == old(self).config,
            final(self).tripped == old(self).tripped,
            old(self).tripped is Some ==> final(self).work == old(self).work
                && final(self).records == old(self).records,
            old(self).tripped is None ==> final(self).work@ == old(self).work@ + child_refs@,
            old(self).tripped is None ==> views(final(self).records@) == views(
                old(self).records@,
            ).push(record_model(role, zorder, eligible, child_roles@, child_orders@)),
    {
        if self.tripped.is_some() {
            return;
        }
        let mut children: Vec<A11yNode> = Vec::new();
        let mut i: usize = 0;
        while i < child_roles.len()
            invariant
                i <= child_roles@.len(),
                child_roles@.len() == child_refs@.len(),
                eligible ==> child_orders@.len() == child_refs@.len(),
                children@.len() == i,
                forall|j: int|
                    0 <= j < i ==> #[trigger] children@[j]@ == record_model(
                        role,
                        zorder,
                        eligible,
                        child_roles@,
                        child_orders@,
                    ).children[j],
            decreases child_roles@.len() - i,
        {
            let order = if eligible {
                child_orders[i]
            } else {
                NO_ZORDER
            };
            let leaf = A11yNode { role: child_roles[i], zorder: order, children: Vec::new() };
            assert(leaf@.children =~= Seq::empty());
            children.push(leaf);
            i = i + 1;
        }
        let own = if eligible {
            zorder
        } else {
            NO_ZORDER
        };
        let node = A11yNode { role, zorder: own, children };
        assert forall|j: int| 0 <= j < node.children@.len() implies node@.children[j] == node.children@[j]@ by {}
        assert(node@.children =~= record_model(role, zorder, eligible, child_roles@, child_orders@).children);
        let ghost old_records = self.records@;
        self.records.push(node);
        assert(views(self.records@) =~= views(old_records).push(node@));
        let mut refs = child_refs;
        self.work.append(&mut refs);
    }

    /// Ends the build: the folded tree, or why there is none.
    pub fn finish(self) -> (r: Result<A11yNode, BuildError>)
        ensures
            match outcome(self) {
                Ok(t) => r matches Ok(n) && n@ == t,
                Err(e) => r == Err::<A11yNode, BuildError>(e),
            },
    {
        match self.tripped {
            Some(c) => Err(BuildError::ChildCountTooHigh { reported: c }),
            None => fold_records(self.records),
        }
    }
}

/// A node gets the sentinel stacking order exactly when it lacks the stacking
/// capability or its owner is excluded, provided the order it would report is
/// not the sentinel itself; otherwise it keeps the reported order.
pub proof fn lemma_sentinel_rule(
    has_stacking: bool,
    owner: Seq<char>,
    excluded: Seq<String>,
    reported: i16,
)
    ensures
        assigned_order(eligible_spec(has_stacking, owner, excluded), reported) == if has_stacking
            && !owner_views(excluded).contains(owner) {
            reported
        } else {
            NO_ZORDER
        },
        reported != NO_ZORDER ==> (assigned_order(
            eligible_spec(has_stacking, owner, excluded),
            reported,
        ) == NO_ZORDER <==> (!has_stacking || owner_views(excluded).contains(owner))),
{
}

/// Once a node has reported a child count over the limit, no later scan step
/// can bring the build back: it ends with the child-count failure for that
/// count, never with a tree.
pub proof fn lemma_over_limit_never_builds<T>(b: TreeBuilder<T>, reported: i64)
    requires
        reported > b.config.child_limit,
        b.tripped == Some(reported),
    ensures
        outcome(b) == Err::<Tree, BuildError>(BuildError::ChildCountTooHigh { reported }),
{
}

} // verus!
