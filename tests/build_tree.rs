use a11y_tree::builder::{
    fold_records, BuildConfig, BuildError, TreeBuilder, CHILD_COUNT_LIMIT, NO_ZORDER,
};
use a11y_tree::node::A11yNode;
use a11y_tree::ranker::{rank, top_n};

struct MockNode {
    role: u32,
    zorder: i16,
    has_stacking: bool,
    owner: String,
    children: Vec<usize>,
    reported_count: Option<i64>,
}

fn mock(role: u32, zorder: i16, has_stacking: bool, children: Vec<usize>) -> MockNode {
    MockNode {
        role,
        zorder,
        has_stacking,
        owner: ":1.42".to_string(),
        children,
        reported_count: None,
    }
}

fn run_build(graph: &[MockNode], root: usize, config: BuildConfig) -> Result<A11yNode, BuildError> {
    let mut builder = TreeBuilder::new(root, config);
    while let Some(id) = builder.next_ref() {
        let node = &graph[id];
        let count = node.reported_count.unwrap_or(node.children.len() as i64);
        if !builder.check_child_count(count) {
            continue;
        }
        let eligible = builder.config.stacking_eligible(node.has_stacking, &node.owner);
        let roles: Vec<u32> = node.children.iter().map(|&c| graph[c].role).collect();
        let orders: Vec<i16> = node.children.iter().map(|&c| graph[c].zorder).collect();
        builder.record(node.role, node.zorder, eligible, roles, orders, node.children.clone());
    }
    builder.finish()
}

fn reference(graph: &[MockNode], id: usize, config: &BuildConfig) -> A11yNode {
    let node = &graph[id];
    let eligible = node.has_stacking && !config.excluded_owners.contains(&node.owner);
    A11yNode {
        role: node.role,
        zorder: if eligible { node.zorder } else { NO_ZORDER },
        children: node.children.iter().map(|&c| reference(graph, c, config)).collect(),
    }
}

fn same_tree(a: &A11yNode, b: &A11yNode) -> bool {
    a.role == b.role
        && a.zorder == b.zorder
        && a.children.len() == b.children.len()
        && a.children.iter().zip(b.children.iter()).all(|(x, y)| same_tree(x, y))
}

fn leaf(role: u32, zorder: i16) -> A11yNode {
    A11yNode { role, zorder, children: Vec::new() }
}

fn scenario() -> A11yNode {
    // R(A(C), B)
    A11yNode {
        role: 75,
        zorder: NO_ZORDER,
        children: vec![
            A11yNode { role: 23, zorder: NO_ZORDER, children: vec![leaf(43, NO_ZORDER)] },
            leaf(29, NO_ZORDER),
        ],
    }
}

#[test]
fn built_tree_matches_recursive_build() {
    let graph = vec![
        mock(75, 0, false, vec![1, 4, 6]),
        mock(23, 5, true, vec![2, 3]),
        mock(43, 2, true, vec![]),
        mock(29, 9, false, vec![]),
        mock(39, -3, true, vec![5]),
        mock(61, 7, true, vec![]),
        mock(31, 1, true, vec![7, 8, 9]),
        mock(32, 4, true, vec![]),
        mock(32, 4, false, vec![]),
        mock(32, 8, true, vec![]),
    ];
    let config = BuildConfig::standard();
    let built = run_build(&graph, 0, BuildConfig::standard()).unwrap();
    assert!(same_tree(&built, &reference(&graph, 0, &config)));
    assert_eq!(built.children.len(), 3);
    assert_eq!(built.children[0].children[1].role, 29);
    assert_eq!(built.children[2].children[2].zorder, 8);
}

#[test]
fn built_deep_chain_and_wide_node_match_recursive_build() {
    let mut graph: Vec<MockNode> = Vec::new();
    for i in 0..300 {
        graph.push(mock(i as u32 % 130, i as i16, true, vec![i + 1]));
    }
    let wide: Vec<usize> = (301..1301).collect();
    graph.push(mock(1, 1, true, wide));
    for i in 301..1301 {
        graph.push(mock(2, (i % 17) as i16, i % 2 == 0, vec![]));
    }
    let config = BuildConfig::standard();
    let built = run_build(&graph, 0, BuildConfig::standard()).unwrap();
    assert!(same_tree(&built, &reference(&graph, 0, &config)));
    assert_eq!(built.as_vec().len(), 1301);
}

#[test]
fn single_node_builds_a_leaf() {
    let graph = vec![mock(7, 3, true, vec![])];
    let built = run_build(&graph, 0, BuildConfig::standard()).unwrap();
    assert_eq!(built.role, 7);
    assert_eq!(built.zorder, 3);
    assert!(built.children.is_empty());
}

#[test]
fn node_count_is_one_plus_reported_children() {
    let graph = vec![
        mock(1, 0, false, vec![1, 2]),
        mock(2, 0, false, vec![3, 4, 5]),
        mock(3, 0, false, vec![]),
        mock(4, 0, false, vec![]),
        mock(5, 0, false, vec![6]),
        mock(6, 0, false, vec![]),
        mock(7, 0, false, vec![]),
    ];
    let built = run_build(&graph, 0, BuildConfig::standard()).unwrap();
    let reported: usize = graph.iter().map(|n| n.children.len()).sum();
    assert_eq!(built.as_vec().len(), 1 + reported);
    assert_eq!(built.as_vec().len(), 7);
}

#[test]
fn sentinel_only_without_capability_or_for_excluded_owner() {
    let mut graph = vec![
        mock(1, 10, true, vec![1, 2, 3]),
        mock(2, 11, false, vec![]),
        mock(3, 12, true, vec![]),
        mock(4, 13, true, vec![]),
    ];
    graph[2].owner = "org.a11y.atspi.Registry".to_string();
    graph[3].owner = ":1.0".to_string();
    let built = run_build(&graph, 0, BuildConfig::standard()).unwrap();
    assert_eq!(built.zorder, 10);
    assert_eq!(built.children[0].zorder, NO_ZORDER);
    assert_eq!(built.children[1].zorder, NO_ZORDER);
    assert_eq!(built.children[2].zorder, NO_ZORDER);
}

#[test]
fn stacking_eligibility_follows_capability_and_exclusions() {
    let config = BuildConfig::standard();
    assert_eq!(config.child_limit, 100_000);
    assert!(config.stacking_eligible(true, &":1.7".to_string()));
    assert!(!config.stacking_eligible(false, &":1.7".to_string()));
    assert!(!config.stacking_eligible(true, &":1.0".to_string()));
    assert!(!config.stacking_eligible(true, &"org.a11y.atspi.Registry".to_string()));
    let custom = BuildConfig { child_limit: 3, excluded_owners: vec![":9.9".to_string()] };
    assert!(custom.stacking_eligible(true, &":1.0".to_string()));
    assert!(!custom.stacking_eligible(true, &":9.9".to_string()));
}

#[test]
fn child_count_over_limit_fails_without_a_tree() {
    let mut graph = vec![mock(1, 0, true, vec![1]), mock(2, 0, true, vec![])];
    graph[1].reported_count = Some(100_001);
    let result = run_build(&graph, 0, BuildConfig::standard());
    assert!(matches!(result, Err(BuildError::ChildCountTooHigh { reported: 100_001 })));
}

#[test]
fn child_count_at_limit_is_accepted() {
    let mut builder = TreeBuilder::new(0usize, BuildConfig::standard());
    assert_eq!(builder.next_ref(), Some(0));
    assert!(builder.check_child_count(CHILD_COUNT_LIMIT));
    assert!(builder.tripped.is_none());
    assert!(!builder.check_child_count(CHILD_COUNT_LIMIT + 1));
    assert_eq!(builder.tripped, Some(100_001));
}

#[test]
fn stopped_build_ignores_later_steps() {
    let mut builder = TreeBuilder::new(0usize, BuildConfig { child_limit: 2, excluded_owners: vec![] });
    assert_eq!(builder.next_ref(), Some(0));
    assert!(!builder.check_child_count(3));
    builder.record(1, 0, false, vec![2], vec![], vec![1]);
    assert!(builder.records.is_empty());
    assert_eq!(builder.next_ref(), None);
    assert!(!builder.check_child_count(0));
    assert!(matches!(builder.finish(), Err(BuildError::ChildCountTooHigh { reported: 3 })));
}

#[test]
fn record_pushes_children_in_order() {
    let mut builder = TreeBuilder::new(10usize, BuildConfig::standard());
    assert_eq!(builder.next_ref(), Some(10));
    builder.record(5, 7, true, vec![1, 2], vec![3, 4], vec![11, 12]);
    assert_eq!(builder.work, vec![11, 12]);
    assert_eq!(builder.records.len(), 1);
    assert_eq!(builder.records[0].zorder, 7);
    assert_eq!(builder.records[0].children[1].role, 2);
    assert_eq!(builder.records[0].children[1].zorder, 4);
    assert_eq!(builder.next_ref(), Some(12));
    builder.record(6, 7, false, vec![], vec![], vec![]);
    assert_eq!(builder.records[1].zorder, NO_ZORDER);
}

#[test]
fn fold_rejects_two_roots() {
    let result = fold_records(vec![leaf(1, 0), leaf(2, 0)]);
    assert!(matches!(result, Err(BuildError::FoldInvariant)));
}

#[test]
fn fold_rejects_missing_subtrees() {
    let rec = A11yNode { role: 1, zorder: 0, children: vec![leaf(2, 0), leaf(3, 0)] };
    let result = fold_records(vec![rec, leaf(2, 0)]);
    assert!(matches!(result, Err(BuildError::FoldInvariant)));
}

#[test]
fn fold_rejects_no_records() {
    assert!(matches!(fold_records(Vec::new()), Err(BuildError::FoldInvariant)));
}

#[test]
fn fold_attaches_subtrees_in_sibling_order() {
    // scan order of R(A(C), B): R, B, A, C
    let r = A11yNode { role: 1, zorder: 0, children: vec![leaf(2, 0), leaf(4, 0)] };
    let a = A11yNode { role: 2, zorder: 0, children: vec![leaf(3, 0)] };
    let root = fold_records(vec![r, leaf(4, 0), a, leaf(3, 0)]).unwrap();
    assert_eq!(root.role, 1);
    assert_eq!(root.children[0].role, 2);
    assert_eq!(root.children[0].children[0].role, 3);
    assert_eq!(root.children[1].role, 4);
}

#[test]
fn scenario_flattens_to_four_sentinel_nodes() {
    let tree = scenario();
    let nodes = tree.as_vec();
    assert_eq!(nodes.len(), 4);
    assert!(nodes.iter().all(|n| n.zorder == NO_ZORDER));
    let ranked = rank(&nodes);
    let before: Vec<u32> = nodes.iter().map(|n| n.role).collect();
    let after: Vec<u32> = ranked.iter().map(|n| n.role).collect();
    assert_eq!(before, after);
}

#[test]
fn flatten_lists_root_first_then_walk_order() {
    let nodes = scenario().as_vec().iter().map(|n| n.role).collect::<Vec<u32>>();
    assert_eq!(nodes, vec![75, 29, 23, 43]);
}

#[test]
fn ranking_is_ascending_stable_and_idempotent() {
    let tree = A11yNode {
        role: 0,
        zorder: 5,
        children: vec![leaf(1, -1), leaf(2, 9), leaf(3, 5), leaf(4, 0), leaf(5, 9), leaf(6, -20)],
    };
    let nodes = tree.as_vec();
    let ranked = rank(&nodes);
    let orders: Vec<i16> = ranked.iter().map(|n| n.zorder).collect();
    assert_eq!(orders, vec![-20, -1, 0, 5, 5, 9, 9]);
    let roles: Vec<u32> = ranked.iter().map(|n| n.role).collect();
    // walk order is 0, 6, 5, 4, 3, 2, 1; equal orders keep it
    assert_eq!(roles, vec![6, 1, 4, 0, 3, 5, 2]);
    let again = rank(&ranked);
    let roles_again: Vec<u32> = again.iter().map(|n| n.role).collect();
    assert_eq!(roles_again, roles);
}

#[test]
fn top_n_lists_highest_first() {
    let tree = A11yNode { role: 0, zorder: 1, children: vec![leaf(1, 3), leaf(2, 2), leaf(3, 7)] };
    let nodes = tree.as_vec();
    let ranked = rank(&nodes);
    let top: Vec<u32> = top_n(&ranked, 2).iter().map(|n| n.role).collect();
    assert_eq!(top, vec![3, 1]);
    assert_eq!(top_n(&ranked, 10).len(), 4);
    assert!(top_n(&ranked, 0).is_empty());
}

#[test]
fn ranking_empty_is_empty() {
    let nodes: Vec<&A11yNode> = Vec::new();
    assert!(rank(&nodes).is_empty());
}
