use netstrat::history::History;
use netstrat::history::HistoryError;
use netstrat::lca::lca;
use netstrat::planner::plan_transition;
use netstrat::step_difference::StepDifference;
use netstrat::step_tree::StepTree;

fn diff(n: i64) -> StepDifference {
    StepDifference { elements: n, colored: 10 * n, signal_holders: 100 * n }
}

fn sample_tree() -> StepTree {
    // the sample tree, by label:
    //
    //          1
    //        /   \
    //       2     3
    //      / \   / \
    //     4   5 6   7
    //
    // arena slots: 1 -> 0, 2 -> 1, 3 -> 2, 4 -> 3, 5 -> 4, 6 -> 5, 7 -> 6
    let mut g = StepTree::new("1".to_string());
    let node2 = g.append_child(0, "2".to_string(), diff(2), 0);
    let node3 = g.append_child(0, "3".to_string(), diff(3), 0);
    let node4 = g.append_child(node2, "4".to_string(), diff(4), 0);
    assert_eq!(node4, 3);
    let node5 = g.append_child(node2, "5".to_string(), diff(5), 0);
    assert_eq!(node5, 4);
    let node6 = g.append_child(node3, "6".to_string(), diff(6), 0);
    assert_eq!(node6, 5);
    let node7 = g.append_child(node3, "7".to_string(), diff(7), 0);
    assert_eq!(node7, 6);
    g
}

#[test]
fn test_lca() {
    let g = sample_tree();
    let root = g.root();
    let (node2, node3, node4, node5, node6, node7) = (1, 2, 3, 4, 5, 6);

    // test LCA for nodes within the same branch
    assert_eq!(lca(&g, root, node4, node5), node2);
    assert_eq!(lca(&g, root, node6, node7), node3);

    // test LCA for nodes in different branches
    assert_eq!(lca(&g, root, node4, node6), root);
    assert_eq!(lca(&g, root, node5, node7), root);

    // test LCA for nodes where one of them is lca
    assert_eq!(lca(&g, root, node4, node2), node2);
    assert_eq!(lca(&g, root, node5, node5), node5);

    // test LCA for nodes where one of them is root
    assert_eq!(lca(&g, root, node4, root), root);
}

#[test]
fn lca_of_a_node_with_itself_is_the_node() {
    let g = sample_tree();
    for n in 0..g.len() {
        assert_eq!(lca(&g, 0, n, n), n);
    }
}

#[test]
fn backward_walk_takes_exactly_depth_steps() {
    let g = sample_tree();
    assert_eq!(g.depth_of(0), 0);
    assert_eq!(g.depth_of(1), 1);
    assert_eq!(g.depth_of(2), 1);
    assert_eq!(g.depth_of(3), 2);
    assert_eq!(g.depth_of(6), 2);
}

#[test]
fn tree_queries_read_what_was_recorded() {
    let g = sample_tree();
    assert_eq!(g.len(), 7);
    assert_eq!(g.name_of(0), "1");
    assert_eq!(g.name_of(6), "7");
    assert_eq!(g.parent_of(0), None);
    assert_eq!(g.parent_of(3), Some(1));
    assert_eq!(g.parent_of(6), Some(2));
    assert_eq!(*g.difference_of(0), None);
    assert_eq!(*g.difference_of(4), Some(diff(5)));
    assert!(!g.is_leaf(0));
    assert!(!g.is_leaf(1));
    assert!(g.is_leaf(3));
    assert!(g.is_leaf(6));
    assert_eq!(g.children_of(0), vec![1, 2]);
    assert_eq!(g.children_of(1), vec![3, 4]);
    assert_eq!(g.children_of(3), Vec::<usize>::new());
}

#[test]
fn self_jump_plans_the_identity_diff() {
    let g = sample_tree();
    for n in 0..g.len() {
        assert_eq!(plan_transition(&g, n, n), StepDifference::default());
    }
}

#[test]
fn plan_from_root_composes_the_path_diffs() {
    let g = sample_tree();
    // root -> 7 runs through the steps labeled "3" and "7"
    let expected = StepDifference::default().squash(&diff(3)).squash(&diff(7));
    assert_eq!(plan_transition(&g, 0, 6), expected);
}

#[test]
fn plan_inverts_backward_steps_and_replays_forward_steps() {
    // starting at the step labeled "5", jumping to the one labeled "7":
    // backward walk 5 -> 2 -> 1 inverts diff(5) and diff(2); pivot is the
    // root; forward walk 1 -> 3 -> 7 collects diff(3) and diff(7)
    let g = sample_tree();
    let expected = StepDifference::default()
        .squash(&diff(5).reverse())
        .squash(&diff(2).reverse())
        .squash(&diff(3))
        .squash(&diff(7));
    assert_eq!(plan_transition(&g, 4, 6), expected);
}

#[test]
fn round_trip_squashes_to_the_identity() {
    let g = sample_tree();
    for a in 0..g.len() {
        for b in 0..g.len() {
            let out = plan_transition(&g, a, b);
            let back = plan_transition(&g, b, a);
            assert_eq!(out.squash(&back), StepDifference::default());
        }
    }
}

#[test]
fn squash_and_reverse_wrap_at_the_counter_bounds() {
    let big = StepDifference { elements: i64::MAX, colored: 0, signal_holders: -3 };
    let one = StepDifference { elements: 1, colored: -7, signal_holders: 3 };
    let sum = big.squash(&one);
    assert_eq!(sum, StepDifference { elements: i64::MIN, colored: -7, signal_holders: 0 });
    let low = StepDifference { elements: i64::MIN, colored: 2, signal_holders: -2 };
    assert_eq!(
        low.reverse(),
        StepDifference { elements: i64::MIN, colored: -2, signal_holders: 2 }
    );
    assert_eq!(low.squash(&low.reverse()), StepDifference::default());
}

#[test]
fn recording_on_a_leaf_continues_the_generation() {
    let mut h = History::new("1".to_string());
    h.add_step("2".to_string(), diff(2));
    assert_eq!(h.current_step(), 1);
    assert_eq!(h.max_gen(), 0);
    assert_eq!(h.tree().generation_of(1), 0);
    h.add_step("4".to_string(), diff(4));
    assert_eq!(h.current_step(), 2);
    assert_eq!(h.max_gen(), 0);
    assert_eq!(h.tree().generation_of(2), 0);
}

#[test]
fn recording_from_a_non_leaf_allocates_a_new_generation() {
    let mut h = History::new("1".to_string());
    h.add_step("2".to_string(), diff(2));
    h.jump_to(0).unwrap();
    // the root already has a child: each of these recordings must fork
    h.add_step("3".to_string(), diff(3));
    let c1 = h.current_step();
    assert_eq!(h.max_gen(), 1);
    assert_eq!(h.tree().generation_of(c1), 1);
    h.jump_to(0).unwrap();
    h.add_step("5".to_string(), diff(5));
    let c2 = h.current_step();
    assert_eq!(h.max_gen(), 2);
    assert_eq!(h.tree().generation_of(c2), 2);
    assert_ne!(c1, c2);
    assert_eq!(h.tree().parent_of(c1), Some(0));
    assert_eq!(h.tree().parent_of(c2), Some(0));
    // the earlier branches are left intact and inspectable
    assert_eq!(h.tree().children_of(0), vec![1, c1, c2]);
}

#[test]
fn jump_to_unknown_node_is_rejected_and_changes_nothing() {
    let mut h = History::new("1".to_string());
    h.add_step("2".to_string(), diff(2));
    let before_current = h.current_step();
    let before_len = h.tree().len();
    assert_eq!(h.jump_to(17), Err(HistoryError::UnknownNode));
    assert_eq!(h.current_step(), before_current);
    assert_eq!(h.tree().len(), before_len);
}

#[test]
fn jump_to_returns_the_planned_diff_and_moves_the_pointer() {
    // build the sample tree through the controller, label by label
    let mut h = History::new("1".to_string());
    h.add_step("2".to_string(), diff(2)); // slot 1
    h.add_step("4".to_string(), diff(4)); // slot 2
    h.jump_to(1).unwrap();
    h.add_step("5".to_string(), diff(5)); // slot 3
    h.jump_to(0).unwrap();
    h.add_step("3".to_string(), diff(3)); // slot 4
    h.add_step("6".to_string(), diff(6)); // slot 5
    h.jump_to(4).unwrap();
    h.add_step("7".to_string(), diff(7)); // slot 6
    // stand on "5", jump to "7"
    h.jump_to(3).unwrap();
    let net = h.jump_to(6).unwrap();
    let expected = StepDifference::default()
        .squash(&diff(5).reverse())
        .squash(&diff(2).reverse())
        .squash(&diff(3))
        .squash(&diff(7));
    assert_eq!(net, expected);
    assert_eq!(h.current_step(), 6);
    // a self-jump plans the identity diff, which need not be published
    assert_eq!(h.jump_to(6).unwrap(), StepDifference::default());
}

#[test]
fn fresh_history_is_a_single_leaf_root() {
    let mut h = History::new("start".to_string());
    assert_eq!(h.current_step(), 0);
    assert_eq!(h.max_gen(), 0);
    assert!(h.is_leaf(0));
    assert_eq!(h.tree().len(), 1);
    assert_eq!(h.tree().name_of(0), "start");
    assert_eq!(h.tree().parent_of(0), None);
    assert_eq!(h.tree().generation_of(0), 0);
    assert_eq!(h.jump_to(0).unwrap(), StepDifference::default());
}
