use depgraph::scc::{
    collect_component, dfs_postorder, find_cycle_in_component, reverse_adjacency,
    strongly_connected_components,
};

#[test]
fn dfs_postorder_finishes_start_last() {
    let adj = vec![vec![1], vec![2], vec![]];
    let mut visited = vec![false; 3];
    let mut order = Vec::new();
    dfs_postorder(0, &adj, &mut visited, &mut order);
    assert_eq!(order, vec![2, 1, 0]);
    assert_eq!(visited, vec![true, true, true]);
}

#[test]
fn dfs_postorder_appends_only_what_is_newly_reached() {
    // 0 -> 1 -> 2, 3 -> 1, 3 -> 4
    let adj = vec![vec![1], vec![2], vec![], vec![1, 4], vec![]];
    let mut visited = vec![false; 5];
    let mut order = Vec::new();
    dfs_postorder(0, &adj, &mut visited, &mut order);
    assert_eq!(order, vec![2, 1, 0]);
    dfs_postorder(3, &adj, &mut visited, &mut order);
    assert_eq!(order, vec![2, 1, 0, 4, 3]);
    assert_eq!(visited, vec![true; 5]);
}

#[test]
fn dfs_postorder_leaves_unreached_vertices_alone() {
    let adj = vec![vec![], vec![0]];
    let mut visited = vec![false; 2];
    let mut order = Vec::new();
    dfs_postorder(0, &adj, &mut visited, &mut order);
    assert_eq!(order, vec![0]);
    assert_eq!(visited, vec![true, false]);
}

#[test]
fn dfs_postorder_on_a_cycle() {
    let adj = vec![vec![1], vec![0, 2], vec![]];
    let mut visited = vec![false; 3];
    let mut order = Vec::new();
    dfs_postorder(0, &adj, &mut visited, &mut order);
    assert_eq!(order, vec![2, 1, 0]);
}

#[test]
fn reverse_adjacency_lists_a_predecessor_once_per_edge() {
    let adj = vec![vec![1, 1], vec![0], vec![1]];
    let rev = reverse_adjacency(&adj);
    assert_eq!(rev, vec![vec![1], vec![0, 0, 2], vec![]]);
}

#[test]
fn a_dag_lists_each_vertex_alone_in_kosaraju_order() {
    let adj = vec![vec![1], vec![2], vec![]];
    let sccs = strongly_connected_components(&adj);
    assert_eq!(sccs, vec![vec![0], vec![1], vec![2]]);
}

#[test]
fn components_come_before_those_they_point_into() {
    // 2 -> 0 <-> 1, 0 -> 3
    let adj = vec![vec![1, 3], vec![0], vec![0], vec![]];
    let sccs = strongly_connected_components(&adj);
    assert_eq!(sccs, vec![vec![2], vec![0, 1], vec![3]]);
}

#[test]
fn collect_component_marks_what_it_gathers() {
    // the reverse of 0 <-> 1, 2 -> 0
    let rev = vec![vec![1, 2], vec![0], vec![]];
    let mut assigned = vec![false, false, true];
    let mut component = Vec::new();
    collect_component(0, &rev, &mut assigned, &mut component);
    let mut got = component.clone();
    got.sort();
    assert_eq!(got, vec![0, 1]);
    assert_eq!(assigned, vec![true, true, true]);
}

#[test]
fn find_cycle_closes_the_first_loop_inside_the_component() {
    // 0 -> 1 -> 2 -> 0 and 1 -> 0; the walk from 0 takes 1, then 0 again.
    let adj = vec![vec![1], vec![0, 2], vec![0]];
    let scc = vec![0, 1, 2];
    let in_scc = vec![true, true, true];
    assert_eq!(find_cycle_in_component(&scc, &adj, &in_scc), Some(vec![0, 1, 0]));
}

#[test]
fn find_cycle_is_none_without_an_inner_edge() {
    let adj = vec![vec![1], vec![]];
    let scc = vec![0, 1];
    let in_scc = vec![true, true];
    assert_eq!(find_cycle_in_component(&scc, &adj, &in_scc), None);
}

#[test]
fn collect_component_appends_after_what_is_there() {
    let rev = vec![vec![1], vec![0], vec![]];
    let mut assigned = vec![false, false, true];
    let mut component = vec![2];
    collect_component(1, &rev, &mut assigned, &mut component);
    assert_eq!(component[0], 2);
    let mut got = component[1..].to_vec();
    got.sort();
    assert_eq!(got, vec![0, 1]);
    assert_eq!(assigned, vec![true, true, true]);
}

#[test]
fn collect_component_gathers_in_stack_order() {
    let rev = vec![vec![1, 2], vec![0], vec![]];
    let mut assigned = vec![false; 3];
    let mut component = Vec::new();
    collect_component(0, &rev, &mut assigned, &mut component);
    assert_eq!(component, vec![0, 2, 1]);
}

#[test]
fn unrelated_components_follow_the_latest_finishing_vertex() {
    // 0 and 1 have no edge between them: 1 finishes last, so comes first.
    let adj = vec![vec![], vec![]];
    assert_eq!(strongly_connected_components(&adj), vec![vec![1], vec![0]]);
}
