use depgraph::{build_graph, detect_cycles, CrateInfo, Graph};

fn info(name: &str, deps: &[&str]) -> CrateInfo {
    CrateInfo {
        name: name.to_string(),
        manifest_path: format!("{name}/Cargo.toml").into(),
        dependencies: deps.iter().map(|d| d.to_string()).collect(),
    }
}

fn strings(xs: &[&str]) -> Vec<String> {
    xs.iter().map(|x| x.to_string()).collect()
}

#[test]
fn external_dependencies_are_not_nodes_or_edges() {
    let crates = vec![info("a", &["serde", "anyhow"])];
    let graph = build_graph(&crates);
    assert_eq!(graph.nodes, vec!["a".to_string()]);
    assert!(graph.edges.is_empty());
}

#[test]
fn internal_dependency_becomes_an_edge() {
    let crates = vec![info("a", &["b"]), info("b", &[])];
    let graph = build_graph(&crates);
    assert_eq!(graph.nodes, vec!["a".to_string(), "b".to_string()]);
    assert_eq!(graph.edges, vec![("a".to_string(), "b".to_string())]);
}

#[test]
fn self_dependency_is_ignored_not_a_self_loop() {
    let crates = vec![info("a", &["a"])];
    let graph = build_graph(&crates);
    assert!(graph.edges.is_empty());
}

#[test]
fn no_cycle_in_a_simple_dag() {
    let crates = vec![info("a", &["b"]), info("b", &["c"]), info("c", &[])];
    let graph = build_graph(&crates);
    assert!(detect_cycles(&graph).is_empty());
}

#[test]
fn detects_a_direct_two_crate_cycle() {
    let crates = vec![info("a", &["b"]), info("b", &["a"])];
    let graph = build_graph(&crates);
    let cycles = detect_cycles(&graph);
    assert_eq!(cycles.len(), 1);
    assert_eq!(
        cycles[0],
        vec!["a".to_string(), "b".to_string(), "a".to_string()]
    );
}

#[test]
fn detects_a_three_crate_cycle() {
    let crates = vec![info("a", &["b"]), info("b", &["c"]), info("c", &["a"])];
    let graph = build_graph(&crates);
    let cycles = detect_cycles(&graph);
    assert_eq!(cycles.len(), 1);
    assert_eq!(
        cycles[0],
        vec![
            "a".to_string(),
            "b".to_string(),
            "c".to_string(),
            "a".to_string()
        ]
    );
}

#[test]
fn a_diamond_shape_is_not_a_cycle() {
    // a depends on b and c; both b and c depend on d. No loop.
    let crates = vec![
        info("a", &["b", "c"]),
        info("b", &["d"]),
        info("c", &["d"]),
        info("d", &[]),
    ];
    let graph = build_graph(&crates);
    assert!(detect_cycles(&graph).is_empty());
}

#[test]
fn cycle_plus_unrelated_crate_only_reports_the_cyclic_ones() {
    let crates = vec![
        info("a", &["b"]),
        info("b", &["a"]),
        info("standalone", &[]),
    ];
    let graph = build_graph(&crates);
    let cycles = detect_cycles(&graph);
    assert_eq!(cycles.len(), 1);
    assert!(!cycles[0].contains(&"standalone".to_string()));
}

#[test]
fn two_separate_cycles_are_both_reported() {
    let crates = vec![
        info("a", &["b"]),
        info("b", &["a"]),
        info("x", &["y"]),
        info("y", &["x"]),
    ];
    let graph = build_graph(&crates);
    let cycles = detect_cycles(&graph);
    assert_eq!(cycles.len(), 2);
}

#[test]
fn synthetic_three_crate_cycle_from_manifests_in_memory() {
    let crates = vec![
        info("cyc-a", &["cyc-b"]),
        info("cyc-b", &["cyc-c"]),
        info("cyc-c", &["cyc-a"]),
    ];
    let graph = build_graph(&crates);
    let cycles = detect_cycles(&graph);
    assert_eq!(cycles.len(), 1);
    assert_eq!(cycles[0], strings(&["cyc-a", "cyc-b", "cyc-c", "cyc-a"]));
}

#[test]
fn nodes_are_sorted_and_deduplicated() {
    let crates = vec![info("zeta", &[]), info("alpha", &[]), info("mid", &[]), info("alpha", &[])];
    let graph = build_graph(&crates);
    assert_eq!(graph.nodes, strings(&["alpha", "mid", "zeta"]));
}

#[test]
fn edges_are_sorted_and_deduplicated() {
    let crates = vec![
        info("b", &["a", "c", "a"]),
        info("a", &["c"]),
        info("c", &[]),
    ];
    let graph = build_graph(&crates);
    assert_eq!(
        graph.edges,
        vec![
            ("a".to_string(), "c".to_string()),
            ("b".to_string(), "a".to_string()),
            ("b".to_string(), "c".to_string()),
        ]
    );
}

#[test]
fn names_sort_by_character_not_by_length() {
    let crates = vec![info("ab", &[]), info("b", &[]), info("a", &[]), info("B", &[])];
    let graph = build_graph(&crates);
    assert_eq!(graph.nodes, strings(&["B", "a", "ab", "b"]));
}

#[test]
fn empty_input_gives_empty_graph_and_no_cycles() {
    let graph = build_graph(&[]);
    assert!(graph.nodes.is_empty());
    assert!(graph.edges.is_empty());
    assert!(detect_cycles(&graph).is_empty());
}

#[test]
fn a_component_reports_one_chain_from_its_least_crate() {
    // a -> b -> c -> a, and also c -> b: one component of three crates.
    let crates = vec![info("a", &["b"]), info("b", &["c"]), info("c", &["a", "b"])];
    let graph = build_graph(&crates);
    let cycles = detect_cycles(&graph);
    assert_eq!(cycles, vec![strings(&["a", "b", "c", "a"])]);
}

#[test]
fn the_walk_follows_the_first_edge_and_closes_the_first_loop() {
    // From a the walk goes to b (its first edge), then c, whose first edge
    // inside the component leads back to b: the chain is b -> c -> b.
    let crates = vec![info("a", &["b"]), info("b", &["c"]), info("c", &["a", "b"])];
    let mut graph = build_graph(&crates);
    graph.edges = vec![
        ("a".to_string(), "b".to_string()),
        ("b".to_string(), "c".to_string()),
        ("c".to_string(), "b".to_string()),
        ("c".to_string(), "a".to_string()),
    ];
    let cycles = detect_cycles(&graph);
    assert_eq!(cycles, vec![strings(&["b", "c", "b"])]);
}

#[test]
fn cycles_come_sorted() {
    let crates = vec![
        info("y", &["x"]),
        info("x", &["y"]),
        info("b", &["a"]),
        info("a", &["b"]),
    ];
    let graph = build_graph(&crates);
    let cycles = detect_cycles(&graph);
    assert_eq!(
        cycles,
        vec![strings(&["a", "b", "a"]), strings(&["x", "y", "x"])]
    );
}

#[test]
fn a_cycle_reaching_into_another_component_is_reported_separately() {
    // a <-> b, and b -> c <-> d: two components, each with its own chain.
    let crates = vec![
        info("a", &["b"]),
        info("b", &["a", "c"]),
        info("c", &["d"]),
        info("d", &["c"]),
    ];
    let graph = build_graph(&crates);
    let cycles = detect_cycles(&graph);
    assert_eq!(
        cycles,
        vec![strings(&["a", "b", "a"]), strings(&["c", "d", "c"])]
    );
}

#[test]
fn edges_naming_unlisted_crates_still_form_vertices() {
    let graph = Graph {
        nodes: strings(&["a"]),
        edges: vec![
            ("a".to_string(), "x".to_string()),
            ("x".to_string(), "a".to_string()),
        ],
    };
    let cycles = detect_cycles(&graph);
    assert_eq!(cycles, vec![strings(&["a", "x", "a"])]);
}

#[test]
fn every_reported_step_is_an_edge() {
    let crates = vec![
        info("p", &["q"]),
        info("q", &["r", "s"]),
        info("r", &["p"]),
        info("s", &["q"]),
    ];
    let graph = build_graph(&crates);
    let cycles = detect_cycles(&graph);
    assert_eq!(cycles.len(), 1);
    let chain = &cycles[0];
    assert_eq!(chain.first(), chain.last());
    for pair in chain.windows(2) {
        assert!(graph.edges.contains(&(pair[0].clone(), pair[1].clone())));
    }
}

#[test]
fn each_component_is_walked_from_its_own_least_crate() {
    // a only points into the component {b, c, d}; the chain starts at b,
    // the component's least crate, not at a.
    let crates = vec![
        info("a", &["c"]),
        info("b", &["c"]),
        info("c", &["b", "d"]),
        info("d", &["b"]),
    ];
    let graph = build_graph(&crates);
    let cycles = detect_cycles(&graph);
    assert_eq!(cycles, vec![strings(&["b", "c", "b"])]);
}

#[test]
fn a_self_loop_alone_is_not_a_cycle() {
    let graph = Graph {
        nodes: strings(&["a", "b"]),
        edges: vec![
            ("a".to_string(), "a".to_string()),
            ("a".to_string(), "b".to_string()),
        ],
    };
    assert!(detect_cycles(&graph).is_empty());
}

#[test]
fn the_graph_does_not_depend_on_input_order() {
    let a = vec![
        info("a", &["b", "serde", "c"]),
        info("b", &["c"]),
        info("c", &["a", "anyhow"]),
    ];
    let b = vec![
        info("c", &["anyhow", "a"]),
        info("a", &["c", "serde", "b"]),
        info("b", &["c"]),
    ];
    assert_eq!(build_graph(&a), build_graph(&b));
}

#[test]
fn one_chain_per_component_of_two_or_more_crates() {
    // {a, b, c} and {d, e} are components with cycles, f is alone.
    let crates = vec![
        info("a", &["b"]),
        info("b", &["c", "a"]),
        info("c", &["a", "d"]),
        info("d", &["e"]),
        info("e", &["d", "f"]),
        info("f", &[]),
    ];
    let cycles = detect_cycles(&build_graph(&crates));
    assert_eq!(cycles.len(), 2);
    assert_eq!(
        cycles,
        vec![strings(&["a", "b", "a"]), strings(&["d", "e", "d"])]
    );
}

#[test]
fn no_loop_among_edges_means_no_chain() {
    let graph = Graph {
        nodes: strings(&["a", "b", "c"]),
        edges: vec![
            ("a".to_string(), "b".to_string()),
            ("a".to_string(), "c".to_string()),
            ("b".to_string(), "c".to_string()),
        ],
    };
    assert!(detect_cycles(&graph).is_empty());
    let looped = Graph {
        nodes: strings(&["a", "b", "c"]),
        edges: vec![
            ("a".to_string(), "b".to_string()),
            ("b".to_string(), "c".to_string()),
            ("c".to_string(), "a".to_string()),
        ],
    };
    assert_eq!(detect_cycles(&looped), vec![strings(&["a", "b", "c", "a"])]);
}

#[test]
fn a_loop_that_no_node_reaches_is_not_searched() {
    let graph = Graph {
        nodes: strings(&["a"]),
        edges: vec![
            ("x".to_string(), "y".to_string()),
            ("y".to_string(), "x".to_string()),
        ],
    };
    assert!(detect_cycles(&graph).is_empty());
    let no_nodes = Graph {
        nodes: vec![],
        edges: vec![
            ("a".to_string(), "b".to_string()),
            ("b".to_string(), "a".to_string()),
        ],
    };
    assert!(detect_cycles(&no_nodes).is_empty());
    let reached = Graph {
        nodes: strings(&["a"]),
        edges: vec![
            ("a".to_string(), "x".to_string()),
            ("x".to_string(), "y".to_string()),
            ("y".to_string(), "x".to_string()),
        ],
    };
    assert_eq!(detect_cycles(&reached), vec![strings(&["x", "y", "x"])]);
}
