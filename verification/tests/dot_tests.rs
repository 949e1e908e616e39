use depgraph::{build_graph, detect_cycles, render_dot, CrateInfo, Graph};

#[test]
fn renders_nodes_and_plain_edges() {
    let graph = Graph {
        nodes: vec!["a".to_string(), "b".to_string()],
        edges: vec![("a".to_string(), "b".to_string())],
    };
    let dot = render_dot(&graph, &[]);
    assert!(dot.starts_with("digraph depgraph {\n"));
    assert!(dot.contains("\"a\";\n"));
    assert!(dot.contains("\"b\";\n"));
    assert!(dot.contains("\"a\" -> \"b\";\n"));
    assert!(!dot.contains("color=red"));
    assert!(dot.trim_end().ends_with('}'));
}

#[test]
fn isolated_node_with_no_edges_still_appears() {
    let graph = Graph {
        nodes: vec!["lonely".to_string()],
        edges: vec![],
    };
    let dot = render_dot(&graph, &[]);
    assert!(dot.contains("\"lonely\";\n"));
}

#[test]
fn cycle_edges_are_styled_red() {
    let graph = Graph {
        nodes: vec!["a".to_string(), "b".to_string(), "c".to_string()],
        edges: vec![
            ("a".to_string(), "b".to_string()),
            ("b".to_string(), "c".to_string()),
            ("c".to_string(), "a".to_string()),
        ],
    };
    let cycles = vec![vec![
        "a".to_string(),
        "b".to_string(),
        "c".to_string(),
        "a".to_string(),
    ]];
    let dot = render_dot(&graph, &cycles);
    assert!(dot.contains("\"a\" -> \"b\" [color=red"));
    assert!(dot.contains("\"b\" -> \"c\" [color=red"));
    assert!(dot.contains("\"c\" -> \"a\" [color=red"));
}

#[test]
fn renders_the_whole_text_exactly() {
    let graph = Graph {
        nodes: vec!["a".to_string(), "b".to_string(), "c".to_string()],
        edges: vec![
            ("a".to_string(), "b".to_string()),
            ("b".to_string(), "a".to_string()),
            ("b".to_string(), "c".to_string()),
        ],
    };
    let cycles = vec![vec!["a".to_string(), "b".to_string(), "a".to_string()]];
    let dot = render_dot(&graph, &cycles);
    assert_eq!(
        dot,
        "digraph depgraph {\n  \"a\";\n  \"b\";\n  \"c\";\n  \"a\" -> \"b\" [color=red, penwidth=2];\n  \"b\" -> \"a\" [color=red, penwidth=2];\n  \"b\" -> \"c\";\n}\n"
    );
}

#[test]
fn empty_graph_renders_header_and_brace_only() {
    let dot = render_dot(&Graph::default(), &[]);
    assert_eq!(dot, "digraph depgraph {\n}\n");
}

#[test]
fn readme_fixture_renders_as_documented() {
    let crates = vec![
        CrateInfo {
            name: "cyc-a".to_string(),
            manifest_path: "cyc-a/Cargo.toml".into(),
            dependencies: vec!["cyc-b".to_string()],
        },
        CrateInfo {
            name: "cyc-b".to_string(),
            manifest_path: "cyc-b/Cargo.toml".into(),
            dependencies: vec!["cyc-c".to_string()],
        },
        CrateInfo {
            name: "cyc-c".to_string(),
            manifest_path: "cyc-c/Cargo.toml".into(),
            dependencies: vec!["cyc-a".to_string()],
        },
    ];
    let graph = build_graph(&crates);
    let cycles = detect_cycles(&graph);
    assert_eq!(
        render_dot(&graph, &cycles),
        "digraph depgraph {\n  \"cyc-a\";\n  \"cyc-b\";\n  \"cyc-c\";\n  \"cyc-a\" -> \"cyc-b\" [color=red, penwidth=2];\n  \"cyc-b\" -> \"cyc-c\" [color=red, penwidth=2];\n  \"cyc-c\" -> \"cyc-a\" [color=red, penwidth=2];\n}\n"
    );
}

#[test]
fn non_names_in_unicode_keep_their_characters() {
    let graph = Graph {
        nodes: vec!["café".to_string()],
        edges: vec![],
    };
    assert_eq!(render_dot(&graph, &[]), "digraph depgraph {\n  \"café\";\n}\n");
}
