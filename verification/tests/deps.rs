use al_core::queries::deps::{build_dependency_graph, PackageEntry};

#[test]
fn builds_simple_graph() {
    let app_json = r#"{
    "name": "My App",
    "publisher": "Me",
    "version": "1.0.0.0",
    "dependencies": [
        { "name": "Base Application", "publisher": "Microsoft", "version": "24.0.0.0" }
    ]
}"#;

    let packages = vec![(
        "Base Application".to_string(),
        "Microsoft".to_string(),
        "24.0.0.0".to_string(),
        vec![],
    )];

    let graph = build_dependency_graph(app_json, &packages);
    assert_eq!(graph.root_app.name, "My App");
    assert!(!graph.nodes.is_empty());
    assert!(
        graph.missing.is_empty(),
        "No missing deps: {:?}",
        graph.missing
    );
}

#[test]
fn detects_missing_dependency() {
    let app_json = r#"{
    "name": "My App",
    "publisher": "Me",
    "version": "1.0.0.0",
    "dependencies": [
        { "name": "Missing Package", "publisher": "Someone", "version": "1.0.0.0" }
    ]
}"#;

    let graph = build_dependency_graph(app_json, &[]);
    assert!(
        !graph.missing.is_empty(),
        "Should detect missing dependency"
    );
}

#[test]
fn dot_export_contains_root() {
    let app_json = r#"{"name":"TestApp","publisher":"Me","version":"1.0.0.0"}"#;
    let graph = build_dependency_graph(app_json, &[]);
    let dot = graph.to_dot();
    assert!(
        dot.contains("TestApp"),
        "DOT output should contain root app name"
    );
}

#[test]
fn empty_app_json_returns_unknown() {
    let graph = build_dependency_graph("{}", &[]);
    assert_eq!(graph.root_app.name, "Unknown");
}

#[test]
fn no_collision_same_name_different_publisher() {
    let app_json = r#"{
    "name": "My App",
    "publisher": "Me",
    "version": "1.0.0.0",
    "dependencies": []
}"#;

    let packages = vec![
        (
            "Shared Lib".to_string(),
            "VendorA".to_string(),
            "1.0.0.0".to_string(),
            vec![],
        ),
        (
            "Shared Lib".to_string(),
            "VendorB".to_string(),
            "1.0.0.0".to_string(),
            vec![],
        ),
    ];

    let graph = build_dependency_graph(app_json, &packages);
    assert_eq!(
        graph.nodes.len(),
        2,
        "Both packages should be present as separate nodes"
    );
}

#[test]
fn package_level_dependency_edges_emitted_in_dot_output() {
    let app_json = r#"{
    "name": "My App",
    "publisher": "Me",
    "version": "1.0.0.0",
    "dependencies": [
        { "name": "Base Application", "publisher": "Microsoft", "version": "24.0.0.0" }
    ]
}"#;

    let packages = vec![
        (
            "Base Application".to_string(),
            "Microsoft".to_string(),
            "24.0.0.0".to_string(),
            vec![(
                "System Application".to_string(),
                "Microsoft".to_string(),
                "24.0.0.0".to_string(),
            )],
        ),
        (
            "System Application".to_string(),
            "Microsoft".to_string(),
            "24.0.0.0".to_string(),
            vec![],
        ),
    ];

    let graph = build_dependency_graph(app_json, &packages);
    let dot = graph.to_dot();

    assert!(
        dot.contains("\"My App\" -> \"Base Application\""),
        "expected root->package edge in DOT; got: {dot}"
    );
    assert!(
        dot.contains("\"Base Application\" -> \"System Application\""),
        "expected package->package edge; got: {dot}"
    );
}

#[test]
fn malformed_root_app_json_does_not_panic() {
    let graph = build_dependency_graph("{ \"name\": ", &[]);
    assert_eq!(graph.root_app.name, "Unknown");
    assert!(graph.nodes.is_empty() || graph.nodes.len() == 1);
}

#[test]
fn empty_pkg_deps_emits_no_package_level_edges() {
    let app_json = r#"{
    "name": "My App",
    "publisher": "Me",
    "version": "1.0.0.0",
    "dependencies": []
}"#;
    let packages = vec![(
        "Standalone".to_string(),
        "Vendor".to_string(),
        "1.0.0.0".to_string(),
        vec![],
    )];
    let graph = build_dependency_graph(app_json, &packages);
    let dot = graph.to_dot();
    assert!(
        !dot.contains("\"Standalone\" ->"),
        "Standalone has no deps; must not produce outgoing edge in DOT: {dot}"
    );
}

#[test]
fn no_collision_same_name_different_version() {
    let app_json = r#"{
    "name": "My App",
    "publisher": "Me",
    "version": "1.0.0.0",
    "dependencies": []
}"#;

    let packages = vec![
        (
            "My Lib".to_string(),
            "VendorA".to_string(),
            "1.0.0.0".to_string(),
            vec![],
        ),
        (
            "My Lib".to_string(),
            "VendorA".to_string(),
            "2.0.0.0".to_string(),
            vec![],
        ),
    ];

    let graph = build_dependency_graph(app_json, &packages);
    assert_eq!(
        graph.nodes.len(),
        2,
        "Both versions should be present as separate nodes"
    );
}

fn pkg(name: &str, version: &str, deps: Vec<(&str, &str)>) -> PackageEntry {
    (
        name.to_string(),
        "Microsoft".to_string(),
        version.to_string(),
        deps.into_iter()
            .map(|(n, v)| (n.to_string(), "Microsoft".to_string(), v.to_string()))
            .collect(),
    )
}

#[test]
fn transitive_dependencies_follow_package_edges() {
    let app_json = r#"{"name":"My App","dependencies":[{"name":"A","publisher":"Microsoft","version":"1"}]}"#;
    let packages = vec![
        pkg("A", "1", vec![("B", "1")]),
        pkg("B", "1", vec![("C", "1")]),
        pkg("C", "1", vec![]),
        pkg("Unrelated", "1", vec![]),
    ];
    let graph = build_dependency_graph(app_json, &packages);
    let mut names: Vec<&str> = graph.transitive.iter().map(|n| n.name.as_str()).collect();
    names.sort();
    assert_eq!(names, vec!["B", "C"]);
    assert_eq!(graph.edges.len(), 3);
    assert_eq!(graph.edges[0].from, "My App");
    assert_eq!(graph.edges[0].to, "A");
}

#[test]
fn conflicting_required_versions_are_reported() {
    let app_json = r#"{"name":"My App","dependencies":[]}"#;
    let packages = vec![
        pkg("A", "1", vec![("Lib", "1.0")]),
        pkg("B", "1", vec![("lib", "2.0")]),
        pkg("C", "1", vec![("Lib", "*")]),
        pkg("Lib", "2.0", vec![]),
    ];
    let graph = build_dependency_graph(app_json, &packages);
    assert_eq!(graph.conflicts.len(), 1);
    assert_eq!(graph.conflicts[0].name, "Lib");
    assert_eq!(graph.conflicts[0].versions, vec!["1.0", "2.0"]);
    assert_eq!(graph.conflicts[0].required_by, vec!["A", "B"]);
    let dot = graph.to_dot();
    assert!(dot.contains("  \"Lib\" [style=filled, fillcolor=red];\n"));
    assert!(dot.contains("  \"Lib\" [label=\"Lib\\n2.0\"];\n"));
}

#[test]
fn root_app_defaults_and_fields() {
    let graph = build_dependency_graph(r#"{"id": "abc", "name" : "X"}"#, &[]);
    assert_eq!(graph.root_app.app_id, "abc");
    assert_eq!(graph.root_app.name, "X");
    assert_eq!(graph.root_app.publisher, "");
    assert_eq!(graph.root_app.version, "0.0.0.0");
    assert_eq!(
        graph.to_dot(),
        "digraph AL_Dependencies {\n  rankdir=LR;\n  node [shape=box];\n  \"X\" [style=filled, fillcolor=lightblue];\n}\n"
    );
}
