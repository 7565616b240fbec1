use al_core::insight::index::{CallGraph, NodeId, NodeInfo};
use al_core::insight::search::{
    event_roots, export_dot, find_entry_points, trace_event_chain, trace_event_chain_by_name,
    EventIndexEntry, ChainNode, GraphEdge, GraphNode, MAX_CHAIN_NODES,
};

fn info(id: usize, kind: &str, name: &str, object: &str) -> (NodeId, NodeInfo) {
    (
        NodeId(id),
        NodeInfo {
            id: NodeId(id),
            node_type: kind.to_string(),
            name: name.to_string(),
            object: object.to_string(),
        },
    )
}

fn graph(nodes: Vec<(NodeId, NodeInfo)>, subs: &[(usize, usize)]) -> CallGraph {
    let pairs: Vec<(NodeId, NodeId)> = subs.iter().map(|&(s, e)| (NodeId(s), NodeId(e))).collect();
    CallGraph::build_from_insight(nodes, &pairs)
}

fn roots(list: &[(usize, &str)]) -> Vec<(NodeId, String)> {
    list.iter().map(|&(id, o)| (NodeId(id), o.to_string())).collect()
}

#[test]
fn chain_returns_root_event() {
    let cg = graph(vec![info(1, "event", "OnPost", "CU")], &[]);
    let chain = trace_event_chain(&cg, roots(&[(1, "CU")]), "OnPost", 10);
    assert_eq!(chain.event_name, "OnPost");
    assert_eq!(chain.publisher_object, "CU");
    assert_eq!(chain.chains.len(), 1);
    assert_eq!(chain.chains[0].node_type, "event");
    assert_eq!(chain.chains[0].edge_kind, "origin");
    assert_eq!(chain.chains[0].name, "OnPost");
    assert_eq!(chain.chains[0].depth, 0);
    assert_eq!(chain.nodes_visited, 1);
}

#[test]
fn chain_finds_single_subscriber() {
    let cg = graph(
        vec![
            info(1, "event", "OnAfterPost", "SalesPost"),
            info(2, "subscriber", "HandleAfterPost", "MyExt"),
        ],
        &[(2, 1)],
    );
    let chain = trace_event_chain(&cg, roots(&[(1, "SalesPost")]), "OnAfterPost", 10);
    assert_eq!(chain.chains.len(), 1);
    let root = &chain.chains[0];
    assert_eq!(root.children.len(), 1);
    let sub = &root.children[0];
    assert_eq!(sub.node_type, "subscriber");
    assert_eq!(sub.edge_kind, "event_subscription");
    assert_eq!(sub.name, "HandleAfterPost");
    assert_eq!(sub.object, "MyExt");
    assert!(!sub.cycle);
    // The subscriber's own edge leads back to the root: a cycle.
    assert_eq!(sub.children.len(), 1);
    assert!(sub.children[0].cycle);
}

#[test]
fn chain_finds_multiple_subscribers() {
    let cg = graph(
        vec![
            info(1, "event", "OnRelease", "Publisher"),
            info(2, "subscriber", "H1", "SubA"),
            info(3, "subscriber", "H2", "SubB"),
            info(4, "subscriber", "H3", "SubC"),
        ],
        &[(2, 1), (3, 1), (4, 1)],
    );
    let chain = trace_event_chain(&cg, roots(&[(1, "Publisher")]), "OnRelease", 10);
    let root = &chain.chains[0];
    assert_eq!(root.children.len(), 3);
    let names: Vec<&str> = root.children.iter().map(|c| c.name.as_str()).collect();
    assert_eq!(names, vec!["H1", "H2", "H3"]);
    for child in &root.children {
        assert_eq!(child.node_type, "subscriber");
        assert_eq!(child.depth, 1);
    }
}

#[test]
fn chain_cycle_detection_prevents_infinite_loop() {
    // A subscribes to EventC and publishes EventA; B subscribes to EventA;
    // C subscribes to EventB.
    let cg = graph(
        vec![
            info(1, "event", "EventA", "CU-A"),
            info(2, "subscriber", "HandleEventC", "CU-A"),
            info(3, "event", "EventB", "CU-B"),
            info(4, "subscriber", "HandleEventA", "CU-B"),
            info(5, "event", "EventC", "CU-C"),
            info(6, "subscriber", "HandleEventB", "CU-C"),
        ],
        &[(2, 5), (4, 1), (6, 3)],
    );
    let chain = trace_event_chain(&cg, roots(&[(1, "CU-A")]), "EventA", 20);
    assert_eq!(chain.event_name, "EventA");
    assert!(!chain.chains.is_empty());
}

#[test]
fn chain_respects_max_depth_zero() {
    let cg = graph(
        vec![info(1, "event", "OnPost", "Pub"), info(2, "subscriber", "Handle", "Sub")],
        &[(2, 1)],
    );
    let chain = trace_event_chain(&cg, roots(&[(1, "Pub")]), "OnPost", 0);
    assert_eq!(chain.chains.len(), 1);
    assert!(chain.chains[0].children.is_empty());
}

#[test]
fn chain_through_direct_call_to_event() {
    let cg = graph(
        vec![
            info(1, "event", "EventA", "Pub"),
            info(2, "event", "EventB", "Mid"),
            info(3, "subscriber", "HandleEventA", "Mid"),
            info(4, "subscriber", "HandleEventB", "Final"),
        ],
        &[(3, 1), (4, 2)],
    );
    let chain = trace_event_chain(&cg, roots(&[(1, "Pub")]), "EventA", 10);
    let root = &chain.chains[0];
    assert_eq!(root.children.len(), 1);
    let sub_mid = &root.children[0];
    assert_eq!(sub_mid.object, "Mid");
    assert_eq!(sub_mid.node_type, "subscriber");
}

#[test]
fn chain_unknown_event_returns_empty() {
    let cg = graph(vec![info(1, "event", "OnPost", "CU")], &[]);
    let chain = trace_event_chain(&cg, Vec::new(), "NonExistent", 10);
    assert!(chain.chains.is_empty());
    assert_eq!(chain.nodes_visited, 0);
    assert_eq!(chain.publisher_object, "");
}

#[test]
fn chain_direct_cycle_subscriber_to_root_event_detected() {
    let cg = graph(
        vec![
            info(1, "event", "EventA", "CU-A"),
            info(2, "subscriber", "HandleEventA", "CU-B"),
        ],
        &[(2, 1)],
    );
    let chain = trace_event_chain(&cg, roots(&[(1, "CU-A")]), "EventA", 2);
    assert_eq!(chain.chains.len(), 1);
    let root = &chain.chains[0];
    assert_eq!(root.children.len(), 1);
    let sub = &root.children[0];
    assert_eq!(sub.name, "HandleEventA");
    assert_eq!(sub.object, "CU-B");
    for child in &sub.children {
        if child.node_type == "event" {
            assert!(child.cycle, "re-entry into root EventA must be cycle=true");
        }
    }
}

fn depths_ok(n: &ChainNode, max: usize) -> bool {
    n.depth <= max && n.children.iter().all(|c| c.depth == n.depth + 1 && depths_ok(c, max))
}

#[test]
fn chain_depths_stay_within_limit() {
    let cg = graph(
        vec![
            info(1, "event", "E1", "A"),
            info(2, "subscriber", "S1", "B"),
            info(3, "event", "E2", "B"),
            info(4, "subscriber", "S2", "C"),
        ],
        &[(2, 1), (4, 3), (2, 3)],
    );
    for max in 0..4 {
        let chain = trace_event_chain(&cg, roots(&[(1, "A"), (3, "B")]), "E", max);
        assert_eq!(chain.chains.len(), 2);
        for c in &chain.chains {
            assert!(depths_ok(c, max));
        }
        assert!(chain.nodes_visited <= MAX_CHAIN_NODES);
    }
}

fn codeunit_with_event(cu: &str, event: &str) -> (Vec<GraphNode>, Vec<GraphEdge>) {
    (
        vec![
            GraphNode::Object { kind: "Codeunit".to_string(), name: cu.to_string() },
            GraphNode::Event { object_name: cu.to_string(), name: event.to_string() },
        ],
        vec![GraphEdge { source: 0, target: 1, label: "publishes".to_string(), contains: true }],
    )
}

#[test]
fn export_dot_produces_valid_output() {
    let (nodes, edges) = codeunit_with_event("TestCU", "MyEvent");
    let dot = export_dot(&nodes, &edges);
    assert!(dot.starts_with("digraph insight {"));
    assert!(dot.contains("rankdir=LR"));
    assert!(dot.ends_with("}\n"));
    assert!(dot.contains("TestCU"));
}

#[test]
fn export_dot_escapes_double_quotes_in_labels() {
    let (nodes, edges) = codeunit_with_event("My \"Special\" CU", "OnPost");
    let dot = export_dot(&nodes, &edges);
    assert!(!dot.contains(r#"label="My "Special""#));
    assert!(dot.contains(r#"My \"Special\" CU"#));
    assert!(dot.starts_with("digraph insight {"));
    assert!(dot.ends_with("}\n"));
}

#[test]
fn export_dot_exact_text() {
    let nodes = vec![
        GraphNode::Object { kind: "Codeunit".to_string(), name: "A".to_string() },
        GraphNode::Procedure { object_name: "A".to_string(), name: "Run".to_string() },
        GraphNode::Subscriber { object_name: "B".to_string(), name: "OnX".to_string() },
    ];
    let edges = vec![GraphEdge { source: 0, target: 1, label: "contains".to_string(), contains: true }];
    assert_eq!(
        export_dot(&nodes, &edges),
        "digraph insight {\n    rankdir=LR;\n    node [shape=box];\n\n    n0 [label=\"Codeunit\\nA\", shape=box];\n    n1 [label=\"A.Run\", shape=ellipse];\n    n2 [label=\"B::OnX\", shape=hexagon];\n\n    n0 -> n1 [label=\"contains\"];\n}\n"
    );
}

#[test]
fn find_entry_points_returns_procedures_without_callers() {
    let (nodes, edges) = codeunit_with_event("TestCU", "OnRun");
    // OnRun is an event, not a procedure: no entry points.
    assert!(find_entry_points(&nodes, &edges).is_empty());
}

#[test]
fn entry_points_are_uncalled_procedures() {
    let nodes = vec![
        GraphNode::Object { kind: "Codeunit".to_string(), name: "A".to_string() },
        GraphNode::Procedure { object_name: "A".to_string(), name: "Entry".to_string() },
        GraphNode::Procedure { object_name: "A".to_string(), name: "Helper".to_string() },
        GraphNode::Event { object_name: "A".to_string(), name: "OnX".to_string() },
    ];
    let edges = vec![
        GraphEdge { source: 0, target: 1, label: "contains".to_string(), contains: true },
        GraphEdge { source: 0, target: 2, label: "contains".to_string(), contains: true },
        GraphEdge { source: 1, target: 2, label: "calls".to_string(), contains: false },
    ];
    assert_eq!(find_entry_points(&nodes, &edges), vec![1]);
}

fn entry(name: &str, node: usize, object: &str) -> EventIndexEntry {
    EventIndexEntry { name: name.to_string(), node: NodeId(node), object_name: object.to_string() }
}

#[test]
fn roots_are_the_events_named_case_insensitively() {
    let index = vec![entry("onpost", 1, "CU-A"), entry("onrelease", 2, "CU-A"), entry("onpost", 3, "CU-B")];
    let roots = event_roots(&index, "OnPost");
    assert_eq!(roots, vec![(NodeId(1), "CU-A".to_string()), (NodeId(3), "CU-B".to_string())]);
    assert!(event_roots(&index, "Missing").is_empty());
}

#[test]
fn chain_by_name_starts_from_indexed_events() {
    let g = graph(vec![info(1, "event", "OnPost", "CU-A")], &[]);
    let chain = trace_event_chain_by_name(&g, &vec![entry("onpost", 1, "CU-A")], "ONPOST", 10);
    assert_eq!(chain.event_name, "ONPOST");
    assert_eq!(chain.publisher_object, "CU-A");
    assert_eq!(chain.chains.len(), 1);
    assert_eq!(chain.chains[0].node_type, "event");
    assert_eq!(chain.chains[0].edge_kind, "origin");
    assert_eq!(chain.chains[0].depth, 0);
    let none = trace_event_chain_by_name(&g, &Vec::new(), "OnPost", 10);
    assert!(none.chains.is_empty());
    assert_eq!(none.nodes_visited, 0);
    assert_eq!(none.publisher_object, "");
}
