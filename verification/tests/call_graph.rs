use al_core::insight::index::{CallGraph, EdgeKind, EdgeResolutionState, NodeId, NodeInfo};

fn info(id: usize, kind: &str, name: &str) -> NodeInfo {
    NodeInfo {
        id: NodeId(id),
        node_type: kind.to_string(),
        name: name.to_string(),
        object: "MyCU".to_string(),
    }
}

#[test]
fn empty_call_graph() {
    let cg = CallGraph::new();
    assert_eq!(cg.node_count(), 0);
    assert_eq!(cg.edge_count(), 0);
}

#[test]
fn direct_call_is_seen_from_both_ends() {
    let mut cg = CallGraph::new();
    let (caller, callee) = (NodeId(1), NodeId(2));
    cg.add_direct_call(caller, callee);
    let callers = cg.callers_of(callee);
    assert_eq!(callers.len(), 1);
    assert_eq!(callers[0].from, caller);
    assert_eq!(callers[0].kind, EdgeKind::DirectCall);
    assert_eq!(cg.callees_of(caller).len(), 1);
    assert_eq!(cg.callees_of(callee).len(), 0);
}

#[test]
fn trigger_invocation_edge() {
    let mut cg = CallGraph::new();
    cg.add_trigger_invocation(NodeId(1), NodeId(2));
    assert_eq!(cg.callees_of(NodeId(1))[0].kind, EdgeKind::TriggerInvocation);
    assert_eq!(cg.callers_of(NodeId(2))[0].kind, EdgeKind::TriggerInvocation);
}

#[test]
fn record_trigger_edge() {
    let mut cg = CallGraph::new();
    cg.add_trigger(NodeId(3), NodeId(4));
    let callees = cg.callees_of(NodeId(3));
    assert_eq!(callees.len(), 1);
    assert_eq!(callees[0].kind, EdgeKind::RecordTrigger);
}

#[test]
fn duplicate_edges_not_inserted() {
    let mut cg = CallGraph::new();
    let (a, b) = (NodeId(10), NodeId(11));
    cg.add_direct_call(a, b);
    cg.add_direct_call(a, b);
    cg.add_direct_call(a, b);
    assert_eq!(cg.callees_of(a).len(), 1);
    assert_eq!(cg.callers_of(b).len(), 1);
    assert_eq!(cg.edge_count(), 1);
    // A different kind between the same nodes is a different edge.
    cg.add_trigger_invocation(a, b);
    assert_eq!(cg.edge_count(), 2);
}

#[test]
fn remove_edges_from_node() {
    let mut cg = CallGraph::new();
    let (a, b, c) = (NodeId(0), NodeId(1), NodeId(2));
    cg.add_direct_call(a, b);
    cg.add_direct_call(a, c);
    cg.add_direct_call(b, c);
    assert_eq!(cg.edge_count(), 3);
    cg.remove_edges_from(a);
    assert_eq!(cg.edge_count(), 1);
    assert_eq!(cg.callees_of(a).len(), 0);
    assert_eq!(cg.callers_of(b).len(), 0);
    assert_eq!(cg.callers_of(c).len(), 1);
    assert_eq!(cg.callers_of(c)[0].from, b);
}

#[test]
fn subscribers_are_event_subscription_callers_only() {
    let mut cg = CallGraph::new();
    let event = NodeId(5);
    cg.add_direct_call(NodeId(1), event);
    cg.add_direct_call(NodeId(2), event);
    assert!(cg.subscribers_of(event).is_empty());
    assert_eq!(cg.callers_of(event).len(), 2);
}

#[test]
fn node_metadata_is_registered_and_replaced() {
    let mut cg = CallGraph::new();
    cg.register_node(NodeId(1), info(1, "procedure", "Caller"));
    cg.register_node(NodeId(2), info(2, "event", "OnPost"));
    assert_eq!(cg.node_count(), 2);
    assert_eq!(cg.node_info(NodeId(2)).unwrap().name, "OnPost");
    cg.register_node(NodeId(2), info(2, "event", "OnRelease"));
    assert_eq!(cg.node_count(), 2);
    assert_eq!(cg.node_info(NodeId(2)).unwrap().name, "OnRelease");
    assert!(cg.node_info(NodeId(3)).is_none());
    let mut ids = cg.node_ids();
    ids.sort_by_key(|n| n.0);
    assert_eq!(ids, vec![NodeId(1), NodeId(2)]);
}

#[test]
fn resolution_state_defaults_to_unresolved() {
    let mut cg = CallGraph::new();
    assert_eq!(cg.resolution_state(NodeId(9)), EdgeResolutionState::Unresolved);
    cg.set_resolution_state(NodeId(9), EdgeResolutionState::Resolving);
    assert_eq!(cg.resolution_state(NodeId(9)), EdgeResolutionState::Resolving);
    cg.set_resolution_state(NodeId(9), EdgeResolutionState::Resolved);
    assert_eq!(cg.resolution_state(NodeId(9)), EdgeResolutionState::Resolved);
}

#[test]
fn edge_kind_labels() {
    assert_eq!(EdgeKind::DirectCall.as_str(), "direct_call");
    assert_eq!(EdgeKind::EventSubscription.as_str(), "event_subscription");
    assert_eq!(EdgeKind::TriggerInvocation.as_str(), "trigger_invocation");
    assert_eq!(EdgeKind::RecordTrigger.as_str(), "record_trigger");
}

#[test]
fn callers_match_callee_lists_and_edge_count_sums_out_degrees() {
    let mut cg = CallGraph::new();
    cg.add_direct_call(NodeId(1), NodeId(2));
    cg.add_trigger_invocation(NodeId(1), NodeId(3));
    cg.add_direct_call(NodeId(4), NodeId(2));
    cg.add_direct_call(NodeId(1), NodeId(2));
    cg.add_trigger(NodeId(3), NodeId(2));
    let sources = [NodeId(1), NodeId(3), NodeId(4)];
    let total: usize = sources.iter().map(|&n| cg.callees_of(n).len()).sum();
    assert_eq!(cg.edge_count(), total);
    assert_eq!(total, 4);
    let mut from_callees: Vec<_> = sources
        .iter()
        .flat_map(|&n| cg.callees_of(n).iter().filter(|e| e.to == NodeId(2)).cloned())
        .collect();
    let mut callers: Vec<_> = cg.callers_of(NodeId(2)).to_vec();
    from_callees.sort_by_key(|e| e.from.0);
    callers.sort_by_key(|e| e.from.0);
    assert_eq!(callers.len(), 3);
    assert_eq!(
        callers.iter().map(|e| (e.from, e.kind)).collect::<Vec<_>>(),
        from_callees.iter().map(|e| (e.from, e.kind)).collect::<Vec<_>>()
    );
}
