use al_core::insight::discovery::{discover_events, DiscoveredEvent, EventNode, SubscriberNode};
use al_core::insight::index::NodeId;

fn event(id: usize, object: &str, name: &str, kind: &str) -> EventNode {
    EventNode {
        id: NodeId(id),
        object_kind: "Codeunit".to_string(),
        object_name: object.to_string(),
        name: name.to_string(),
        event_type: kind.to_string(),
    }
}

fn subscriber(object: &str, name: &str, target: (&str, &str), to: &[usize]) -> SubscriberNode {
    SubscriberNode {
        object_kind: "Codeunit".to_string(),
        object_name: object.to_string(),
        name: name.to_string(),
        target_object: target.0.to_string(),
        target_event: target.1.to_string(),
        subscribed: to.iter().map(|&i| NodeId(i)).collect(),
    }
}

#[test]
fn empty_graph_returns_empty_result() {
    let result = discover_events(&Vec::new(), &Vec::new());
    assert_eq!(result.total_events, 0);
    assert_eq!(result.total_orphans, 0);
    assert!(result.events.is_empty());
    assert!(result.orphan_subscribers.is_empty());
}

#[test]
fn event_with_no_subscribers() {
    let result = discover_events(
        &vec![event(1, "Sales-Post", "OnAfterPost", "Integration")],
        &Vec::new(),
    );
    assert_eq!(result.total_events, 1);
    assert_eq!(result.total_orphans, 0);
    let ev = &result.events[0];
    assert_eq!(ev.event_name, "OnAfterPost");
    assert_eq!(ev.publisher.object_name, "Sales-Post");
    assert_eq!(ev.publisher.event_type, "Integration");
    assert!(!ev.has_subscribers);
    assert_eq!(ev.subscriber_count, 0);
}

#[test]
fn business_event_type_detected() {
    let result = discover_events(
        &vec![event(1, "Sales-Post", "OnBeforeRelease", "Business")],
        &Vec::new(),
    );
    assert_eq!(result.total_events, 1);
    assert_eq!(result.events[0].publisher.event_type, "Business");
}

#[test]
fn event_with_one_subscriber() {
    let result = discover_events(
        &vec![event(1, "Sales-Post", "OnAfterPost", "Integration")],
        &vec![subscriber(
            "My Extension",
            "HandleAfterPost",
            ("Sales-Post", "OnAfterPost"),
            &[1],
        )],
    );
    assert_eq!(result.total_events, 1);
    assert_eq!(result.total_orphans, 0);
    let ev = &result.events[0];
    assert!(ev.has_subscribers);
    assert_eq!(ev.subscriber_count, 1);
    assert_eq!(ev.subscribers[0].object_name, "My Extension");
    assert_eq!(ev.subscribers[0].method_name, "HandleAfterPost");
}

#[test]
fn event_with_multiple_subscribers() {
    let result = discover_events(
        &vec![event(1, "Sales-Post", "OnAfterPost", "Integration")],
        &vec![
            subscriber("Sub-B", "HandleB", ("Sales-Post", "OnAfterPost"), &[1]),
            subscriber("sub-a", "HandleA", ("Sales-Post", "OnAfterPost"), &[1]),
        ],
    );
    assert_eq!(result.total_events, 1);
    let ev = &result.events[0];
    assert_eq!(ev.subscriber_count, 2);
    // Sorted by object name, ASCII case ignored.
    assert_eq!(ev.subscribers[0].object_name, "sub-a");
    assert_eq!(ev.subscribers[1].object_name, "Sub-B");
}

#[test]
fn orphan_subscriber_detected() {
    let result = discover_events(
        &Vec::new(),
        &vec![subscriber(
            "Orphan Sub",
            "HandleMissing",
            ("NonExistent", "OnMissingEvent"),
            &[],
        )],
    );
    assert_eq!(result.total_events, 0);
    assert_eq!(result.total_orphans, 1);
    let orphan = &result.orphan_subscribers[0];
    assert_eq!(orphan.object_name, "Orphan Sub");
    assert_eq!(orphan.method_name, "HandleMissing");
    assert_eq!(orphan.target_object, "NonExistent");
    assert_eq!(orphan.target_event, "OnMissingEvent");
}

#[test]
fn mix_of_events_and_orphans() {
    let result = discover_events(
        &vec![event(1, "Sales-Post", "OnAfterPost", "Integration")],
        &vec![
            subscriber("Real Sub", "HandleAfterPost", ("Sales-Post", "OnAfterPost"), &[1]),
            subscriber("Orphan Sub", "HandleGhost", ("Ghost", "OnGhost"), &[]),
        ],
    );
    assert_eq!(result.total_events, 1);
    assert_eq!(result.total_orphans, 1);
    assert_eq!(result.events[0].subscriber_count, 1);
    assert_eq!(result.orphan_subscribers[0].object_name, "Orphan Sub");
}

#[test]
fn events_sorted_by_publisher_then_event_name() {
    let result = discover_events(
        &vec![
            event(1, "Alpha", "OnZ", "Integration"),
            event(2, "Alpha", "OnA", "Integration"),
            event(3, "Beta", "OnMiddle", "Integration"),
        ],
        &Vec::new(),
    );
    assert_eq!(result.total_events, 3);
    let alpha_events: Vec<&DiscoveredEvent> = result
        .events
        .iter()
        .filter(|e| e.publisher.object_name == "Alpha")
        .collect();
    assert_eq!(alpha_events.len(), 2);
    assert_eq!(alpha_events[0].event_name, "OnA");
    assert_eq!(alpha_events[1].event_name, "OnZ");
    let beta_idx = result
        .events
        .iter()
        .position(|e| e.publisher.object_name == "Beta")
        .unwrap();
    let alpha_last_idx = result
        .events
        .iter()
        .rposition(|e| e.publisher.object_name == "Alpha")
        .unwrap();
    assert!(beta_idx > alpha_last_idx);
}

#[test]
fn publisher_event_name_matches_event_name() {
    let result = discover_events(&vec![event(1, "CU", "OnTestEvent", "Integration")], &Vec::new());
    let ev = &result.events[0];
    assert_eq!(ev.publisher.event_name, ev.event_name);
}

#[test]
fn circular_event_chain_terminates() {
    let result = discover_events(
        &vec![
            event(1, "CU-A", "EventA", "Integration"),
            event(2, "CU-B", "EventB", "Integration"),
            event(3, "CU-C", "EventC", "Integration"),
        ],
        &vec![
            subscriber("CU-A", "HandleC", ("CU-C", "EventC"), &[3]),
            subscriber("CU-B", "HandleA", ("CU-A", "EventA"), &[1]),
            subscriber("CU-C", "HandleB", ("CU-B", "EventB"), &[2]),
        ],
    );
    assert_eq!(result.total_events, 3);
    assert_eq!(result.total_orphans, 0);
    for ev in &result.events {
        assert_eq!(ev.subscriber_count, 1);
    }
}

#[test]
fn repeated_event_node_is_reported_once() {
    let result = discover_events(
        &vec![
            event(7, "CU", "OnX", "Integration"),
            event(7, "CU", "OnX", "Integration"),
        ],
        &vec![subscriber("S", "H", ("CU", "OnX"), &[7, 9])],
    );
    assert_eq!(result.total_events, 1);
    assert_eq!(result.events[0].subscriber_count, 1);
    assert_eq!(result.total_orphans, 0);
}
