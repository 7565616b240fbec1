use al_core::insight::calls::{
    clean_attr_arg, declared_name, extract_attribute_args, is_local_modifier,
    parse_attr_args_from_text, parse_subscriber_target_from_attrs, procedure_role,
    record_op_event_names, sorted_scores, tier1_threshold, ProcedureRole, RecordOp,
};

#[test]
fn extract_attribute_args_basic() {
    let text = "[EventSubscriber(ObjectType::Codeunit, Codeunit::\"Sales-Post\", 'OnAfterPost', '', false, false)]";
    let args = extract_attribute_args(text);
    assert_eq!(args.len(), 6);
    assert_eq!(args[0], "ObjectType::Codeunit");
    assert_eq!(args[2], "'OnAfterPost'");
}

#[test]
fn clean_attr_arg_strips_prefix_and_quotes() {
    assert_eq!(clean_attr_arg("Codeunit::\"Sales-Post\""), "Sales-Post");
    assert_eq!(clean_attr_arg("'OnAfterPost'"), "OnAfterPost");
    assert_eq!(clean_attr_arg("  \"My Object\"  "), "My Object");
}

#[test]
fn record_op_from_method_name() {
    assert_eq!(RecordOp::from_method_name("Insert"), Some(RecordOp::Insert));
    assert_eq!(RecordOp::from_method_name("insert"), Some(RecordOp::Insert));
    assert_eq!(RecordOp::from_method_name("MODIFY"), Some(RecordOp::Modify));
    assert_eq!(RecordOp::from_method_name("delete"), Some(RecordOp::Delete));
    assert_eq!(
        RecordOp::from_method_name("Validate"),
        Some(RecordOp::Validate)
    );
    assert_eq!(RecordOp::from_method_name("Post"), None);
}

#[test]
fn attribute_args_keep_commas_inside_quotes_and_brackets() {
    let args = extract_attribute_args("[Attr('a, b', \"x \"\", y\", F(1, 2), last)]");
    assert_eq!(args, vec!["'a, b'", "\"x \"\", y\"", "F(1, 2)", "last"]);
}

#[test]
fn attribute_args_without_brackets_are_empty() {
    assert!(extract_attribute_args("[Obsolete]").is_empty());
    assert!(extract_attribute_args("[Attr()]").is_empty());
    assert!(extract_attribute_args("[Attr)(]").is_empty());
}

#[test]
fn attribute_args_keep_empty_middle_arguments() {
    let args = extract_attribute_args("[A(x, , y, )]");
    assert_eq!(args, vec!["x", "", "y"]);
}

#[test]
fn plain_attribute_args_split_every_comma() {
    assert_eq!(
        parse_attr_args_from_text("[IntegrationEvent(false, false)]"),
        vec!["false", "false"]
    );
    assert_eq!(
        parse_attr_args_from_text("[A('a, b', , c)]"),
        vec!["'a", "b'", "c"]
    );
    assert!(parse_attr_args_from_text("[A]").is_empty());
}

#[test]
fn event_names_of_record_ops() {
    assert_eq!(
        record_op_event_names(RecordOp::Insert),
        ("OnBeforeInsertEvent".to_string(), "OnAfterInsertEvent".to_string())
    );
    assert_eq!(
        record_op_event_names(RecordOp::Validate),
        ("OnBeforeValidateEvent".to_string(), "OnAfterValidateEvent".to_string())
    );
}

fn attrs(list: &[(&str, &str)]) -> Vec<(String, String)> {
    list.iter()
        .map(|(a, b)| (a.to_string(), b.to_string()))
        .collect()
}

#[test]
fn subscriber_target_from_attributes() {
    let a = attrs(&[
        ("Scope", "[Scope('OnPrem')]"),
        (
            "EventSubscriber",
            "[EventSubscriber(ObjectType::Codeunit, Codeunit::\"Sales-Post\", 'OnAfterPost', '', false, false)]",
        ),
    ]);
    assert_eq!(
        parse_subscriber_target_from_attrs(&a),
        ("Sales-Post".to_string(), "OnAfterPost".to_string())
    );
    let none = attrs(&[("Scope", "[Scope('OnPrem')]")]);
    assert_eq!(
        parse_subscriber_target_from_attrs(&none),
        (String::new(), String::new())
    );
    let short = attrs(&[("EventSubscriber", "[EventSubscriber(ObjectType::Table)]")]);
    assert_eq!(
        parse_subscriber_target_from_attrs(&short),
        (String::new(), String::new())
    );
}

#[test]
fn procedure_roles() {
    let ev = attrs(&[("IntegrationEvent", "[IntegrationEvent(false, false)]")]);
    assert!(matches!(
        procedure_role(&ev, true),
        ProcedureRole::Event { business: false }
    ));
    let both = attrs(&[
        ("IntegrationEvent", "[IntegrationEvent(false, false)]"),
        ("BusinessEvent", "[BusinessEvent(false)]"),
    ]);
    assert!(matches!(
        procedure_role(&both, false),
        ProcedureRole::Event { business: true }
    ));
    let sub = attrs(&[(
        "EventSubscriber",
        "[EventSubscriber(ObjectType::Table, Database::Customer, 'OnAfterInsertEvent', '', false, false)]",
    )]);
    match procedure_role(&sub, false) {
        ProcedureRole::Subscriber {
            target_object,
            target_event,
        } => {
            assert_eq!(target_object, "Customer");
            assert_eq!(target_event, "OnAfterInsertEvent");
        }
        other => panic!("expected a subscriber, got {:?}", other),
    }
    assert!(matches!(
        procedure_role(&Vec::new(), true),
        ProcedureRole::Procedure { is_local: true }
    ));
}

#[test]
fn declared_names_and_modifiers() {
    assert_eq!(declared_name("\"Post Document\""), Some("Post Document".to_string()));
    assert_eq!(declared_name("  DoWork "), Some("DoWork".to_string()));
    assert_eq!(declared_name("\"\""), None);
    assert!(is_local_modifier(" LOCAL "));
    assert!(is_local_modifier("local"));
    assert!(!is_local_modifier("internal"));
}

#[test]
fn tier1_threshold_of_scores() {
    assert_eq!(sorted_scores(&vec![3, 1, 2, 1]), vec![1, 1, 2, 3]);
    assert_eq!(tier1_threshold(&Vec::new()), 5);
    // Index 8 of ten ascending scores is 9; capped at 5.
    assert_eq!(tier1_threshold(&(1..=10).collect::<Vec<usize>>()), 5);
    // Index 4 of five scores [0, 1, 2, 3, 4] is 4.
    assert_eq!(tier1_threshold(&vec![4, 3, 2, 1, 0]), 4);
    // All zero: at least 1.
    assert_eq!(tier1_threshold(&vec![0, 0, 0]), 1);
}
