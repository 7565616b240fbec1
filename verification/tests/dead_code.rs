use al_core::queries::dead_code::{
    collect_fields_from_text, contains_member_access, extract_text_call_names,
    find_unused_fields, parse_subscriber_args, split_args, UnusedKind, UnusedReason,
};

#[test]
fn call_names_on_a_line() {
    assert_eq!(
        extract_text_call_names("    DoWork(); Cust.Modify(true);"),
        vec!["dowork".to_string(), "modify".to_string()]
    );
    assert!(extract_text_call_names("procedure Helper(X: Integer)").is_empty());
    assert_eq!(
        extract_text_call_names("Local procedure  Foo(); Bar_2()"),
        vec!["bar_2".to_string()]
    );
    assert!(extract_text_call_names("(x) + ( y)").is_empty());
}

#[test]
fn member_access_is_bounded_and_case_insensitive() {
    let text = "Rec.NameOfSomething := 1;\nx := Rec.name;";
    assert!(contains_member_access(text, "Name"));
    assert!(!contains_member_access("Rec.NameOfSomething := 1;", "Name"));
    assert!(contains_member_access("Rec.\"No.\" := '';", "No."));
    assert!(!contains_member_access("// Rec.Name", "Name"));
    assert!(contains_member_access("a.Name1; b.name", "name"));
}

#[test]
fn fields_from_table_text() {
    let text = "table 1 T\n{\n  field(1; \"No.\"; Code[20]) { }\n  field (2; Amount; Decimal) { }\n  field(3; \"Open; Code)\n}";
    let mut fields = Vec::new();
    collect_fields_from_text(text, &mut fields);
    assert_eq!(
        fields,
        vec![("No.".to_string(), 3), ("Amount".to_string(), 4)]
    );
}

#[test]
fn unused_fields_across_files() {
    let table = "table 1 T\n{\n  field(1; Used; Integer) { }\n  field(2; Unused; Integer) { }\n}";
    let files = vec![
        ("/t.al".to_string(), format!("{}\nx := Rec.Unused;", table)),
        ("/c.al".to_string(), "Rec.Used := 1;".to_string()),
    ];
    let mut out = Vec::new();
    find_unused_fields("/t.al", table, "T", &files, &mut out);
    assert_eq!(out.len(), 1);
    assert_eq!(out[0].name, "Unused");
    assert_eq!(out[0].kind, UnusedKind::Field);
    assert_eq!(out[0].reason, UnusedReason::ZeroReferences);
    assert_eq!(out[0].line, Some(4));
    assert_eq!(out[0].object, "T");
}

#[test]
fn split_args_respects_quotes() {
    assert_eq!(
        split_args("a, 'b, c', \"d,'e\", f"),
        vec!["a", "'b, c'", "\"d,'e\"", "f"]
    );
    assert_eq!(split_args("x, , "), vec!["x", ""]);
    assert!(split_args("").is_empty());
}

#[test]
fn subscriber_targets() {
    assert_eq!(
        parse_subscriber_args(
            "[EventSubscriber(ObjectType::Codeunit, Codeunit::\"Sales-Post\", 'OnAfterPost', '', false, false)]"
        ),
        ("Sales-Post".to_string(), "OnAfterPost".to_string())
    );
    assert_eq!(
        parse_subscriber_args("[EventSubscriber(ObjectType::Table, \"My Tab\")]"),
        ("My Tab".to_string(), String::new())
    );
    assert_eq!(
        parse_subscriber_args("[EventSubscriber)("),
        (String::new(), String::new())
    );
}
