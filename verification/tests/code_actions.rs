use al_core::queries::code_actions::with_elimination;
use al_core::queries::code_actions::{
    detect_indent, detect_object_kind, extract_type_name_from_diagnostic, parse_using_directives,
    qualify_line, qualify_with_references, try_extract_quoted_identifier, AlObjectKind,
    CodeActionKind,
};

#[test]
fn insertion_point_after_existing_using_directives() {
    let source = "namespace MyApp;\nusing Foo.Bar;\nusing Baz.Qux;\n\ncodeunit 50100 Test { }\n";
    let (usings, insert_line) = parse_using_directives(source);
    assert_eq!(usings, vec!["Foo.Bar", "Baz.Qux"]);
    assert_eq!(insert_line, 3, "should insert after last using line");
}

#[test]
fn insertion_point_after_namespace_when_no_usings() {
    let source = "namespace MyApp;\n\ncodeunit 50100 Test { }\n";
    let (usings, insert_line) = parse_using_directives(source);
    assert!(usings.is_empty());
    assert_eq!(insert_line, 1, "should insert after namespace line");
}

#[test]
fn insertion_point_at_top_when_no_header() {
    let source = "codeunit 50100 Test { }\n";
    let (usings, insert_line) = parse_using_directives(source);
    assert!(usings.is_empty());
    assert_eq!(insert_line, 0, "should insert at top when no header");
}

#[test]
fn extract_type_name_from_quoted_al0185_message() {
    assert_eq!(
        extract_type_name_from_diagnostic("Type 'SalesHeader' could not be found"),
        Some("SalesHeader".to_string()),
    );
}

#[test]
fn extract_type_name_from_unquoted_message() {
    assert_eq!(
        extract_type_name_from_diagnostic("MyTable could not be found"),
        Some("MyTable".to_string()),
    );
}

#[test]
fn extract_type_name_from_does_not_exist_message() {
    assert_eq!(
        extract_type_name_from_diagnostic("'PostingGroup' does not exist in the current context"),
        Some("PostingGroup".to_string()),
    );
}

#[test]
fn code_actions_qualify_line_does_not_skip_keyword_prefixed_identifiers() {
    assert!(qualify_line("EndDate := Today;", "Rec").starts_with("Rec."));
    assert!(qualify_line("FormatText := 'X';", "Rec").starts_with("Rec."));
    assert!(qualify_line("CaseNo := 1;", "Rec").starts_with("Rec."));
    assert!(qualify_line("IfFlag := true;", "Rec").starts_with("Rec."));
    assert!(qualify_line("MessageText := '';", "Rec").starts_with("Rec."));
    assert!(qualify_line("ExitCode := 0;", "Rec").starts_with("Rec."));
    assert!(qualify_line("ErrorText := '';", "Rec").starts_with("Rec."));
}

#[test]
fn code_actions_qualify_line_skips_al_keywords_exactly() {
    assert_eq!(qualify_line("end;", "Rec"), "end;");
    assert_eq!(qualify_line("begin", "Rec"), "begin");
    assert_eq!(qualify_line("end", "Rec"), "end");
    assert!(qualify_line("if x = 1 then", "Rec").starts_with("if"));
    assert!(qualify_line("for i := 1 to 10 do", "Rec").starts_with("for"));
    assert!(qualify_line("while x > 0 do", "Rec").starts_with("while"));
    assert!(qualify_line("case x of", "Rec").starts_with("case"));
}

#[test]
fn code_actions_qualify_line_skips_already_qualified_references() {
    assert_eq!(qualify_line("Rec.Name := 'X';", "Rec2"), "Rec.Name := 'X';");
    assert_eq!(qualify_line("Customer.\"No.\" := '100';", "Rec"), "Customer.\"No.\" := '100';");
}

#[test]
fn with_elimination_qualify_line_does_not_skip_keyword_prefixed_identifiers() {
    let f = |l: &str| with_elimination::qualify_line(l, "Rec", &[]);
    assert!(f("EndDate := Today;").starts_with("Rec."));
    assert!(f("FormatText := 'X';").starts_with("Rec."));
    assert!(f("CaseNo := 1;").starts_with("Rec."));
    assert!(f("IfFlag := true;").starts_with("Rec."));
    assert!(f("MessageText := '';").starts_with("Rec."));
    assert!(f("ExitCode := 0;").starts_with("Rec."));
    assert!(f("ErrorText := '';").starts_with("Rec."));
}

#[test]
fn with_elimination_qualify_line_skips_al_keywords_exactly() {
    let f = |l: &str| with_elimination::qualify_line(l, "Rec", &[]);
    assert_eq!(f("end;"), "end;");
    assert_eq!(f("begin"), "begin");
    assert_eq!(f("end"), "end");
    assert!(f("if x = 1 then").starts_with("if"));
    assert!(f("for i := 1 to 10 do").starts_with("for"));
    assert!(f("while x > 0 do").starts_with("while"));
    assert!(f("case x of").starts_with("case"));
}

#[test]
fn with_elimination_qualify_line_skips_already_qualified_references() {
    assert_eq!(
        with_elimination::qualify_line("Rec.Name := 'X';", "Rec2", &[]),
        "Rec.Name := 'X';"
    );
    assert_eq!(
        with_elimination::qualify_line("Customer.\"No.\" := '100';", "Rec", &[]),
        "Customer.\"No.\" := '100';"
    );
}

#[test]
fn detect_object_kind_routes_known_types() {
    assert_eq!(detect_object_kind("page 50 X { }"), Some(AlObjectKind::Page));
    assert_eq!(detect_object_kind("table 50 X { }"), Some(AlObjectKind::Table));
    assert_eq!(detect_object_kind("codeunit 50 X { }"), Some(AlObjectKind::Codeunit));
    assert_eq!(detect_object_kind("report 50 X { }"), Some(AlObjectKind::Report));
}

#[test]
fn detect_object_kind_routes_extensions_and_extras_distinctly() {
    for (txt, expected, label) in [
        ("pageextension 50 X extends Y { }", AlObjectKind::PageExtension, "pageextension"),
        ("tableextension 50 X extends Y { }", AlObjectKind::TableExtension, "tableextension"),
        ("xmlport 50 X { }", AlObjectKind::XmlPort, "xmlport"),
        ("query 50 X { }", AlObjectKind::Query, "query"),
        ("enum 50 X { }", AlObjectKind::Enum, "enum"),
        ("interface IX { }", AlObjectKind::Interface, "interface"),
        ("permissionset 50 X { }", AlObjectKind::PermissionSet, "permissionset"),
        ("profile X { }", AlObjectKind::Profile, "profile"),
        ("controladdin X { }", AlObjectKind::ControlAddIn, "controladdin"),
        ("reportextension 50 X extends Y { }", AlObjectKind::ReportExtension, "reportextension"),
        ("enumextension 50 X extends Y { }", AlObjectKind::EnumExtension, "enumextension"),
    ] {
        assert_eq!(detect_object_kind(txt), Some(expected), "{label} routed to wrong variant");
    }
}

#[test]
fn detect_object_kind_now_recognises_previously_missed_types() {
    for (txt, label) in [
        ("permissionset 50 X { }", "permissionset"),
        ("profile X { }", "profile"),
        ("controladdin X { }", "controladdin"),
        ("entitlement X { }", "entitlement"),
        ("reportextension 50 X extends Y { }", "reportextension"),
        ("enumextension 50 X extends Y { }", "enumextension"),
    ] {
        assert!(detect_object_kind(txt).is_some(), "{label}: should be recognised");
    }
}

#[test]
fn detect_object_kind_returns_none_for_unknown_or_blank() {
    assert!(detect_object_kind("").is_none());
    assert!(detect_object_kind("// comment only\n").is_none());
    assert!(detect_object_kind("garbage 99 X").is_none());
}

#[test]
fn page_only_actions_do_not_match_query_or_xmlport() {
    let query_kind = detect_object_kind("query 50 X { }").unwrap();
    let xmlport_kind = detect_object_kind("xmlport 50 X { }").unwrap();
    for k in [query_kind, xmlport_kind] {
        assert_ne!(k, AlObjectKind::Page);
        assert_ne!(k, AlObjectKind::PageExtension);
        assert_ne!(k, AlObjectKind::Other);
    }
}

#[test]
fn detect_object_kind_skips_leading_comments_and_blank_lines() {
    let text = "// header\n\n   \npage 50 MyPage { }";
    assert_eq!(detect_object_kind(text), Some(AlObjectKind::Page));
}

#[test]
fn code_action_kind_names() {
    assert_eq!(CodeActionKind::QuickFix.as_str(), "quickfix");
    assert_eq!(CodeActionKind::Refactor.as_str(), "refactor");
    assert_eq!(CodeActionKind::Source.as_str(), "source");
}

#[test]
fn detect_object_kind_other_for_unrouted_keywords() {
    assert_eq!(detect_object_kind("Entitlement X { }"), Some(AlObjectKind::Other));
    assert_eq!(detect_object_kind("PAGE 1 X"), Some(AlObjectKind::Page));
}

#[test]
fn indentation_of_lines() {
    assert_eq!(detect_indent("a\n    b\n", 1), "    ");
    assert_eq!(detect_indent("a\n\tb", 1), "\t");
    assert_eq!(detect_indent("a", 5), "    ");
}

#[test]
fn using_parsing_strips_comments_and_semicolons() {
    let (usings, line) = parse_using_directives("Using A.B;; // note\n// c\nusing C;;\ncodeunit 1 X {}\nusing D;");
    assert_eq!(usings, vec!["A.B;;", "C"]);
    assert_eq!(line, 3);
}

#[test]
fn type_name_fallbacks() {
    assert_eq!(extract_type_name_from_diagnostic("'' could not be found"), None);
    assert_eq!(extract_type_name_from_diagnostic("(Foo) could not be found"), Some("Foo".to_string()));
    assert_eq!(extract_type_name_from_diagnostic("nothing here"), None);
}

#[test]
fn with_body_is_reindented_and_qualified() {
    let body = "  Name := 'X';\n\n// keep\n  if a then\n";
    assert_eq!(
        qualify_with_references(body, "Cust", "    "),
        "    Cust.Name := 'X';\n    \n    // keep\n    if a then\n"
    );
}

#[test]
fn with_elimination_substitutes_known_fields() {
    let fields = vec!["No.".to_string(), "Name".to_string()];
    let out = with_elimination::qualify_line("if Name = 1 then", "Cust", &fields);
    assert_eq!(out, "if Cust.Name = 1 then");
    let out = with_elimination::qualify_line("if Rec.Name = NameX then", "Cust", &fields);
    assert_eq!(out, "if Rec.Name = NameX then");
    let out = with_elimination::qualify_line("Message(Name);", "Cust", &fields);
    assert_eq!(out, "Cust.Message(Cust.Name);");
    assert_eq!(
        with_elimination::qualify_with_references("Name := 1;\n", "C", "", &fields),
        "C.Name := 1;\n"
    );
}

#[test]
fn quoted_identifier_under_cursor() {
    let line = b"x := \"Sales Header\".Get();";
    assert_eq!(try_extract_quoted_identifier(line, 8), Some("Sales Header".to_string()));
    assert_eq!(try_extract_quoted_identifier(line, 2), None);
    assert_eq!(try_extract_quoted_identifier(line, 100), None);
    assert_eq!(try_extract_quoted_identifier(b"\"\"", 0), None);
}
