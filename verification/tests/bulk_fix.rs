use al_core::queries::bulk_fix::{
    descends_into, extract_field_source_name, find_tooltip, fix_application_area,
    fix_data_classification, inject_application_area, inject_data_classification,
    inject_tooltips, is_al_extension, is_page_file, is_table_file, leading_whitespace,
    BulkFixResult,
};

#[test]
fn add_application_area_to_page_fields() {
    let source = r#"page 50100 "Test Page"
{
    layout
    {
        area(Content)
        {
            field(myField; Rec."No.")
            {
                Caption = 'No';
            }
        }
    }
}
"#;
    let (result, changes) = inject_application_area(source, "All");
    assert_eq!(changes, 1);
    assert!(result.contains("ApplicationArea = All;"));
}

#[test]
fn add_application_area_skips_existing() {
    let source = r#"page 50100 "Test Page"
{
    layout
    {
        area(Content)
        {
            field(myField; Rec."No.")
            {
                ApplicationArea = All;
                Caption = 'No';
            }
        }
    }
}
"#;
    let (_result, changes) = inject_application_area(source, "All");
    assert_eq!(changes, 0);
}

#[test]
fn add_data_classification_to_table_fields() {
    let source = r#"table 50100 "My Table"
{
    fields
    {
        field(1; "No."; Code[20])
        {
            Caption = 'No.';
        }
    }
}
"#;
    let (result, changes) = inject_data_classification(source, "CustomerContent");
    assert_eq!(changes, 1);
    assert!(result.contains("DataClassification = CustomerContent;"));
}

#[test]
fn add_data_classification_skips_existing() {
    let source = r#"table 50100 "My Table"
{
    fields
    {
        field(1; "No."; Code[20])
        {
            DataClassification = CustomerContent;
        }
    }
}
"#;
    let (_result, changes) = inject_data_classification(source, "CustomerContent");
    assert_eq!(changes, 0);
}

#[test]
fn add_data_classification_skips_flow_fields() {
    let source = r#"table 50100 "My Table"
{
    fields
    {
        field(1; "Balance"; Decimal)
        {
            FieldClass = FlowField;
            CalcFormula = Sum("Entry"."Amount");
        }
    }
}
"#;
    let (_result, changes) = inject_data_classification(source, "CustomerContent");
    assert_eq!(changes, 0);
}

#[test]
fn is_page_file_detects_page() {
    assert!(is_page_file("page 50100 \"Test\"\n{"));
    assert!(is_page_file(
        "pageextension 50100 extends \"Customer List\"\n{"
    ));
    assert!(!is_page_file("table 50100 \"Test\"\n{"));
    assert!(!is_page_file("codeunit 50100 \"Test\"\n{"));
}

#[test]
fn is_table_file_detects_table() {
    assert!(is_table_file("table 50100 \"Test\"\n{"));
    assert!(is_table_file("tableextension 50100 extends Customer\n{"));
    assert!(!is_table_file("page 50100 \"Test\"\n{"));
}

#[test]
fn extract_field_source_name_parses_rec_prefix() {
    assert_eq!(
        extract_field_source_name("field(no; Rec.\"No.\")"),
        Some("No.".to_string())
    );
    assert_eq!(
        extract_field_source_name("field(name; Rec.\"Name\") {"),
        Some("Name".to_string())
    );
}

#[test]
fn inject_tooltips_adds_missing_tooltip() {
    let source = r#"page 50100 "Test"
{
    layout
    {
        area(Content)
        {
            field(no; Rec."No.")
            {
                ApplicationArea = All;
            }
        }
    }
}
"#;
    let tooltips = vec![("No.".to_string(), "the item number".to_string())];
    let (result, changes) = inject_tooltips(source, &tooltips);
    assert_eq!(changes, 1);
    assert!(result.contains("ToolTip"));
}

#[test]
fn inject_tooltips_skips_existing() {
    let source = r#"page 50100 "Test"
{
    layout
    {
        area(Content)
        {
            field(no; Rec."No.")
            {
                ToolTip = 'My custom tooltip';
            }
        }
    }
}
"#;
    let tooltips = vec![("No.".to_string(), "the item number".to_string())];
    let (_result, changes) = inject_tooltips(source, &tooltips);
    assert_eq!(changes, 0);
}

#[test]
fn application_area_inserted_with_block_indent_and_text_kept() {
    let source = "page 1 P\n{\n    action(Post)\n    {\n    }\n}";
    let (result, changes) = inject_application_area(source, "Basic");
    assert_eq!(changes, 1);
    assert_eq!(
        result,
        "page 1 P\n{\n    action(Post)\n    {\n        ApplicationArea = Basic;\n    }\n}"
    );
}

#[test]
fn tooltip_quotes_are_escaped() {
    let source = "page 1 P\n{\n    field(a; Rec.Name)\n    {\n    }\n}\n";
    let tooltips = vec![("name".to_string(), "the customer's name".to_string())];
    let (result, changes) = inject_tooltips(source, &tooltips);
    assert_eq!(changes, 1);
    assert!(result.contains("        ToolTip = 'Specifies the customer''s name';\n"));
    assert!(result.ends_with("}\n"));
}

#[test]
fn field_source_name_edge_cases() {
    assert_eq!(extract_field_source_name("field(x)"), None);
    assert_eq!(extract_field_source_name("field(x; \"\")"), None);
    assert_eq!(extract_field_source_name("action(x; Rec.A)"), None);
    assert_eq!(extract_field_source_name("  field(x; rec.Amount)"), Some("Amount".to_string()));
    assert_eq!(extract_field_source_name("field(x; Plain)"), Some("Plain".to_string()));
}

#[test]
fn tooltip_lookup_ignores_ascii_case() {
    let tips = vec![
        ("Name".to_string(), "first".to_string()),
        ("NAME".to_string(), "second".to_string()),
    ];
    assert_eq!(find_tooltip("name", &tips), Some("first"));
    assert_eq!(find_tooltip("other", &tips), None);
}

#[test]
fn per_file_fixes_respect_object_type() {
    let page = "page 1 P\n{\n    field(a; Rec.A)\n    {\n    }\n}\n";
    assert!(fix_application_area(page, "All").is_some());
    assert!(fix_data_classification(page, "CustomerContent").is_none());
    let table = "table 1 T\n{\n    field(1; A; Integer)\n    {\n    }\n}\n";
    assert!(fix_application_area(table, "All").is_none());
    let (text, n) = fix_data_classification(table, "CustomerContent").unwrap();
    assert_eq!(n, 1);
    assert!(text.contains("        DataClassification = CustomerContent;\n"));
}

#[test]
fn bulk_result_accumulates() {
    let mut r = BulkFixResult::new(true);
    r.record("a.al".to_string(), 2);
    r.record("b.al".to_string(), 3);
    assert_eq!(r.changes_count, 5);
    assert_eq!(r.modified_files, vec!["a.al", "b.al"]);
    assert!(r.dry_run);
}

#[test]
fn walk_filters() {
    assert!(descends_into("src"));
    assert!(!descends_into(".git"));
    assert!(!descends_into("target"));
    assert!(is_al_extension("AL"));
    assert!(!is_al_extension("json"));
    assert_eq!(leading_whitespace("  \tx "), "  \t");
}

#[test]
fn second_data_classification_pass_changes_nothing() {
    let src = "table 50100 T\n{\n    fields\n    {\n        field(1; Name; Text[50])\n        {\n        }\n        field(2; Code; Code[20])\n        {\n            Caption = 'Code';\n        }\n    }\n}\n";
    let (once, n1) = inject_data_classification(src, "CustomerContent");
    assert_eq!(n1, 2);
    let (twice, n2) = inject_data_classification(&once, "CustomerContent");
    assert_eq!(n2, 0);
    assert_eq!(twice, once);
}

#[test]
fn second_data_classification_pass_keeps_text_without_final_newline() {
    let src = "table 50101 U\n{\n    fields\n    {\n        field(1; No; Integer)\n        {\n        }\n    }\n}";
    let (once, n1) = inject_data_classification(src, "SystemMetadata");
    assert_eq!(n1, 1);
    assert!(!once.ends_with('\n'));
    assert!(once.contains("            DataClassification = SystemMetadata;"));
    let (twice, n2) = inject_data_classification(&once, "SystemMetadata");
    assert_eq!(n2, 0);
    assert_eq!(twice, once);
}
