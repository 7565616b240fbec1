use al_core::queries::audit::{
    classify_gdpr_risk, data_classification_audit, extract_field_name_from_line,
    extract_permission_objects, extract_property_value_from_line, permission_set_audit,
    scan_table_fields, GdprRisk,
};
use al_core::queries::ObjectFile;

fn object(path: &str, text: &str, kind: &str, name: &str, id: i64) -> ObjectFile {
    ObjectFile {
        path: path.to_string(),
        text: text.to_string(),
        kind: kind.to_string(),
        name: name.to_string(),
        id: Some(id),
    }
}

const CUSTOMER: &str = r#"table 18 Customer
{
    fields
    {
        field(1; "No."; Code[20])
        {
        }
        field(2; "Name"; Text[100])
        {
            DataClassification = CustomerContent;
        }
    }
}"#;

const MY_TABLE: &str = r#"table 50100 "My Table"
{
    fields { field(1; "No."; Code[20]) { } }
}"#;

#[test]
fn data_classification_finds_unclassified_field() {
    let objs = vec![object("/src/Customer.al", CUSTOMER, "table", "Customer", 18)];
    let entries = data_classification_audit(&objs);
    let no_field = entries.iter().find(|e| e.field == "No.");
    assert!(no_field.is_some(), "Should find 'No.' field");
    assert_eq!(
        no_field.unwrap().risk,
        GdprRisk::Unclassified,
        "No. should be unclassified"
    );

    let name_field = entries.iter().find(|e| e.field == "Name");
    assert!(name_field.is_some(), "Should find 'Name' field");
    assert_eq!(
        name_field.unwrap().risk,
        GdprRisk::Personal,
        "CustomerContent is personal"
    );
}

#[test]
fn data_classification_skips_non_tables() {
    let text = r#"codeunit 50100 "My CU"
{
    procedure DoWork()
    begin
    end;
}"#;
    let objs = vec![object("/src/MyCu.al", text, "codeunit", "My CU", 50100)];
    let entries = data_classification_audit(&objs);
    assert!(entries.is_empty(), "Should not audit codeunit fields");
}

#[test]
fn permission_audit_finds_uncovered_object() {
    let objs = vec![object("/src/MyTable.al", MY_TABLE, "table", "My Table", 50100)];
    let entries = permission_set_audit(&objs);
    let my_table = entries.iter().find(|e| e.name == "My Table");
    assert!(my_table.is_some(), "Should find My Table");
    assert!(!my_table.unwrap().covered, "My Table has no permission set");
}

#[test]
fn permission_audit_covered_object() {
    let perms = r#"permissionset 50100 "My Perms"
{
    Permissions =
        TableData "My Table" = RIMD;
}"#;
    let objs = vec![
        object("/src/MyTable.al", MY_TABLE, "table", "My Table", 50100),
        object("/src/MyPermSet.al", perms, "permissionset", "My Perms", 50100),
    ];
    let entries = permission_set_audit(&objs);
    let my_table = entries.iter().find(|e| e.name == "My Table");
    assert!(my_table.is_some(), "Should find My Table");
    assert!(my_table.unwrap().covered, "My Table should be covered");
    assert_eq!(my_table.unwrap().covered_by, vec!["My Perms".to_string()]);
    assert_eq!(my_table.unwrap().id, 50100);
    assert_eq!(entries.len(), 1);
}

#[test]
fn audit_empty_workspace_returns_empty() {
    let objs: Vec<ObjectFile> = Vec::new();
    assert!(data_classification_audit(&objs).is_empty());
    assert!(permission_set_audit(&objs).is_empty());
}

#[test]
fn gdpr_risk_of_classifications() {
    assert_eq!(classify_gdpr_risk("(none)"), GdprRisk::Unclassified);
    assert_eq!(classify_gdpr_risk(""), GdprRisk::Unclassified);
    assert_eq!(classify_gdpr_risk("EUII"), GdprRisk::Personal);
    assert_eq!(classify_gdpr_risk("EndUserPseudonymousIdentifiers"), GdprRisk::Personal);
    assert_eq!(classify_gdpr_risk("ToBeClassified"), GdprRisk::Personal);
    assert_eq!(
        classify_gdpr_risk("OrganizationIdentifiableInformation"),
        GdprRisk::OrganizationIdentifiableInformation
    );
    assert_eq!(classify_gdpr_risk("SystemMetadata"), GdprRisk::SystemMetadata);
    assert_eq!(classify_gdpr_risk("AccountData"), GdprRisk::NoPersonalData);
    assert_eq!(classify_gdpr_risk("none"), GdprRisk::NoPersonalData);
    assert_eq!(classify_gdpr_risk("SomePersonalThing"), GdprRisk::Personal);
    assert_eq!(classify_gdpr_risk("Other"), GdprRisk::Unclassified);
}

#[test]
fn field_names_from_declaration_lines() {
    assert_eq!(extract_field_name_from_line("field(1; \"No.\"; Code[20])"), "No.");
    assert_eq!(extract_field_name_from_line("field (2; Name; Text[100])"), "Name");
    assert_eq!(extract_field_name_from_line("field(3; Amount)"), "Amount");
    assert_eq!(extract_field_name_from_line("field(4)"), "");
    assert_eq!(extract_field_name_from_line("Field(5; X; Y)"), "");
    // An unterminated quote falls back to the unquoted form.
    assert_eq!(extract_field_name_from_line("field(6; \"Open; Code)"), "\"Open");
}

#[test]
fn property_values_from_lines() {
    assert_eq!(
        extract_property_value_from_line("DataClassification = CustomerContent;", "DataClassification"),
        Some("CustomerContent".to_string())
    );
    assert_eq!(
        extract_property_value_from_line("dataclassification: 'EUII'", "DataClassification"),
        Some("EUII".to_string())
    );
    assert_eq!(
        extract_property_value_from_line("Caption = 'x';", "DataClassification"),
        None
    );
    assert_eq!(
        extract_property_value_from_line("DataClassification = ;", "DataClassification"),
        None
    );
}

#[test]
fn scan_appends_entries_with_lines() {
    let mut out = Vec::new();
    scan_table_fields("/src/Customer.al", CUSTOMER, "Customer", &mut out);
    assert_eq!(out.len(), 2);
    assert_eq!(out[0].field, "No.");
    assert_eq!(out[0].classification, "(none)");
    assert_eq!(out[0].line, Some(5));
    assert_eq!(out[0].file.as_deref(), Some("/src/Customer.al"));
    assert_eq!(out[1].field, "Name");
    assert_eq!(out[1].classification, "CustomerContent");
    assert_eq!(out[1].line, Some(8));
    assert_eq!(out[1].table, "Customer");
}

#[test]
fn permission_objects_from_lines() {
    let text = "Permissions =\n  TableData \"My Table\" = RIMD,\n  // Table Hidden = R\n  codeunit Posting = X,\n  Page \"Unclosed = X;";
    assert_eq!(
        extract_permission_objects(text),
        vec!["My Table".to_string(), "Posting".to_string()]
    );
}
