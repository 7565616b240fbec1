use al_core::queries::count_detail_params;
use al_core::queries::code_actions::AlObjectKind;
use al_core::queries::completions::{
    add_default_completions, default_context_completions, type_position_completions, DocumentProcedure,
    ImplicitVariable, IndexedObject, ScopedVariable,
};
use al_core::queries::completions::{
    bridge_entries, bridge_kind, finalize_completion_items, finalize_with_param_counts, BridgeCompletion, CompletionEntry, CompletionKind,
};

#[test]
fn completion_kind_serializes_to_lsp_integer() {
    // The number under which each kind is sent to clients.
    assert_eq!(CompletionKind::Function.lsp_kind(), 3);
    assert_eq!(CompletionKind::Field.lsp_kind(), 5);
    assert_eq!(CompletionKind::Variable.lsp_kind(), 6);
    assert_eq!(CompletionKind::Class.lsp_kind(), 7);
    assert_eq!(CompletionKind::Keyword.lsp_kind(), 14);
}

#[test]
fn bridge_kind_names_map_to_kinds() {
    assert_eq!(bridge_kind("Method"), CompletionKind::Method);
    assert_eq!(bridge_kind("Function"), CompletionKind::Method);
    assert_eq!(bridge_kind("Property"), CompletionKind::Field);
    assert_eq!(bridge_kind("Field"), CompletionKind::Field);
    assert_eq!(bridge_kind("Variable"), CompletionKind::Variable);
    assert_eq!(bridge_kind("EnumMember"), CompletionKind::EnumMember);
    assert_eq!(bridge_kind("Struct"), CompletionKind::Class);
    assert_eq!(bridge_kind("Namespace"), CompletionKind::Module);
    assert_eq!(bridge_kind("Keyword"), CompletionKind::Keyword);
    assert_eq!(bridge_kind("Snippet"), CompletionKind::Snippet);
    assert_eq!(bridge_kind("method"), CompletionKind::Text);
}

#[test]
fn bridge_entries_sort_after_native_items() {
    let items = vec![
        BridgeCompletion {
            label: "CalcFields".to_string(),
            kind: "Method".to_string(),
            detail: Some("CalcFields(...)".to_string()),
            documentation: None,
        },
        BridgeCompletion {
            label: "Name".to_string(),
            kind: "Field".to_string(),
            detail: None,
            documentation: Some("The name".to_string()),
        },
    ];
    let entries = bridge_entries(items);
    assert_eq!(entries.len(), 2);
    assert_eq!(entries[0].label, "CalcFields");
    assert_eq!(entries[0].kind, CompletionKind::Method);
    assert_eq!(entries[0].sort_text.as_deref(), Some("2_calcfields"));
    assert_eq!(entries[0].detail.as_deref(), Some("CalcFields(...)"));
    assert_eq!(entries[1].kind, CompletionKind::Field);
    assert_eq!(entries[1].sort_text.as_deref(), Some("2_name"));
    assert_eq!(entries[1].documentation.as_deref(), Some("The name"));
    assert!(entries[1].insert_text.is_none());
}

fn item(label: &str, kind: CompletionKind, sort_text: Option<&str>) -> CompletionEntry {
    CompletionEntry {
        label: label.to_string(),
        kind,
        detail: None,
        documentation: None,
        insert_text: None,
        sort_text: sort_text.map(|s| s.to_string()),
    }
}

fn with_detail(mut e: CompletionEntry, detail: &str) -> CompletionEntry {
    e.detail = Some(detail.to_string());
    e
}

#[test]
fn finalize_orders_dedups_and_fills_sort_texts() {
    let mut items = vec![
        item("if", CompletionKind::Keyword, None),
        with_detail(item("DoIt", CompletionKind::Function, None), "(A: Text): Boolean"),
        item("x", CompletionKind::Variable, Some("0_x")),
        item("doit", CompletionKind::Keyword, None),
        item("Alpha", CompletionKind::Class, None),
    ];
    finalize_completion_items(&mut items);
    let got: Vec<(String, Option<String>)> =
        items.iter().map(|e| (e.label.clone(), e.sort_text.clone())).collect();
    assert_eq!(
        got,
        vec![
            ("x".to_string(), Some("0_x".to_string())),
            ("DoIt".to_string(), Some("1_01_doit".to_string())),
            ("Alpha".to_string(), Some("1_alpha".to_string())),
            ("if".to_string(), Some("1_if".to_string())),
        ]
    );
}

#[test]
fn finalize_keeps_procedure_named_like_keyword() {
    let mut items = vec![item("Begin", CompletionKind::Keyword, None), item("begin", CompletionKind::Method, None)];
    finalize_with_param_counts(&mut items, &vec![0, 12]);
    assert_eq!(items.len(), 1);
    assert_eq!(items[0].kind, CompletionKind::Method);
    assert_eq!(items[0].sort_text.as_deref(), Some("1_12_begin"));
}

#[test]
fn count_params_works() {
    assert_eq!(count_detail_params("()"), 0);
    assert_eq!(count_detail_params(""), 0);
    assert_eq!(count_detail_params("(A: Text)"), 1);
    assert_eq!(count_detail_params("(A: Text; B: Integer)"), 2);
    assert_eq!(count_detail_params("(A: Text; B: Integer; C: Boolean)"), 3);
    assert_eq!(count_detail_params("(A: List of [Text]; B: Integer)"), 2);
    assert_eq!(count_detail_params("(A: Text): Boolean"), 1);
}

#[test]
fn finalize_ranks_methods_by_parameters_in_detail() {
    let mut items = vec![
        with_detail(item("Post", CompletionKind::Method, None), "(Doc: Code[20]; Hide: Boolean)"),
        with_detail(item("Get", CompletionKind::Method, None), "(  )"),
    ];
    finalize_completion_items(&mut items);
    assert_eq!(items[0].sort_text.as_deref(), Some("1_00_get"));
    assert_eq!(items[1].sort_text.as_deref(), Some("1_02_post"));
}

fn obj(name: &str, kind: AlObjectKind, kind_name: &str, id: u32) -> IndexedObject {
    IndexedObject { name: name.to_string(), kind, kind_name: kind_name.to_string(), id }
}

#[test]
fn default_items_come_in_order_with_their_details() {
    let mut items = Vec::new();
    add_default_completions(
        &mut items,
        &vec!["begin".to_string()],
        &vec![DocumentProcedure { name: "Post".to_string(), detail: Some("(Doc: Code[20])".to_string()) }],
        &vec![ScopedVariable {
            name: "Cust".to_string(),
            var_type: "Record".to_string(),
            type_subtype: Some("Customer".to_string()),
            scope_label: "local".to_string(),
        }],
        &vec![obj("Customer", AlObjectKind::Table, "Table", 18), obj("Sales-Post", AlObjectKind::Codeunit, "Codeunit", 80)],
        &vec!["JsonObject".to_string()],
    );
    assert_eq!(items.len(), 6);
    assert_eq!(items[0].label, "begin");
    assert_eq!(items[0].kind, CompletionKind::Keyword);
    assert_eq!(items[1].kind, CompletionKind::Function);
    assert_eq!(items[1].detail.as_deref(), Some("(Doc: Code[20])"));
    assert_eq!(items[2].detail.as_deref(), Some("Record \"Customer\" (local)"));
    assert_eq!(items[2].sort_text.as_deref(), Some("0_Cust"));
    assert_eq!(items[3].kind, CompletionKind::Struct);
    assert_eq!(items[3].detail.as_deref(), Some("Table 18"));
    assert_eq!(items[4].kind, CompletionKind::Module);
    assert_eq!(items[5].detail.as_deref(), Some("built-in type"));
}

#[test]
fn type_position_offers_at_most_fifty_objects_per_kind() {
    let mut objects = Vec::new();
    for i in 0..60u32 {
        objects.push(obj(&format!("T{i:02}"), AlObjectKind::Table, "Table", 50000 + i));
    }
    objects.push(obj("Status", AlObjectKind::Enum, "Enum", 7));
    objects.push(obj("Card", AlObjectKind::Page, "Page", 21));
    let items = type_position_completions(&vec!["Integer".to_string()], &objects);
    assert_eq!(items.len(), 52);
    assert!(items.iter().any(|e| e.label == "\"T49\""));
    assert!(!items.iter().any(|e| e.label == "\"T50\""));
    assert!(!items.iter().any(|e| e.label == "\"Card\""));
    let status = items.iter().find(|e| e.label == "\"Status\"").unwrap();
    assert_eq!(status.kind, CompletionKind::Class);
    assert_eq!(status.detail.as_deref(), Some("Enum 7"));
}

#[test]
fn default_context_puts_variables_first_and_implicit_ones_in() {
    let items = default_context_completions(
        &vec![ImplicitVariable { name: "Rec".to_string(), var_type: "Record".to_string(), description: "Current record".to_string() }],
        &vec!["if".to_string()],
        &vec![],
        &vec![ScopedVariable { name: "x".to_string(), var_type: "Integer".to_string(), type_subtype: None, scope_label: "local".to_string() }],
        &vec![],
        &vec![],
    );
    assert_eq!(items.len(), 3);
    assert_eq!(items[0].label, "x");
    assert_eq!(items[0].detail.as_deref(), Some("Integer (local)"));
    let rec = items.iter().find(|e| e.label == "Rec").unwrap();
    assert_eq!(rec.detail.as_deref(), Some("Record — Current record"));
    assert!(type_position_completions(&vec![], &vec![]).is_empty());
}
