use al_core::queries::breaking_changes::{
    analyze_breaking_changes, BreakingChangeKind, MethodSig, ObjectSymbols, ParamSig,
};

fn codeunit(name: &str, methods: Vec<MethodSig>) -> ObjectSymbols {
    ObjectSymbols {
        kind: "Codeunit".to_string(),
        name: name.to_string(),
        methods,
        fields: Vec::new(),
        enum_values: Vec::new(),
    }
}

fn method(name: &str, params: Vec<ParamSig>, ret: Option<&str>) -> MethodSig {
    MethodSig {
        name: name.to_string(),
        parameters: params,
        return_type: ret.map(|r| r.to_string()),
        is_local: false,
    }
}

fn param(name: &str, ty: &str) -> ParamSig {
    ParamSig {
        name: name.to_string(),
        param_type: ty.to_string(),
    }
}

#[test]
fn detects_removed_object() {
    let baseline = vec![codeunit("Sales Post", vec![])];
    let changes = analyze_breaking_changes(&baseline, &Vec::new());
    assert!(
        changes
            .iter()
            .any(|c| c.kind == BreakingChangeKind::ObjectRemoved && c.object == "Sales Post"),
        "Should detect removed object: {:?}",
        changes
    );
    assert_eq!(changes[0].description, "Object 'Sales Post' (Codeunit) was removed");
    assert_eq!(changes[0].member, None);
}

#[test]
fn detects_removed_procedure() {
    let old_cu = codeunit("My CU", vec![method("PublicProc", vec![], None)]);
    let new_cu = codeunit("my cu", vec![]);
    let changes = analyze_breaking_changes(&vec![old_cu], &vec![new_cu]);
    assert!(
        changes.iter().any(|c| c.kind == BreakingChangeKind::ProcedureRemoved
            && c.member.as_deref() == Some("PublicProc")),
        "Should detect removed procedure: {:?}",
        changes
    );
    assert_eq!(
        changes[0].description,
        "Public procedure 'PublicProc' was removed from 'My CU'"
    );
}

#[test]
fn detects_signature_change() {
    let old_cu = codeunit("My CU", vec![method("Process", vec![param("Amount", "Decimal")], None)]);
    let new_cu = codeunit("My CU", vec![method("Process", vec![param("Amount", "Integer")], None)]);
    let changes = analyze_breaking_changes(&vec![old_cu], &vec![new_cu]);
    assert!(
        changes
            .iter()
            .any(|c| c.kind == BreakingChangeKind::SignatureChanged),
        "Should detect parameter type change: {:?}",
        changes
    );
    assert_eq!(
        changes[0].description,
        "Parameter 1 type changed from 'Decimal' to 'Integer' in 'Process'"
    );
}

#[test]
fn no_changes_for_identical_symbols() {
    let cu = codeunit("My CU", vec![method("Process", vec![param("Amount", "Decimal")], None)]);
    let changes = analyze_breaking_changes(&vec![cu.clone()], &vec![cu]);
    assert!(changes.is_empty(), "No changes for identical symbols");
}

#[test]
fn detects_removed_field() {
    let old_table = ObjectSymbols {
        kind: "Table".to_string(),
        name: "Customer".to_string(),
        methods: Vec::new(),
        fields: vec!["No.".to_string(), "Old Field".to_string()],
        enum_values: Vec::new(),
    };
    let new_table = ObjectSymbols {
        fields: vec!["No.".to_string()],
        ..old_table.clone()
    };
    let changes = analyze_breaking_changes(&vec![old_table], &vec![new_table]);
    assert!(
        changes.iter().any(|c| c.kind == BreakingChangeKind::FieldRemoved
            && c.member.as_deref() == Some("Old Field")),
        "Should detect removed field: {:?}",
        changes
    );
}

#[test]
fn local_procedures_not_breaking() {
    let old_cu = codeunit(
        "My CU",
        vec![MethodSig {
            name: "LocalHelper".to_string(),
            parameters: vec![],
            return_type: None,
            is_local: true,
        }],
    );
    let new_cu = codeunit("My CU", vec![]);
    let changes = analyze_breaking_changes(&vec![old_cu], &vec![new_cu]);
    assert!(
        !changes
            .iter()
            .any(|c| c.member.as_deref() == Some("LocalHelper")),
        "Local procedures should not be flagged as breaking"
    );
}

#[test]
fn adding_procedure_is_not_breaking() {
    let old_cu = codeunit("My CU", vec![]);
    let new_cu = codeunit("My CU", vec![method("NewProc", vec![], None)]);
    let changes = analyze_breaking_changes(&vec![old_cu], &vec![new_cu]);
    assert!(changes.is_empty(), "Adding a procedure is not a breaking change");
}

#[test]
fn return_type_and_parameter_count_changes() {
    let old_cu = codeunit(
        "CU",
        vec![method("F", vec![param("A", "Text"), param("B", "Code")], Some("Boolean"))],
    );
    let new_cu = codeunit("CU", vec![method("f", vec![param("A", "Text")], None)]);
    let changes = analyze_breaking_changes(&vec![old_cu.clone()], &vec![new_cu.clone()]);
    assert_eq!(changes.len(), 2);
    assert_eq!(changes[0].kind, BreakingChangeKind::ReturnTypeChanged);
    assert_eq!(
        changes[0].description,
        "Return type of 'F' changed from 'Some(\"Boolean\")' to 'None'"
    );
    assert_eq!(changes[1].kind, BreakingChangeKind::SignatureChanged);
    assert!(changes[1].is_breaking);
    assert_eq!(
        changes[1].description,
        "Procedure 'F' parameter count changed from 2 to 1"
    );
    // Adding a parameter is reported but not definitely breaking.
    let back = analyze_breaking_changes(
        &vec![codeunit("CU", vec![method("F", vec![param("A", "Text")], None)])],
        &vec![old_cu.clone()],
    );
    assert!(back.iter().any(|c| c.kind == BreakingChangeKind::SignatureChanged && !c.is_breaking));
}

#[test]
fn removed_enum_values() {
    let old_enum = ObjectSymbols {
        kind: "Enum".to_string(),
        name: "Status".to_string(),
        methods: Vec::new(),
        fields: Vec::new(),
        enum_values: vec!["Open".to_string(), "Closed".to_string()],
    };
    let new_enum = ObjectSymbols {
        enum_values: vec!["OPEN".to_string()],
        ..old_enum.clone()
    };
    let changes = analyze_breaking_changes(&vec![old_enum], &vec![new_enum]);
    assert_eq!(changes.len(), 1);
    assert_eq!(changes[0].kind, BreakingChangeKind::EnumValueRemoved);
    assert_eq!(changes[0].description, "Enum value 'Closed' was removed from 'Status'");
}
