use al_core::queries::arch_lint::{
    applies_to_kind, apply_rule, arch_lint, arch_lint_object, ArchConfig, ArchRule,
    ArchRuleKind, ProcedureComplexity,
};
use al_core::queries::ObjectFile;

fn object(text: &str, kind: &str, name: &str, id: Option<i64>) -> ObjectFile {
    ObjectFile {
        path: "/src/Obj.al".to_string(),
        text: text.to_string(),
        kind: kind.to_string(),
        name: name.to_string(),
        id,
    }
}

fn rule(id: &str, kind: ArchRuleKind, pattern: &str, values: &[&str]) -> ArchRule {
    ArchRule {
        id: id.to_string(),
        description: "Desc".to_string(),
        kind,
        pattern: pattern.to_string(),
        values: values.iter().map(|v| v.to_string()).collect(),
    }
}

#[test]
fn forbidden_pattern_detects_sleep() {
    let text = r#"codeunit 50100 "MyCodeunit"
{
    procedure DoWork()
    begin
        Sleep(1000);
    end;
}"#;
    let objs = vec![(
        object(text, "codeunit", "MyCodeunit", Some(50100)),
        Vec::new(),
    )];
    let config = ArchConfig {
        rules: vec![ArchRule {
            id: "ARCH-TEST-001".to_string(),
            description: "Do not use Sleep".to_string(),
            kind: ArchRuleKind::ForbiddenPattern,
            pattern: "codeunit".to_string(),
            values: vec!["Sleep(1000)".to_string()],
        }],
    };
    let v = arch_lint(&objs, &config);
    assert!(
        v.iter().any(|x| x.rule_id == "ARCH-TEST-001"),
        "Should detect Sleep: {:?}",
        v
    );
}

#[test]
fn empty_workspace_no_violations() {
    let v = arch_lint(&Vec::new(), &ArchConfig::default());
    assert!(v.is_empty());
}

#[test]
fn builtin_rule_checks_table_numbers() {
    let rules = ArchConfig::builtin_rules();
    assert_eq!(rules.len(), 1);
    assert_eq!(rules[0].id, "ARCH-001");
    assert_eq!(rules[0].kind, ArchRuleKind::RequiredProperty);
    let low = object("table 18 Customer {}", "table", "Customer", Some(18));
    let v = arch_lint_object(&low, &Vec::new(), &ArchConfig::default());
    assert_eq!(v.len(), 1);
    assert_eq!(
        v[0].message,
        "Table IDs must be in range 50000-99999 for custom objects: ID 18 outside allowed range 50000-99999"
    );
    assert_eq!(v[0].line, Some(1));
    let ok = object("table 50100 T {}", "table", "T", Some(50100));
    assert!(arch_lint_object(&ok, &Vec::new(), &ArchConfig::default()).is_empty());
    let cu = object("codeunit 1 C {}", "codeunit", "C", Some(1));
    assert!(arch_lint_object(&cu, &Vec::new(), &ArchConfig::default()).is_empty());
}

#[test]
fn naming_convention_wants_uppercase_start() {
    let r = rule("N", ArchRuleKind::NamingConvention, "", &["^[A-Z]"]);
    let mut v = Vec::new();
    apply_rule(&object("", "codeunit", "lower", None), "codeunit", &r, &Vec::new(), &mut v);
    assert_eq!(v.len(), 1);
    assert_eq!(v[0].message, "Desc: 'lower' does not start with uppercase");
    let mut w = Vec::new();
    apply_rule(&object("", "codeunit", "Upper", None), "codeunit", &r, &Vec::new(), &mut w);
    assert!(w.is_empty());
}

#[test]
fn max_complexity_reports_each_procedure_above() {
    let r = rule("C", ArchRuleKind::MaxComplexity, "codeunit", &["3"]);
    let metrics = vec![
        ProcedureComplexity { name: "A".to_string(), cyclomatic: 2, line: 4 },
        ProcedureComplexity { name: "B".to_string(), cyclomatic: 7, line: 9 },
    ];
    let mut v = Vec::new();
    apply_rule(&object("", "codeunit", "X", None), "codeunit", &r, &metrics, &mut v);
    assert_eq!(v.len(), 1);
    assert_eq!(v[0].message, "Desc: 'B' complexity 7 > 3");
    assert_eq!(v[0].line, Some(9));
    // Default limit 10 when the value is unreadable.
    let r10 = rule("C", ArchRuleKind::MaxComplexity, "", &["x"]);
    let mut w = Vec::new();
    apply_rule(&object("", "codeunit", "X", None), "codeunit", &r10, &metrics, &mut w);
    assert!(w.is_empty());
}

#[test]
fn rule_patterns_select_kinds() {
    assert!(applies_to_kind("", "table"));
    assert!(applies_to_kind("Table", "tableextension"));
    assert!(!applies_to_kind("page", "table"));
}

#[test]
fn required_property_with_negative_number() {
    let r = rule("R", ArchRuleKind::RequiredProperty, "", &["1-5"]);
    let mut v = Vec::new();
    apply_rule(&object("", "table", "T", Some(-3)), "table", &r, &Vec::new(), &mut v);
    assert_eq!(v.len(), 1);
    assert_eq!(v[0].message, "Desc: ID -3 outside allowed range 1-5");
}
