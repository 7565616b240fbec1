use al_core::queries::code_actions::if_to_case::{case_statement_text, is_literal, order_operands};

#[test]
fn literals() {
    assert!(is_literal("42"));
    assert!(is_literal(" -3.5 "));
    assert!(is_literal("'Open'"));
    assert!(is_literal("TRUE"));
    assert!(is_literal("false"));
    assert!(!is_literal("Status"));
    assert!(!is_literal("4a"));
    assert!(!is_literal("'"));
    assert!(!is_literal(""));
}

#[test]
fn yoda_conditions_are_reordered() {
    assert_eq!(
        order_operands("1".to_string(), "x".to_string()),
        ("x".to_string(), "1".to_string())
    );
    assert_eq!(
        order_operands("x".to_string(), "1".to_string()),
        ("x".to_string(), "1".to_string())
    );
    assert_eq!(
        order_operands("1".to_string(), "2".to_string()),
        ("1".to_string(), "2".to_string())
    );
}

#[test]
fn case_statement_from_branches() {
    let branches = vec![
        ("x".to_string(), "1".to_string(), "  A := 1;\n   B := 2;  ".to_string()),
        ("x".to_string(), "2".to_string(), "C := 3;".to_string()),
    ];
    let text = case_statement_text("  ", "x", &branches, &Some(" D := 4; ".to_string()));
    assert_eq!(
        text,
        "  case x of\n      1:\n          A := 1;\n          B := 2;\n      2:\n          C := 3;\n      else\n          D := 4;\n  end\n"
    );
    let no_else = case_statement_text("", "v", &branches[..1].to_vec(), &None);
    assert_eq!(no_else, "case v of\n    1:\n        A := 1;\n        B := 2;\nend\n");
}
