use al_core::queries::code_actions::lint_fixes::{compute_pascal_case_fix, lint_quick_fix_for_diagnostic};
use al_core::queries::code_actions::{CodeActionKind, DiagnosticInfo};
use al_core::queries::{Position, Range};

fn diag(code: &str, l1: u32, c1: u32, l2: u32, c2: u32) -> DiagnosticInfo {
    DiagnosticInfo {
        range: Range { start: Position { line: l1, character: c1 }, end: Position { line: l2, character: c2 } },
        message: String::new(),
        code: Some(code.to_string()),
    }
}

const SRC: &str = "codeunit 50100 C\n{\n    procedure doWork()\n    begin\n    end;\n}\n";

fn only_edit(a: &al_core::queries::code_actions::CodeActionEntry) -> (Range, String) {
    let ws = a.edit.as_ref().unwrap();
    assert_eq!(ws.changes.len(), 1);
    assert_eq!(ws.changes[0].0, "file:///c.al");
    assert_eq!(ws.changes[0].1.len(), 1);
    (ws.changes[0].1[0].range, ws.changes[0].1[0].new_text.clone())
}

#[test]
fn todo_comment_goes_below_the_flagged_line_with_its_indent() {
    let a = lint_quick_fix_for_diagnostic("file:///c.al", SRC, &diag("AL-L001", 2, 4, 2, 10)).unwrap();
    assert_eq!(a.title, "Add TODO comment");
    assert_eq!(a.kind, CodeActionKind::QuickFix);
    assert!(!a.is_preferred);
    let (r, t) = only_edit(&a);
    assert_eq!(r.start, Position { line: 3, character: 0 });
    assert_eq!(r.end, Position { line: 3, character: 0 });
    assert_eq!(t, "        // TODO: Implement\n");
}

#[test]
fn unused_variable_fix_removes_the_whole_line() {
    let a = lint_quick_fix_for_diagnostic("file:///c.al", SRC, &diag("AL-L005", 4, 0, 4, 3)).unwrap();
    assert_eq!(a.title, "Remove unused variable");
    let (r, t) = only_edit(&a);
    assert_eq!(r.start, Position { line: 4, character: 0 });
    assert_eq!(r.end, Position { line: 5, character: 0 });
    assert_eq!(t, "");
}

#[test]
fn else_branch_is_added_at_the_end_line() {
    let a = lint_quick_fix_for_diagnostic("file:///c.al", SRC, &diag("AL-L010", 2, 0, 4, 0)).unwrap();
    let (r, t) = only_edit(&a);
    assert_eq!(r.start, Position { line: 4, character: 0 });
    assert_eq!(t, "        else\n            ; // default case\n");
}

#[test]
fn missing_line_falls_back_to_four_spaces() {
    let a = lint_quick_fix_for_diagnostic("file:///c.al", SRC, &diag("AL-L013", 40, 0, 40, 1)).unwrap();
    assert_eq!(a.title, "Add TODO comment to loop");
    assert_eq!(only_edit(&a).1, "        // TODO: Add loop body\n");
}

#[test]
fn pascal_case_fix_upper_cases_the_first_letter() {
    let a = lint_quick_fix_for_diagnostic("file:///c.al", SRC, &diag("AL-L016", 2, 14, 2, 20)).unwrap();
    assert_eq!(a.title, "Fix procedure name to PascalCase");
    let (r, t) = only_edit(&a);
    assert_eq!(r.start, Position { line: 2, character: 14 });
    assert_eq!(t, "DoWork");
    let quoted = "procedure \"ßtep\"()\n";
    let r = Range { start: Position { line: 0, character: 10 }, end: Position { line: 0, character: 16 } };
    assert_eq!(compute_pascal_case_fix(quoted, r).as_deref(), Some("SStep"));
    let empty = Range { start: Position { line: 0, character: 3 }, end: Position { line: 0, character: 3 } };
    assert_eq!(compute_pascal_case_fix(quoted, empty), None);
}

#[test]
fn other_codes_get_no_lint_fix() {
    assert!(lint_quick_fix_for_diagnostic("file:///c.al", SRC, &diag("AL0185", 0, 0, 0, 1)).is_none());
    let mut d = diag("AL-L001", 0, 0, 0, 1);
    d.code = None;
    assert!(lint_quick_fix_for_diagnostic("file:///c.al", SRC, &d).is_none());
}
