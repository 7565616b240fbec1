//! Quick fixes for the diagnostics of the AL lint rules: comments that mark
//! what is left to do, removing a flagged line, a missing `else` branch,
//! and a procedure name put in PascalCase.

use vstd::prelude::*;

use super::super::{Position, Range, TextEdit, WorkspaceEdit};
use super::{detect_indent, indent_at, CodeActionEntry, CodeActionKind, DiagnosticInfo};
use crate::text::{
    char_to_upper, chars_of, lines_of, lines_vec, push_chars, push_str, seqs_of, strip_char,
    strip_char_vec, uppercase_of, vec_eq,
};

verus! {

/// The empty range at the start of line `line`.
pub open spec fn line_start(line: u32) -> Range {
    Range { start: Position { line, character: 0 }, end: Position { line, character: 0 } }
}

/// The range of the whole line `line` with its line break.
pub open spec fn whole_line(line: u32) -> Range {
    Range { start: Position { line, character: 0 }, end: Position { line: (line + 1) as u32, character: 0 } }
}

/// The name a diagnostic's range covers on its line, without surrounding
/// double quotes, with its first character in upper case; `None` when the
/// line does not exist, the range is empty or runs past the line, or the
/// name is empty. Columns count characters.
pub open spec fn pascal_case_fix(text: Seq<char>, range: Range) -> Option<Seq<char>> {
    let ls = lines_of(text);
    let line = range.start.line as int;
    let a = range.start.character as int;
    let b = range.end.character as int;
    if line >= ls.len() || b > ls[line].len() || a >= b {
        None
    } else {
        let name = strip_char(ls[line].subrange(a, b), '"');
        if name.len() == 0 {
            None
        } else {
            Some(uppercase_of(name[0]) + name.drop_first())
        }
    }
}

/// `d`'s code is `c`.
pub open spec fn code_is(d: DiagnosticInfo, c: Seq<char>) -> bool {
    d.code matches Some(k) && k@ == c
}

/// The fix for a lint diagnostic as plain values: title, range replaced,
/// new text. Indentation is that of the diagnostic's first line.
pub open spec fn lint_fix(text: Seq<char>, d: DiagnosticInfo) -> Option<(Seq<char>, Range, Seq<char>)> {
    let l = d.range.start.line;
    let ind = indent_at(text, l as int);
    if code_is(d, "AL-L001"@) {
        Some(("Add TODO comment"@, line_start((l + 1) as u32), ind + "    // TODO: Implement\n"@))
    } else if code_is(d, "AL-L005"@) {
        Some(("Remove unused variable"@, whole_line(l), Seq::empty()))
    } else if code_is(d, "AL-L006"@) {
        Some(("Add TODO comment to trigger"@, line_start((l + 1) as u32), ind + "        // TODO: Implement trigger\n"@))
    } else if code_is(d, "AL-L007"@) {
        Some(("Remove TODO comment (mark as resolved)"@, whole_line(l), Seq::empty()))
    } else if code_is(d, "AL-L009"@) {
        Some(
            (
                "Add refactoring suggestion comment"@,
                line_start(l),
                ind + "// REFACTOR: Consider extracting parameters into a record or buffer table\n"@,
            ),
        )
    } else if code_is(d, "AL-L010"@) {
        Some(
            (
                "Add missing 'else' branch"@,
                line_start(d.range.end.line),
                ind + "    else\n"@ + ind + "        ; // default case\n"@,
            ),
        )
    } else if code_is(d, "AL-L013"@) {
        Some(("Add TODO comment to loop"@, line_start((l + 1) as u32), ind + "    // TODO: Add loop body\n"@))
    } else if code_is(d, "AL-L016"@) {
        match pascal_case_fix(text, d.range) {
            Some(t) => Some(("Fix procedure name to PascalCase"@, d.range, t)),
            None => None,
        }
    } else {
        None
    }
}

/// `a` is a quick fix titled `title` whose one edit, in document `uri`,
/// replaces `range` by `text`.
pub open spec fn is_quick_fix(a: CodeActionEntry, uri: Seq<char>, title: Seq<char>, range: Range, text: Seq<char>) -> bool {
    &&& a.title@ == title
    &&& a.kind == CodeActionKind::QuickFix
    &&& !a.is_preferred
    &&& a.edit matches Some(ws) && ws.changes@.len() == 1 && ws.changes@[0].0@ == uri
        && ws.changes@[0].1@.len() == 1 && ws.changes@[0].1@[0].new_text@ == text
        && ws.changes@[0].1@[0].range == range
}

fn make_quickfix(title: &str, uri: &str, range: Range, text: String) -> (r: CodeActionEntry)
    ensures
        is_quick_fix(r, uri@, title@, range, text@),
{
    let mut edits: Vec<TextEdit> = Vec::new();
    edits.push(TextEdit { range, new_text: text });
    let mut changes: Vec<(String, Vec<TextEdit>)> = Vec::new();
    changes.push((uri.to_string(), edits));
    CodeActionEntry { title: title.to_string(), kind: CodeActionKind::QuickFix, edit: Some(WorkspaceEdit { changes }), is_preferred: false }
}

fn code_eq(d: &DiagnosticInfo, c: &str) -> (b: bool)
    ensures
        b == code_is(*d, c@),
{
    match &d.code {
        Some(k) => vec_eq(&chars_of(k.as_str()), &chars_of(c)),
        None => false,
    }
}

/// The name under a diagnostic in PascalCase (see [`pascal_case_fix`]).
pub fn compute_pascal_case_fix(text: &str, range: Range) -> (r: Option<String>)
    ensures
        opt_string_view(r) == pascal_case_fix(text@, range),
{
    let v = chars_of(text);
    let ls = lines_vec(&v);
    let line = range.start.line as usize;
    if line >= ls.len() {
        return None;
    }
    let lt = &ls[line];
    assert(seqs_of(ls@)[line as int] == lt@);
    let a = range.start.character as usize;
    let b = range.end.character as usize;
    if b > lt.len() || a >= b {
        return None;
    }
    let mut piece: Vec<char> = Vec::new();
    let mut i = a;
    while i < b
        invariant
            a <= i <= b <= lt@.len(),
            piece@ == lt@.subrange(a as int, i as int),
        decreases b - i,
    {
        piece.push(lt[i]);
        assert(piece@ =~= lt@.subrange(a as int, i + 1));
        i = i + 1;
    }
    let name = strip_char_vec(&piece, '"');
    if name.len() == 0 {
        return None;
    }
    let mut out = char_to_upper(name[0]);
    let mut rest: Vec<char> = Vec::new();
    let mut j: usize = 1;
    while j < name.len()
        invariant
            1 <= j <= name@.len(),
            rest@ == name@.subrange(1, j as int),
        decreases name@.len() - j,
    {
        rest.push(name[j]);
        assert(rest@ =~= name@.subrange(1, j + 1));
        j = j + 1;
    }
    assert(name@.drop_first() =~= rest@);
    push_chars(&mut out, &rest);
    Some(out)
}

/// An optional string as plain values.
pub open spec fn opt_string_view(o: Option<String>) -> Option<Seq<char>> {
    match o {
        Some(s) => Some(s@),
        None => None,
    }
}

/// The quick fix for a diagnostic of the AL lint rules (see [`lint_fix`]):
/// one edit in document `uri`; `None` for other codes, or when the name a
/// PascalCase diagnostic covers cannot be read.
pub fn lint_quick_fix_for_diagnostic(uri: &str, text: &str, diag: &DiagnosticInfo) -> (r: Option<CodeActionEntry>)
    requires
        diag.range.start.line < u32::MAX,
    ensures
        match lint_fix(text@, *diag) {
            Some(f) => r matches Some(a) && is_quick_fix(a, uri@, f.0, f.1, f.2),
            None => r is None,
        },
{
    let l = diag.range.start.line;
    proof {
        reveal_strlit("AL-L001");
        reveal_strlit("AL-L005");
        reveal_strlit("AL-L006");
        reveal_strlit("AL-L007");
        reveal_strlit("AL-L009");
        reveal_strlit("AL-L010");
        reveal_strlit("AL-L013");
        reveal_strlit("AL-L016");
    }
    if code_eq(diag, "AL-L001") {
        let mut t = detect_indent(text, l);
        push_str(&mut t, "    // TODO: Implement\n");
        let range = Range { start: Position { line: l + 1, character: 0 }, end: Position { line: l + 1, character: 0 } };
        Some(make_quickfix("Add TODO comment", uri, range, t))
    } else if code_eq(diag, "AL-L005") {
        let range = Range { start: Position { line: l, character: 0 }, end: Position { line: l + 1, character: 0 } };
        Some(make_quickfix("Remove unused variable", uri, range, String::new()))
    } else if code_eq(diag, "AL-L006") {
        let mut t = detect_indent(text, l);
        push_str(&mut t, "        // TODO: Implement trigger\n");
        let range = Range { start: Position { line: l + 1, character: 0 }, end: Position { line: l + 1, character: 0 } };
        Some(make_quickfix("Add TODO comment to trigger", uri, range, t))
    } else if code_eq(diag, "AL-L007") {
        let range = Range { start: Position { line: l, character: 0 }, end: Position { line: l + 1, character: 0 } };
        Some(make_quickfix("Remove TODO comment (mark as resolved)", uri, range, String::new()))
    } else if code_eq(diag, "AL-L009") {
        let mut t = detect_indent(text, l);
        push_str(&mut t, "// REFACTOR: Consider extracting parameters into a record or buffer table\n");
        let range = Range { start: Position { line: l, character: 0 }, end: Position { line: l, character: 0 } };
        Some(make_quickfix("Add refactoring suggestion comment", uri, range, t))
    } else if code_eq(diag, "AL-L010") {
        let ind = detect_indent(text, l);
        let mut t = String::new();
        push_str(&mut t, ind.as_str());
        push_str(&mut t, "    else\n");
        push_str(&mut t, ind.as_str());
        push_str(&mut t, "        ; // default case\n");
        let e = diag.range.end.line;
        let range = Range { start: Position { line: e, character: 0 }, end: Position { line: e, character: 0 } };
        Some(make_quickfix("Add missing 'else' branch", uri, range, t))
    } else if code_eq(diag, "AL-L013") {
        let mut t = detect_indent(text, l);
        push_str(&mut t, "    // TODO: Add loop body\n");
        let range = Range { start: Position { line: l + 1, character: 0 }, end: Position { line: l + 1, character: 0 } };
        Some(make_quickfix("Add TODO comment to loop", uri, range, t))
    } else if code_eq(diag, "AL-L016") {
        match compute_pascal_case_fix(text, diag.range) {
            Some(t) => Some(make_quickfix("Fix procedure name to PascalCase", uri, diag.range, t)),
            None => None,
        }
    } else {
        None
    }
}

} // verus!
