//! Workspace queries over AL source text and package metadata.

pub mod arch_lint;
pub mod audit;
pub mod breaking_changes;
pub mod bulk_fix;
pub mod code_actions;
pub mod code_lens;
pub mod completions;
pub mod dead_code;
pub mod diagnostics;
pub mod duplicates;
pub mod deps;

use vstd::prelude::*;

use crate::text::{
    chars_of, count_char, count_char_in, find_char_in, index_of_char, trim, trim_range,
};

verus! {

/// A position in a text document: zero-based line and character.
#[derive(Debug, Clone, Copy, PartialEq, Eq)]
pub struct Position {
    pub line: u32,
    pub character: u32,
}

/// A range in a text document.
#[derive(Debug, Clone, Copy, PartialEq, Eq)]
pub struct Range {
    pub start: Position,
    pub end: Position,
}

/// A replacement of the text in `range` by `new_text`.
#[derive(Debug, Clone)]
pub struct TextEdit {
    pub range: Range,
    pub new_text: String,
}

/// Edits grouped by document URI.
#[derive(Debug, Clone)]
pub struct WorkspaceEdit {
    pub changes: Vec<(String, Vec<TextEdit>)>,
}

/// A workspace source file with the object it declares: its keyword (as
/// written), name and number.
#[derive(Debug, Clone)]
pub struct ObjectFile {
    pub path: String,
    pub text: String,
    pub kind: String,
    pub name: String,
    pub id: Option<i64>,
}


/// The parameter list of a signature detail such as `(A: Text; B: Integer):
/// Boolean`: the text between the first `(` and the next `)` (to the end
/// when none closes it); nothing without a `(`.
pub open spec fn params_text(detail: Seq<char>) -> Seq<char> {
    let o = index_of_char(detail, '(');
    if o >= detail.len() {
        seq![]
    } else {
        let rest = detail.skip(o as int + 1);
        rest.take(index_of_char(rest, ')') as int)
    }
}

/// The number of parameters a signature detail lists: none for a blank
/// list, else one more than the `;` separators.
pub open spec fn param_count(detail: Seq<char>) -> nat {
    let p = params_text(detail);
    if trim(p).len() == 0 {
        0
    } else {
        count_char(p, ';') + 1
    }
}

proof fn lemma_count_char_le(s: Seq<char>, c: char)
    ensures
        count_char(s, c) <= s.len(),
    decreases s.len(),
{
    if s.len() > 0 {
        lemma_count_char_le(s.drop_last(), c);
    }
}

/// Counts the parameters of a signature detail (see [`param_count`]).
pub fn count_detail_params(detail: &str) -> (n: usize)
    ensures
        n == param_count(detail@),
{
    let d = chars_of(detail);
    let len = d.len();
    let o = find_char_in(&d, '(', 0, len);
    assert(d@.subrange(0, len as int) =~= d@);
    if o >= len {
        return 0;
    }
    let c = find_char_in(&d, ')', o + 1, len);
    let ghost rest = d@.skip(o + 1);
    assert(d@.subrange(o + 1, len as int) =~= rest);
    assert(d@.subrange(o + 1, c as int) =~= rest.take(index_of_char(rest, ')') as int));
    let (a, b) = trim_range(&d, o + 1, c);
    if a == b {
        return 0;
    }
    let k = count_char_in(&d, ';', o + 1, c);
    proof {
        lemma_count_char_le(d@.subrange(o + 1, c as int), ';');
    }
    k + 1
}

} // verus!
