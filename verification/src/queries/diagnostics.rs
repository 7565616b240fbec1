//! Syntax and lint diagnostics: their transport-agnostic form, and the
//! source line a diagnostic points into.

use vstd::prelude::*;

use super::Range;
use crate::text::{text_from_utf8, utf8_text};

verus! {

/// Severity of a syntax or lint diagnostic.
#[derive(Debug, Clone, Copy, PartialEq, Eq, Structural)]
pub enum SyntaxDiagnosticSeverity {
    Error,
    Warning,
    Info,
    Hint,
}

/// A syntax or lint diagnostic.
#[derive(Debug, Clone)]
pub struct SyntaxDiagnostic {
    /// Human-readable message.
    pub message: String,
    /// Source range (0-based lines, UTF-16 columns).
    pub range: Range,
    pub severity: SyntaxDiagnosticSeverity,
    /// Diagnostic code, e.g. `syntax` or `AL-L001`.
    pub code: String,
    /// Source label, e.g. `al` or `al-lint`.
    pub source: String,
}

/// Index of the first `b` in `s`, or `s.len()`.
pub open spec fn index_of_byte(s: Seq<u8>, b: u8) -> nat
    decreases s.len(),
{
    if s.len() == 0 || s[0] == b {
        0
    } else {
        1 + index_of_byte(s.drop_first(), b)
    }
}

/// The bytes of line `row` of `s`, split at every `\n` byte; none past the
/// last line.
pub open spec fn nth_line_bytes(s: Seq<u8>, row: nat) -> Option<Seq<u8>>
    decreases s.len(),
{
    let i = index_of_byte(s, 10u8);
    if row == 0 {
        Some(s.take(i as int))
    } else if i < s.len() {
        nth_line_bytes(s.skip(i + 1 as int), (row - 1) as nat)
    } else {
        None
    }
}

/// Line `row` of `source` decoded as UTF-8; empty past the last line or
/// when the line is not UTF-8.
pub open spec fn source_line_text(source: Seq<u8>, row: nat) -> Seq<char> {
    match nth_line_bytes(source, row) {
        Some(b) => match utf8_text(b) {
            Some(t) => t,
            None => seq![],
        },
        None => seq![],
    }
}

/// Line `row` (0-based) of `source`, or an empty string past the end or on
/// bytes that are not UTF-8.
pub fn source_line(source: &[u8], row: usize) -> (r: String)
    ensures
        r@ == source_line_text(source@, row as nat),
{
    let mut start: usize = 0;
    let mut left: usize = row;
    assert(source@.skip(0) =~= source@);
    loop
        invariant
            start <= source@.len(),
            left <= row,
            nth_line_bytes(source@, row as nat) == nth_line_bytes(
                source@.skip(start as int),
                left as nat,
            ),
        decreases source@.len() - start,
    {
        let mut e: usize = start;
        while e < source.len() && source[e] != 10u8
            invariant
                start <= e <= source@.len(),
                index_of_byte(source@.skip(start as int), 10u8) == (e - start)
                    + index_of_byte(source@.skip(e as int), 10u8),
            decreases source@.len() - e,
        {
            assert(source@.skip(e as int).drop_first() =~= source@.skip(e + 1));
            e = e + 1;
        }
        assert(index_of_byte(source@.skip(e as int), 10u8) == 0);
        if left == 0 {
            let mut piece: Vec<u8> = Vec::new();
            let mut k: usize = start;
            while k < e
                invariant
                    start <= k <= e <= source@.len(),
                    piece@ == source@.subrange(start as int, k as int),
                decreases e - k,
            {
                piece.push(source[k]);
                assert(source@.subrange(start as int, k + 1) =~= source@.subrange(
                    start as int,
                    k as int,
                ).push(source@[k as int]));
                k = k + 1;
            }
            assert(piece@ =~= source@.skip(start as int).take(e - start));
            return match text_from_utf8(piece.as_slice()) {
                Some(t) => t,
                None => String::new(),
            };
        }
        if e == source.len() {
            return String::new();
        }
        assert(source@.skip(start as int).skip(e - start + 1) =~= source@.skip(e + 1));
        start = e + 1;
        left = left - 1;
    }
}

} // verus!
