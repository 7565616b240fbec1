//! Code actions: quick fixes and source actions on AL documents.
//!
//! This module holds the text-level decisions behind the actions: which
//! object a document declares, where a `using` directive goes, which type a
//! diagnostic names, and how a `with` body is qualified.

pub mod if_to_case;
pub mod lint_fixes;
pub mod implement_interface;
pub mod with_elimination;

use vstd::prelude::*;

use super::{Range, WorkspaceEdit};
use crate::language::source_object_keyword;
use crate::text::{
    chars_of, contains, index_of_char, lead_ws, lines_of, lines_vec, lowercase, seqs_of,
    starts_with, string_of, text_from_utf8, trim, trim_start, utf8_text, word_char,
    word_end,
};

verus! {

/// A code action (quick fix, refactoring, etc.).
#[derive(Debug, Clone)]
pub struct CodeActionEntry {
    pub title: String,
    pub kind: CodeActionKind,
    pub edit: Option<WorkspaceEdit>,
    pub is_preferred: bool,
}

/// Code action kind.
#[derive(Debug, Clone, Copy, PartialEq, Eq, Structural)]
pub enum CodeActionKind {
    QuickFix,
    Refactor,
    Source,
}

/// The LSP name of a code action kind.
pub open spec fn code_action_kind_name(k: CodeActionKind) -> Seq<char> {
    match k {
        CodeActionKind::QuickFix => "quickfix"@,
        CodeActionKind::Refactor => "refactor"@,
        CodeActionKind::Source => "source"@,
    }
}

impl CodeActionKind {
    /// The LSP name of the kind, as it is serialized.
    pub fn as_str(&self) -> (r: &'static str)
        ensures
            r@ == code_action_kind_name(*self),
    {
        match self {
            CodeActionKind::QuickFix => "quickfix",
            CodeActionKind::Refactor => "refactor",
            CodeActionKind::Source => "source",
        }
    }
}

/// Diagnostic info passed to code action providers.
#[derive(Debug, Clone)]
pub struct DiagnosticInfo {
    pub range: Range,
    pub message: String,
    pub code: Option<String>,
}

/// The quick fix for a diagnostic. No lint rule registers one, so there is
/// never a fix.
pub fn quick_fix_for_diagnostic(uri: &str, text: &str, diag: &DiagnosticInfo) -> (r: Option<
    CodeActionEntry,
>)
    ensures
        r is None,
{
    None
}

// ---------------------------------------------------------------------------
// The object a document declares
// ---------------------------------------------------------------------------

/// The AL object types that code actions tell apart.
#[derive(Debug, Clone, Copy, PartialEq, Eq, Structural)]
pub enum AlObjectKind {
    Page,
    PageExtension,
    Table,
    TableExtension,
    Codeunit,
    Report,
    ReportExtension,
    Query,
    XmlPort,
    Enum,
    EnumExtension,
    Interface,
    PermissionSet,
    PermissionSetExtension,
    Profile,
    ControlAddIn,
    PageCustomization,
    /// Recognised AL object keyword that doesn't have its own variant.
    /// Distinct from "no recognised keyword".
    Other,
}

/// The kind of object an object-type keyword opens.
pub open spec fn kind_of_keyword(k: Seq<char>) -> AlObjectKind {
    if k == "page"@ {
        AlObjectKind::Page
    } else if k == "pageextension"@ {
        AlObjectKind::PageExtension
    } else if k == "table"@ {
        AlObjectKind::Table
    } else if k == "tableextension"@ {
        AlObjectKind::TableExtension
    } else if k == "codeunit"@ {
        AlObjectKind::Codeunit
    } else if k == "report"@ {
        AlObjectKind::Report
    } else if k == "reportextension"@ {
        AlObjectKind::ReportExtension
    } else if k == "query"@ {
        AlObjectKind::Query
    } else if k == "xmlport"@ {
        AlObjectKind::XmlPort
    } else if k == "enum"@ {
        AlObjectKind::Enum
    } else if k == "enumextension"@ {
        AlObjectKind::EnumExtension
    } else if k == "interface"@ {
        AlObjectKind::Interface
    } else if k == "permissionset"@ {
        AlObjectKind::PermissionSet
    } else if k == "permissionsetextension"@ {
        AlObjectKind::PermissionSetExtension
    } else if k == "profile"@ {
        AlObjectKind::Profile
    } else if k == "controladdin"@ {
        AlObjectKind::ControlAddIn
    } else if k == "pagecustomization"@ {
        AlObjectKind::PageCustomization
    } else {
        AlObjectKind::Other
    }
}

/// The kind of object `text` declares, by the object-type keyword of its
/// first code line; `None` when that line starts with no object keyword.
pub open spec fn object_kind_of(text: Seq<char>) -> Option<AlObjectKind> {
    match source_object_keyword(text) {
        Some(k) => Some(kind_of_keyword(k)),
        None => None,
    }
}

fn eq(k: &str, lit: &str) -> (b: bool)
    ensures
        b == (k@ == lit@),
{
    crate::text::vec_eq(&chars_of(k), &chars_of(lit))
}

fn kind_from_keyword(k: &str) -> (r: AlObjectKind)
    ensures
        r == kind_of_keyword(k@),
{
    if eq(k, "page") {
        AlObjectKind::Page
    } else if eq(k, "pageextension") {
        AlObjectKind::PageExtension
    } else if eq(k, "table") {
        AlObjectKind::Table
    } else if eq(k, "tableextension") {
        AlObjectKind::TableExtension
    } else if eq(k, "codeunit") {
        AlObjectKind::Codeunit
    } else if eq(k, "report") {
        AlObjectKind::Report
    } else if eq(k, "reportextension") {
        AlObjectKind::ReportExtension
    } else if eq(k, "query") {
        AlObjectKind::Query
    } else if eq(k, "xmlport") {
        AlObjectKind::XmlPort
    } else if eq(k, "enum") {
        AlObjectKind::Enum
    } else if eq(k, "enumextension") {
        AlObjectKind::EnumExtension
    } else if eq(k, "interface") {
        AlObjectKind::Interface
    } else if eq(k, "permissionset") {
        AlObjectKind::PermissionSet
    } else if eq(k, "permissionsetextension") {
        AlObjectKind::PermissionSetExtension
    } else if eq(k, "profile") {
        AlObjectKind::Profile
    } else if eq(k, "controladdin") {
        AlObjectKind::ControlAddIn
    } else if eq(k, "pagecustomization") {
        AlObjectKind::PageCustomization
    } else {
        AlObjectKind::Other
    }
}

/// The kind of object `text` declares (see [`object_kind_of`]).
pub fn detect_object_kind(text: &str) -> (r: Option<AlObjectKind>)
    ensures
        r == object_kind_of(text@),
{
    match crate::language::detect_object_keyword(text) {
        Some(k) => Some(kind_from_keyword(k)),
        None => None,
    }
}

/// The indentation of line `line` of `text`, or four spaces when there is
/// no such line.
pub open spec fn indent_at(text: Seq<char>, line: int) -> Seq<char> {
    if 0 <= line < lines_of(text).len() {
        let l = lines_of(text)[line];
        l.take(lead_ws(l) as int)
    } else {
        "    "@
    }
}

/// The indentation of a line of `text` (see [`indent_at`]).
pub fn detect_indent(text: &str, line: u32) -> (r: String)
    ensures
        r@ == indent_at(text@, line as int),
{
    let v = chars_of(text);
    let ls = lines_vec(&v);
    if (line as usize) < ls.len() {
        assert(seqs_of(ls@)[line as int] == ls@[line as int]@);
        string_of(&crate::text::leading_ws_vec(&ls[line as usize]))
    } else {
        "    ".to_owned()
    }
}

// ---------------------------------------------------------------------------
// Unresolved type names
// ---------------------------------------------------------------------------

/// Number of leading characters of `s` that cannot be part of an identifier.
pub open spec fn lead_nonword(s: Seq<char>) -> nat
    decreases s.len(),
{
    if s.len() > 0 && !word_char(s[0]) {
        1 + lead_nonword(s.drop_first())
    } else {
        0
    }
}

/// Number of trailing characters of `s` that cannot be part of an identifier.
pub open spec fn trail_nonword(s: Seq<char>) -> nat
    decreases s.len(),
{
    if s.len() > 0 && !word_char(s.last()) {
        1 + trail_nonword(s.drop_last())
    } else {
        0
    }
}

/// `s` without the non-identifier characters at both ends.
pub open spec fn strip_nonword(s: Seq<char>) -> Seq<char> {
    if lead_nonword(s) == s.len() {
        Seq::empty()
    } else {
        s.subrange(lead_nonword(s) as int, s.len() - trail_nonword(s))
    }
}

/// The first whitespace-separated word of `s`.
pub open spec fn first_word(s: Seq<char>) -> Seq<char> {
    crate::language::first_token(trim_start(s))
}

/// The type a diagnostic message names: the first `'`-quoted non-empty
/// name; otherwise, for "… could not be found" messages, the first word
/// without surrounding punctuation.
pub open spec fn type_name_from_diagnostic(m: Seq<char>) -> Option<Seq<char>> {
    let q1 = index_of_char(m, '\'');
    let quoted = if q1 < m.len() {
        let rest = m.skip(q1 as int + 1);
        let q2 = index_of_char(rest, '\'');
        if q2 < rest.len() && q2 > 0 {
            Some(rest.take(q2 as int))
        } else {
            None
        }
    } else {
        None
    };
    match quoted {
        Some(n) => Some(n),
        None => if contains(m, "could not be found"@) && trim_start(m).len() > 0 {
            let w = strip_nonword(first_word(m));
            if w.len() > 0 {
                Some(w)
            } else {
                None
            }
        } else {
            None
        },
    }
}

proof fn lemma_lead_nonword(s: Seq<char>, n: int)
    requires
        0 <= n <= s.len(),
        forall|j: int| 0 <= j < n ==> !word_char(s[j]),
        n == s.len() || word_char(s[n]),
    ensures
        lead_nonword(s) == n,
    decreases n,
{
    if n > 0 {
        let t = s.drop_first();
        assert forall|j: int| 0 <= j < n - 1 implies !word_char(t[j]) by {
            assert(t[j] == s[j + 1]);
        }
        if n - 1 < t.len() {
            assert(t[n - 1] == s[n]);
        }
        lemma_lead_nonword(t, n - 1);
    }
}

proof fn lemma_trail_nonword(s: Seq<char>, n: int)
    requires
        0 <= n <= s.len(),
        forall|j: int| s.len() - n <= j < s.len() ==> !word_char(s[j]),
        n == s.len() || word_char(s[s.len() - n - 1]),
    ensures
        trail_nonword(s) == n,
    decreases n,
{
    if n > 0 {
        let t = s.drop_last();
        assert forall|j: int| t.len() - (n - 1) <= j < t.len() implies !word_char(t[j]) by {
            assert(t[j] == s[j]);
        }
        if n - 1 < t.len() {
            assert(t[t.len() - (n - 1) - 1] == s[s.len() - n - 1]);
        }
        lemma_trail_nonword(t, n - 1);
    }
}

/// `v` without the non-identifier characters at both ends.
fn strip_nonword_vec(v: &Vec<char>) -> (r: Vec<char>)
    ensures
        r@ == strip_nonword(v@),
{
    let mut a: usize = 0;
    while a < v.len() && !crate::text::is_word_char(v[a])
        invariant
            a <= v@.len(),
            forall|j: int| 0 <= j < a ==> !word_char(v@[j]),
        decreases v@.len() - a,
    {
        a = a + 1;
    }
    proof {
        lemma_lead_nonword(v@, a as int);
    }
    if a == v.len() {
        return Vec::new();
    }
    let mut b: usize = v.len();
    while b > a && !crate::text::is_word_char(v[b - 1])
        invariant
            a < v@.len(),
            a <= b <= v@.len(),
            forall|j: int| b <= j < v@.len() ==> !word_char(v@[j]),
        decreases b,
    {
        b = b - 1;
    }
    proof {
        assert(word_char(v@[a as int]));
        lemma_trail_nonword(v@, v@.len() - b);
    }
    crate::text::copy_range(v, a, b)
}

/// The type an "unresolved type" diagnostic names (see
/// [`type_name_from_diagnostic`]).
pub fn extract_type_name_from_diagnostic(message: &str) -> (r: Option<String>)
    ensures
        r matches Some(n) ==> type_name_from_diagnostic(message@) == Some(n@),
        r is None ==> type_name_from_diagnostic(message@) is None,
{
    let m = chars_of(message);
    let q1 = crate::text::find_char_in(&m, '\'', 0, m.len());
    assert(m@.subrange(0, m@.len() as int) =~= m@);
    if q1 < m.len() {
        let q2 = crate::text::find_char_in(&m, '\'', q1 + 1, m.len());
        assert(m@.subrange(q1 + 1, m@.len() as int) =~= m@.skip(q1 + 1));
        if q2 < m.len() && q2 > q1 + 1 {
            let name = crate::text::copy_range(&m, q1 + 1, q2);
            assert(name@ =~= m@.skip(q1 + 1).take(q2 - (q1 + 1)));
            return Some(string_of(&name));
        }
    }
    if crate::text::vec_contains(&m, "could not be found") {
        let (a, _) = crate::text::trim_range(&m, 0, m.len());
        if a == m.len() {
            return None;
        }
        let t = crate::text::copy_range(&m, a, m.len());
        let w = crate::language::first_token_of(&t);
        let w = strip_nonword_vec(&w);
        if w.len() > 0 {
            return Some(string_of(&w));
        }
    }
    None
}

// ---------------------------------------------------------------------------
// `using` directives
// ---------------------------------------------------------------------------

/// Header-scan state: namespaces imported, index of the last directive
/// line, whether a directive was seen, whether the header has ended.
pub type UsingState = (Seq<Seq<char>>, int, bool, bool);

/// `s` without its trailing `;` characters.
pub open spec fn trim_end_semis(s: Seq<char>) -> Seq<char>
    decreases s.len(),
{
    if s.len() > 0 && s.last() == ';' {
        trim_end_semis(s.drop_last())
    } else {
        s
    }
}

/// The namespace a `using` line imports: the text after the keyword, up to
/// any `//` comment, without trailing `;`, trimmed.
pub open spec fn using_namespace(trimmed: Seq<char>) -> Seq<char> {
    let after = trimmed.skip(6);
    let without_comment = if contains(after, "//"@) {
        after.take(choose|i: int| crate::text::first_at(after, "//"@, i))
    } else {
        after
    };
    trim(trim_end_semis(without_comment))
}

/// One line of the header scan.
pub open spec fn using_step(st: UsingState, i: int, line: Seq<char>) -> UsingState {
    let t = trim(line);
    if st.3 {
        st
    } else if starts_with(t, "namespace "@) || starts_with(t, "Namespace "@) {
        (st.0, i, true, false)
    } else if starts_with(t, "using "@) || starts_with(t, "Using "@) {
        let ns = using_namespace(t);
        (if ns.len() > 0 {
            st.0.push(ns)
        } else {
            st.0
        }, i, true, false)
    } else if st.2 && t.len() > 0 && !starts_with(t, "//"@) {
        (st.0, st.1, st.2, true)
    } else {
        st
    }
}

/// The header scan over `lines`.
pub open spec fn using_scan(lines: Seq<Seq<char>>) -> UsingState
    decreases lines.len(),
{
    if lines.len() == 0 {
        (Seq::empty(), 0, false, false)
    } else {
        using_step(using_scan(lines.drop_last()), lines.len() - 1, lines.last())
    }
}

/// The namespaces a file imports and the line at which a new `using`
/// directive goes: after the last `namespace`/`using` line of the header,
/// or at the top when there is none.
pub fn parse_using_directives(text: &str) -> (r: (Vec<String>, u32))
    requires
        lines_of(text@).len() <= u32::MAX,
    ensures
        r.0@.map_values(|s: String| s@) == using_scan(lines_of(text@)).0,
        r.1 == (if using_scan(lines_of(text@)).2 {
            using_scan(lines_of(text@)).1 + 1
        } else {
            0
        }),
{
    let v = chars_of(text);
    let ls = lines_vec(&v);
    let ghost lv = seqs_of(ls@);
    let mut usings: Vec<String> = Vec::new();
    let mut last: u32 = 0;
    let mut found = false;
    let mut stopped = false;
    let mut i: usize = 0;
    while i < ls.len()
        invariant
            i <= ls@.len(),
            lv == seqs_of(ls@),
            lv == lines_of(text@),
            ls@.len() <= u32::MAX,
            ({
                let st = using_scan(lv.take(i as int));
                &&& usings@.map_values(|s: String| s@) == st.0
                &&& last == st.1
                &&& found == st.2
                &&& stopped == st.3
                &&& 0 <= st.1 <= i
                &&& (st.2 ==> st.1 < i)
            }),
        decreases ls@.len() - i,
    {
        assert(lv.take(i + 1).drop_last() =~= lv.take(i as int));
        assert(lv.take(i + 1).last() == ls@[i as int]@);
        if stopped {
            i = i + 1;
            continue;
        }
        let t = crate::text::trim_vec(&ls[i]);
        if crate::text::vec_starts_with(&t, "namespace ") || crate::text::vec_starts_with(
            &t,
            "Namespace ",
        ) {
            last = i as u32;
            found = true;
        } else if crate::text::vec_starts_with(&t, "using ") || crate::text::vec_starts_with(
            &t,
            "Using ",
        ) {
            proof {
                reveal_strlit("using ");
                reveal_strlit("Using ");
            }
            let after = crate::text::copy_range(&t, 6, t.len());
            assert(after@ =~= t@.skip(6));
            let cut = match crate::text::find(&after, &chars_of("//")) {
                Some(p) => p,
                None => after.len(),
            };
            proof {
                if cut < after@.len() {
                    let c2 = choose|j: int| crate::text::first_at(after@, "//"@, j);
                    assert(c2 == cut);
                }
            }
            let wc = crate::text::copy_range(&after, 0, cut);
            let mut e = wc.len();
            assert(wc@.take(e as int) =~= wc@);
            while e > 0 && wc[e - 1] == ';'
                invariant
                    e <= wc@.len(),
                    trim_end_semis(wc@) == trim_end_semis(wc@.take(e as int)),
                decreases e,
            {
                assert(wc@.take(e as int).drop_last() =~= wc@.take(e - 1));
                e = e - 1;
            }
            let core = crate::text::copy_range(&wc, 0, e);
            assert(core@ =~= wc@.take(e as int));
            assert(wc@ =~= (if contains(after@, "//"@) {
                after@.take(choose|j: int| crate::text::first_at(after@, "//"@, j))
            } else {
                after@
            }));
            let ns = crate::text::trim_vec(&core);
            if ns.len() > 0 {
                let ghost u0 = usings@;
                usings.push(string_of(&ns));
                assert(usings@.map_values(|s: String| s@) =~= u0.map_values(|s: String| s@).push(
                    ns@,
                ));
            }
            last = i as u32;
            found = true;
        } else if found && t.len() > 0 && !crate::text::vec_starts_with(&t, "//") {
            stopped = true;
        }
        i = i + 1;
    }
    assert(lv.take(lv.len() as int) =~= lv);
    let insert = if found {
        last + 1
    } else {
        0
    };
    (usings, insert)
}

// ---------------------------------------------------------------------------
// Qualifying a `with` body
// ---------------------------------------------------------------------------

/// The `i`-th word after which a line is left as it is.
pub open spec fn skip_word(i: int) -> Seq<char> {
    if i == 0 {
        "if"@
    } else if i == 1 {
        "then"@
    } else if i == 2 {
        "else"@
    } else if i == 3 {
        "begin"@
    } else if i == 4 {
        "end"@
    } else if i == 5 {
        "for"@
    } else if i == 6 {
        "while"@
    } else if i == 7 {
        "repeat"@
    } else if i == 8 {
        "until"@
    } else if i == 9 {
        "case"@
    } else if i == 10 {
        "exit"@
    } else if i == 11 {
        "error"@
    } else if i == 12 {
        "message"@
    } else if i == 13 {
        "//"@
    } else if i == 14 {
        "end;"@
    } else {
        Seq::empty()
    }
}

fn skip_word_str(i: usize) -> (r: &'static str)
    requires
        i < 15,
    ensures
        r@ == skip_word(i as int),
{
    match i {
        0 => "if",
        1 => "then",
        2 => "else",
        3 => "begin",
        4 => "end",
        5 => "for",
        6 => "while",
        7 => "repeat",
        8 => "until",
        9 => "case",
        10 => "exit",
        11 => "error",
        12 => "message",
        13 => "//",
        14 => "end;",
        _ => "end;",
    }
}

/// `rest` starts no identifier.
pub open spec fn word_boundary(rest: Seq<char>) -> bool {
    rest.len() == 0 || !word_char(rest[0])
}

/// The lowercase line starts with one of the skip words as a whole word.
pub open spec fn starts_with_skip_word(lower: Seq<char>) -> bool {
    exists|i: int|
        0 <= i < 15 && starts_with(lower, #[trigger] skip_word(i)) && word_boundary(
            lower.skip(skip_word(i).len() as int),
        )
}

/// `after` begins an assignment (`:=`) or a call (`(`).
pub open spec fn assign_or_call(after: Seq<char>) -> bool {
    starts_with(after, ":="@) || starts_with(after, "("@)
}

/// `t` prefixed with `record_var.`.
pub open spec fn qualified(record_var: Seq<char>, t: Seq<char>) -> Seq<char> {
    record_var + "."@ + t
}

/// A line of a `with` body with its leading field or method reference
/// qualified by `record_var`: a quoted or plain identifier followed by `:=`
/// or `(` gets the prefix; keyword lines, comments and references that are
/// already qualified (`x.`) are left as they are.  The result is trimmed.
pub open spec fn qualify_line_spec(line: Seq<char>, record_var: Seq<char>) -> Seq<char> {
    let t = trim(line);
    if starts_with_skip_word(lowercase(t)) {
        t
    } else if t.len() > 0 && t[0] == '"' {
        let ao = t.skip(1);
        let e = index_of_char(ao, '"');
        if e < ao.len() && assign_or_call(trim_start(ao.skip(e as int + 1))) {
            qualified(record_var, t)
        } else {
            t
        }
    } else {
        let w = word_end(t);
        if w == 0 {
            t
        } else {
            let after = trim_start(t.skip(w as int));
            if starts_with(after, "."@) {
                t
            } else if assign_or_call(after) {
                qualified(record_var, t)
            } else {
                t
            }
        }
    }
}

/// A line that, trimmed, is a closed quoted identifier followed (after
/// whitespace) by an assignment `:=` or a call `(`, and is not a keyword
/// line, is qualified: the result is `record_var.` and the trimmed line.
pub proof fn lemma_qualify_quoted_reference(
    line: Seq<char>,
    record_var: Seq<char>,
    name: Seq<char>,
    gap: Seq<char>,
    rest: Seq<char>,
)
    requires
        trim(line) == seq!['"'] + name + seq!['"'] + gap + rest,
        forall|i: int| 0 <= i < name.len() ==> name[i] != '"',
        forall|i: int| 0 <= i < gap.len() ==> crate::text::is_ws(gap[i]),
        starts_with(rest, ":="@) || starts_with(rest, "("@),
        !starts_with_skip_word(lowercase(trim(line))),
    ensures
        qualify_line_spec(line, record_var) == record_var + "."@ + trim(line),
{
    reveal_strlit(":=");
    reveal_strlit("(");
    let t = trim(line);
    let ao = t.skip(1);
    assert(ao =~= name + (seq!['"'] + gap + rest));
    assert forall|j: int| 0 <= j < name.len() implies ao[j] != '"' by {
        assert(ao[j] == name[j]);
    }
    assert(ao[name.len() as int] == '"');
    crate::text::lemma_index_of_char(ao, '"', name.len() as int);
    let after = ao.skip(name.len() as int + 1);
    assert(after =~= gap + rest);
    if starts_with(rest, ":="@) {
        assert(rest.take(2)[0] == ":="@[0]);
    } else {
        assert(rest.take(1)[0] == "("@[0]);
    }
    assert(rest.len() > 0 && (rest[0] == ':' || rest[0] == '('));
    assert forall|j: int| 0 <= j < gap.len() implies crate::text::is_ws(after[j]) by {
        assert(after[j] == gap[j]);
    }
    assert(after[gap.len() as int] == rest[0]);
    crate::text::lemma_lead_ws(after, gap.len() as int);
    assert(trim_start(after) =~= rest);
    assert(t.len() > 0 && t[0] == '"');
}

/// A line that, trimmed, is an identifier followed (after whitespace) by
/// an assignment `:=` or a call `(`, and is not a keyword line, is
/// qualified: the result is `record_var.` and the trimmed line.
pub proof fn lemma_qualify_plain_reference(
    line: Seq<char>,
    record_var: Seq<char>,
    ident: Seq<char>,
    gap: Seq<char>,
    rest: Seq<char>,
)
    requires
        trim(line) == ident + gap + rest,
        ident.len() > 0,
        ident[0] != '"',
        forall|i: int| 0 <= i < ident.len() ==> word_char(ident[i]),
        !word_char((gap + rest)[0]),
        forall|i: int| 0 <= i < gap.len() ==> crate::text::is_ws(gap[i]),
        starts_with(rest, ":="@) || starts_with(rest, "("@),
        !starts_with_skip_word(lowercase(trim(line))),
    ensures
        qualify_line_spec(line, record_var) == record_var + "."@ + trim(line),
{
    reveal_strlit(":=");
    reveal_strlit("(");
    reveal_strlit(".");
    let t = trim(line);
    if starts_with(rest, ":="@) {
        assert(rest.take(2)[0] == ":="@[0]);
    } else {
        assert(rest.take(1)[0] == "("@[0]);
    }
    assert(rest.len() > 0 && (rest[0] == ':' || rest[0] == '('));
    assert forall|j: int| 0 <= j < ident.len() implies word_char(t[j]) by {
        assert(t[j] == ident[j]);
    }
    assert(t[ident.len() as int] == (gap + rest)[0]);
    crate::text::lemma_word_end(t, ident.len() as int);
    let after = t.skip(ident.len() as int);
    assert(after =~= gap + rest);
    assert forall|j: int| 0 <= j < gap.len() implies crate::text::is_ws(after[j]) by {
        assert(after[j] == gap[j]);
    }
    assert(after[gap.len() as int] == rest[0]);
    crate::text::lemma_lead_ws(after, gap.len() as int);
    assert(trim_start(after) =~= rest);
    assert(!starts_with(rest, "."@)) by {
        if starts_with(rest, "."@) {
            assert(rest.take(1)[0] == "."@[0]);
        }
    }
    assert(t[0] == ident[0]);
}

/// A line that, trimmed, is a closed quoted identifier followed (after
/// whitespace) by anything but `:=` or `(` is left as it is, trimmed.
pub proof fn lemma_quoted_reference_without_use_is_kept(
    line: Seq<char>,
    record_var: Seq<char>,
    name: Seq<char>,
    gap: Seq<char>,
    rest: Seq<char>,
)
    requires
        trim(line) == seq!['"'] + name + seq!['"'] + gap + rest,
        forall|i: int| 0 <= i < name.len() ==> name[i] != '"',
        forall|i: int| 0 <= i < gap.len() ==> crate::text::is_ws(gap[i]),
        rest.len() == 0 || !crate::text::is_ws(rest[0]),
        !starts_with(rest, ":="@),
        !starts_with(rest, "("@),
    ensures
        qualify_line_spec(line, record_var) == trim(line),
{
    let t = trim(line);
    let ao = t.skip(1);
    assert(ao =~= name + (seq!['"'] + gap + rest));
    assert forall|j: int| 0 <= j < name.len() implies ao[j] != '"' by {
        assert(ao[j] == name[j]);
    }
    assert(ao[name.len() as int] == '"');
    crate::text::lemma_index_of_char(ao, '"', name.len() as int);
    let after = ao.skip(name.len() as int + 1);
    assert(after =~= gap + rest);
    assert forall|j: int| 0 <= j < gap.len() implies crate::text::is_ws(after[j]) by {
        assert(after[j] == gap[j]);
    }
    if rest.len() > 0 {
        assert(after[gap.len() as int] == rest[0]);
    }
    crate::text::lemma_lead_ws(after, gap.len() as int);
    assert(trim_start(after) =~= rest);
    assert(t.len() > 0 && t[0] == '"');
}

/// A keyword line (one starting with a control word such as `if`,
/// `begin` or `exit`, or a `//` comment) is left as it is, trimmed.
pub proof fn lemma_keyword_line_is_kept(line: Seq<char>, record_var: Seq<char>)
    requires
        starts_with_skip_word(lowercase(trim(line))),
    ensures
        qualify_line_spec(line, record_var) == trim(line),
{
}

/// A line that, trimmed, is an identifier followed (after whitespace) by
/// anything but `:=` or `(` (for instance `.`, an already qualified
/// reference) is left as it is, trimmed.
pub proof fn lemma_plain_reference_without_use_is_kept(
    line: Seq<char>,
    record_var: Seq<char>,
    ident: Seq<char>,
    gap: Seq<char>,
    rest: Seq<char>,
)
    requires
        trim(line) == ident + gap + rest,
        ident.len() > 0,
        ident[0] != '"',
        forall|i: int| 0 <= i < ident.len() ==> word_char(ident[i]),
        (gap + rest).len() == 0 || !word_char((gap + rest)[0]),
        forall|i: int| 0 <= i < gap.len() ==> crate::text::is_ws(gap[i]),
        rest.len() == 0 || !crate::text::is_ws(rest[0]),
        !starts_with(rest, ":="@),
        !starts_with(rest, "("@),
    ensures
        qualify_line_spec(line, record_var) == trim(line),
{
    let t = trim(line);
    assert forall|j: int| 0 <= j < ident.len() implies word_char(t[j]) by {
        assert(t[j] == ident[j]);
    }
    if (gap + rest).len() > 0 {
        assert(t[ident.len() as int] == (gap + rest)[0]);
    }
    crate::text::lemma_word_end(t, ident.len() as int);
    let after = t.skip(ident.len() as int);
    assert(after =~= gap + rest);
    assert forall|j: int| 0 <= j < gap.len() implies crate::text::is_ws(after[j]) by {
        assert(after[j] == gap[j]);
    }
    if rest.len() > 0 {
        assert(after[gap.len() as int] == rest[0]);
    }
    crate::text::lemma_lead_ws(after, gap.len() as int);
    assert(trim_start(after) =~= rest);
    assert(t[0] == ident[0]);
}

/// Whether `lower` starts with a skip word as a whole word.
fn starts_with_skip_word_vec(lower: &Vec<char>) -> (b: bool)
    ensures
        b == starts_with_skip_word(lower@),
{
    let mut i: usize = 0;
    while i < 15
        invariant
            i <= 15,
            forall|j: int|
                0 <= j < i ==> !(starts_with(lower@, #[trigger] skip_word(j)) && word_boundary(
                    lower@.skip(skip_word(j).len() as int),
                )),
        decreases 15 - i,
    {
        let kw = chars_of(skip_word_str(i));
        if crate::text::starts_with_at(lower, 0, &kw) {
            assert(lower@.skip(0) =~= lower@);
            let n = kw.len();
            if n == lower.len() || !crate::text::is_word_char(lower[n]) {
                proof {
                    assert(starts_with(lower@, skip_word(i as int)));
                    if n < lower@.len() {
                        assert(lower@.skip(n as int)[0] == lower@[n as int]);
                    }
                }
                return true;
            }
            proof {
                assert(lower@.skip(n as int)[0] == lower@[n as int]);
            }
        } else {
            assert(lower@.skip(0) =~= lower@);
        }
        i = i + 1;
    }
    false
}

/// Whether `v` starts with `:=` or `(`.
fn assign_or_call_vec(v: &Vec<char>) -> (b: bool)
    ensures
        b == assign_or_call(v@),
{
    crate::text::vec_starts_with(v, ":=") || crate::text::vec_starts_with(v, "(")
}

/// `t` prefixed with `record_var.`, as a string.
fn qualified_string(record_var: &str, t: &Vec<char>) -> (r: String)
    ensures
        r@ == qualified(record_var@, t@),
{
    let mut s = record_var.to_owned();
    crate::text::push_str(&mut s, ".");
    crate::text::push_chars(&mut s, t);
    s
}

/// Qualifies the leading reference of one `with`-body line (see
/// [`qualify_line_spec`]).
pub fn qualify_line(line: &str, record_var: &str) -> (r: String)
    ensures
        r@ == qualify_line_spec(line@, record_var@),
{
    let t = crate::text::trim_vec(&chars_of(line));
    let lower = crate::text::lower_vec(&t);
    if starts_with_skip_word_vec(&lower) {
        return string_of(&t);
    }
    if t.len() > 0 && t[0] == '"' {
        let e = crate::text::find_char_in(&t, '"', 1, t.len());
        assert(t@.subrange(1, t@.len() as int) =~= t@.skip(1));
        if e < t.len() {
            let (a, _) = crate::text::trim_range(&t, e + 1, t.len());
            let after = crate::text::copy_range(&t, a, t.len());
            assert(t@.skip(1).skip(e - 1 + 1) =~= t@.subrange(e + 1, t@.len() as int));
            if assign_or_call_vec(&after) {
                return qualified_string(record_var, &t);
            }
        }
        return string_of(&t);
    }
    let w = crate::text::word_end_of(&t);
    if w == 0 {
        return string_of(&t);
    }
    let (a, _) = crate::text::trim_range(&t, w, t.len());
    let after = crate::text::copy_range(&t, a, t.len());
    assert(t@.skip(w as int) =~= t@.subrange(w as int, t@.len() as int));
    if crate::text::vec_starts_with(&after, ".") {
        string_of(&t)
    } else if assign_or_call_vec(&after) {
        qualified_string(record_var, &t)
    } else {
        string_of(&t)
    }
}

/// The body with each line re-indented by `indent` and qualified (blank
/// and comment lines are only re-indented), each line ending in `\n`.
pub open spec fn qualified_body(lines: Seq<Seq<char>>, record_var: Seq<char>, indent: Seq<char>) -> Seq<
    char,
>
    decreases lines.len(),
{
    if lines.len() == 0 {
        Seq::empty()
    } else {
        let t = trim(lines.last());
        let body = if t.len() == 0 || starts_with(t, "//"@) {
            t
        } else {
            qualify_line_spec(t, record_var)
        };
        qualified_body(lines.drop_last(), record_var, indent) + indent + body + "\n"@
    }
}

/// Qualifies every line of a `with` body (see [`qualified_body`]).
pub fn qualify_with_references(body: &str, record_var: &str, indent: &str) -> (r: String)
    ensures
        r@ == qualified_body(lines_of(body@), record_var@, indent@),
{
    let v = chars_of(body);
    let ls = lines_vec(&v);
    let ghost lv = seqs_of(ls@);
    let mut result = String::new();
    let mut i: usize = 0;
    while i < ls.len()
        invariant
            i <= ls@.len(),
            lv == seqs_of(ls@),
            result@ == qualified_body(lv.take(i as int), record_var@, indent@),
        decreases ls@.len() - i,
    {
        assert(lv.take(i + 1).drop_last() =~= lv.take(i as int));
        assert(lv.take(i + 1).last() == ls@[i as int]@);
        let t = crate::text::trim_vec(&ls[i]);
        crate::text::push_str(&mut result, indent);
        if t.len() == 0 || crate::text::vec_starts_with(&t, "//") {
            crate::text::push_chars(&mut result, &t);
        } else {
            let q = qualify_line(string_of(&t).as_str(), record_var);
            crate::text::push_str(&mut result, q.as_str());
        }
        crate::text::push_str(&mut result, "\n");
        i = i + 1;
    }
    assert(lv.take(lv.len() as int) =~= lv);
    result
}

// ---------------------------------------------------------------------------
// Quoted identifiers under the cursor
// ---------------------------------------------------------------------------

/// The position of the nearest `"` at or before `pos`.
pub open spec fn quote_left(b: Seq<u8>, pos: int) -> Option<int>
    decreases pos + 1,
{
    if pos < 0 {
        None
    } else if b[pos] == 34u8 {
        Some(pos)
    } else {
        quote_left(b, pos - 1)
    }
}

/// The position of the first `"` at or after `pos`, or the length.
pub open spec fn quote_right(b: Seq<u8>, pos: int) -> int
    decreases b.len() - pos,
{
    if pos >= b.len() || pos < 0 {
        b.len() as int
    } else if b[pos] == 34u8 {
        pos
    } else {
        quote_right(b, pos + 1)
    }
}

/// The non-empty content of the `"…"` span around `cursor`, if it is in
/// one and the content is UTF-8.
pub open spec fn quoted_at(b: Seq<u8>, cursor: int) -> Option<Seq<char>> {
    if cursor < 0 || cursor >= b.len() {
        None
    } else {
        match quote_left(b, cursor) {
            None => None,
            Some(open) => {
                let close = quote_right(b, open + 1);
                if close >= b.len() || cursor > close {
                    None
                } else {
                    match utf8_text(b.subrange(open + 1, close)) {
                        Some(t) => if t.len() == 0 {
                            None
                        } else {
                            Some(t)
                        },
                        None => None,
                    }
                }
            },
        }
    }
}

/// The quoted identifier around `cursor` (see [`quoted_at`]).
pub fn try_extract_quoted_identifier(bytes: &[u8], cursor: usize) -> (r: Option<String>)
    ensures
        r matches Some(s) ==> quoted_at(bytes@, cursor as int) == Some(s@),
        r is None ==> quoted_at(bytes@, cursor as int) is None,
{
    if cursor >= bytes.len() {
        return None;
    }
    let mut pos = cursor;
    while bytes[pos] != 34u8
        invariant
            pos <= cursor < bytes@.len(),
            quote_left(bytes@, cursor as int) == quote_left(bytes@, pos as int),
        decreases pos,
    {
        if pos == 0 {
            assert(quote_left(bytes@, -1) is None);
            return None;
        }
        pos = pos - 1;
    }
    let open = pos;
    let mut close = open + 1;
    while close < bytes.len() && bytes[close] != 34u8
        invariant
            open < close <= bytes@.len(),
            quote_right(bytes@, open + 1) == quote_right(bytes@, close as int),
        decreases bytes@.len() - close,
    {
        close = close + 1;
    }
    if close >= bytes.len() || cursor > close {
        return None;
    }
    let mut inner: Vec<u8> = Vec::new();
    let mut k = open + 1;
    while k < close
        invariant
            open + 1 <= k <= close < bytes@.len(),
            inner@ == bytes@.subrange(open + 1, k as int),
        decreases close - k,
    {
        inner.push(bytes[k]);
        k = k + 1;
        assert(inner@ =~= bytes@.subrange(open + 1, k as int));
    }
    match text_from_utf8(inner.as_slice()) {
        Some(t) => {
            if chars_of(t.as_str()).len() == 0 {
                None
            } else {
                Some(t)
            }
        },
        None => None,
    }
}

} // verus!
