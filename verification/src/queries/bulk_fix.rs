//! Project-wide fixes on AL source text:
//! - `ApplicationArea` on page fields and actions that lack it,
//! - `ToolTip` on page fields, from a table of field tooltips,
//! - `DataClassification` on table fields (FlowFields and FlowFilters excepted).
//!
//! Each fix is a line-by-line state machine over one source file; walking
//! the project directory and writing files back is the caller's part.

use vstd::prelude::*;

use crate::language::{detect_object_keyword, source_object_keyword};
use crate::text::{
    ascii_lower_seq, ascii_lower_vec, chars_of, contains, count_char, count_char_in, ends_with,
    extend_all, join_lines, join_vec_lines, lead_ws, leading_ws_vec, lines_of, lines_vec, seqs_of,
    starts_with, string_of, trim, trim_end, trim_start, trail_ws, trim_vec, vec_contains,
    vec_starts_with, is_ws, is_ascii_alnum, lemma_lead_ws, lemma_trail_ws, ascii_lower, occurs_at,
    lemma_index_of_char, strip_cr, index_of_char,
};

verus! {

/// The outcome of a bulk fix over a project.
#[derive(Debug, Clone)]
pub struct BulkFixResult {
    /// Files that were modified (or would be modified in dry-run).
    pub modified_files: Vec<String>,
    /// Total number of changes applied (or would be applied).
    pub changes_count: usize,
    /// Whether this was a dry-run (no files were written).
    pub dry_run: bool,
}

// ---------------------------------------------------------------------------
// Shared pieces
// ---------------------------------------------------------------------------

/// `a - b`, or 0 when `b >= a`.
pub open spec fn sat_sub(a: nat, b: nat) -> nat {
    if a > b {
        (a - b) as nat
    } else {
        0
    }
}

/// `s` with `n` more copies of `x` on top.
pub open spec fn push_n<A>(s: Seq<A>, n: nat, x: A) -> Seq<A>
    decreases n,
{
    if n == 0 {
        s
    } else {
        push_n(s, (n - 1) as nat, x).push(x)
    }
}

/// The leading whitespace of a line.
pub open spec fn indent_of(line: Seq<char>) -> Seq<char> {
    line.take(lead_ws(line) as int)
}

/// The fixed text: the output lines joined, with a final newline when the
/// source had one.
pub open spec fn rejoin(source: Seq<char>, out: Seq<Seq<char>>) -> Seq<char> {
    if ends_with(source, "\n"@) {
        join_lines(out) + "\n"@
    } else {
        join_lines(out)
    }
}

/// Joins the output lines (see [`rejoin`]).
fn rejoin_lines(source: &Vec<char>, out: &Vec<Vec<char>>) -> (r: String)
    ensures
        r@ == rejoin(source@, seqs_of(out@)),
{
    let mut text = join_vec_lines(out);
    let nl = chars_of("\n");
    let ends = crate::text::ends_with_vec(source, &nl);
    if ends {
        crate::text::extend_all(&mut text, &nl);
    }
    string_of(&text)
}

/// The source is a page-like object: page, page extension, report, report
/// extension, request page or page customization.
pub open spec fn is_page_source(source: Seq<char>) -> bool {
    match source_object_keyword(source) {
        Some(k) => k == "page"@ || k == "pageextension"@ || k == "report"@ || k
            == "reportextension"@ || k == "requestpage"@ || k == "pagecustomization"@,
        None => false,
    }
}

/// The source is a table or a table extension.
pub open spec fn is_table_source(source: Seq<char>) -> bool {
    match source_object_keyword(source) {
        Some(k) => k == "table"@ || k == "tableextension"@,
        None => false,
    }
}

fn str_is(k: &str, lit: &str) -> (b: bool)
    ensures
        b == (k@ == lit@),
{
    crate::text::vec_eq(&chars_of(k), &chars_of(lit))
}

/// Whether `source` declares a page-like object (see [`is_page_source`]).
pub fn is_page_file(source: &str) -> (b: bool)
    ensures
        b == is_page_source(source@),
{
    match detect_object_keyword(source) {
        Some(k) => str_is(k, "page") || str_is(k, "pageextension") || str_is(k, "report")
            || str_is(k, "reportextension") || str_is(k, "requestpage") || str_is(
            k,
            "pagecustomization",
        ),
        None => false,
    }
}

/// Whether `source` declares a table or table extension.
pub fn is_table_file(source: &str) -> (b: bool)
    ensures
        b == is_table_source(source@),
{
    match detect_object_keyword(source) {
        Some(k) => str_is(k, "table") || str_is(k, "tableextension"),
        None => false,
    }
}

/// The leading whitespace of `line`.
pub fn leading_whitespace(line: &str) -> (r: String)
    ensures
        r@ == indent_of(line@),
{
    let v = chars_of(line);
    string_of(&leading_ws_vec(&v))
}

/// What a line looks like to the fixers: trimmed, its ASCII lowercase, and
/// its counts of `{` and `}`.
fn line_facts(line: &Vec<char>) -> (r: (Vec<char>, Vec<char>, usize, usize))
    ensures
        r.0@ == trim(line@),
        r.1@ == ascii_lower_seq(trim(line@)),
        r.2 == count_char(trim(line@), '{'),
        r.3 == count_char(trim(line@), '}'),
{
    let t = trim_vec(line);
    let lower = ascii_lower_vec(&t);
    let opens = count_char_in(&t, '{', 0, t.len());
    let closes = count_char_in(&t, '}', 0, t.len());
    assert(t@.subrange(0, t@.len() as int) =~= t@);
    (t, lower, opens, closes)
}

// ---------------------------------------------------------------------------
// ApplicationArea
// ---------------------------------------------------------------------------

/// An open block: whether it is a field/action block, whether it already
/// has an `ApplicationArea`, and the indentation of the line opening it.
pub type AreaFrame = (bool, bool, Seq<char>);

/// Scan state: open blocks, whether the last non-blank line declared a
/// field/action without its `{`, output lines, changes made.
pub type AreaState = (Seq<AreaFrame>, bool, Seq<Seq<char>>, nat);

/// The property line inserted into a block opened with indentation `indent`.
pub open spec fn area_line(indent: Seq<char>, value: Seq<char>) -> Seq<char> {
    indent + "    ApplicationArea = "@ + value + ";"@
}

/// Closing up to `n` blocks: the remaining stack and the lines inserted for
/// field/action blocks that lacked the property, innermost first.
pub open spec fn area_pop(stack: Seq<AreaFrame>, n: nat, value: Seq<char>) -> (Seq<AreaFrame>, Seq<
    Seq<char>,
>)
    decreases n,
{
    if n == 0 || stack.len() == 0 {
        (stack, Seq::empty())
    } else {
        let top = stack.last();
        let rest = area_pop(stack.drop_last(), (n - 1) as nat, value);
        (rest.0, (if top.0 && !top.1 {
            seq![area_line(top.2, value)]
        } else {
            Seq::empty()
        }) + rest.1)
    }
}

/// One line of the ApplicationArea scan.
pub open spec fn area_step(st: AreaState, line: Seq<char>, value: Seq<char>) -> AreaState {
    let trimmed = trim(line);
    let lower = ascii_lower_seq(trimmed);
    let is_decl = starts_with(lower, "field("@) || starts_with(lower, "action("@);
    let opens = count_char(trimmed, '{');
    let closes = count_char(trimmed, '}');
    let is_start = is_decl && opens > 0;
    let eff = if !is_start && st.1 && opens > 0 && closes == 0 {
        true
    } else {
        is_start
    };
    let popped = if closes > 0 && st.0.len() > 0 {
        area_pop(st.0, sat_sub(closes, opens), value)
    } else {
        (st.0, Seq::empty())
    };
    let s1 = popped.0;
    let s2 = if contains(lower, "applicationarea"@) && s1.len() > 0 {
        s1.update(s1.len() - 1, (s1.last().0, true, s1.last().2))
    } else {
        s1
    };
    let s3 = if opens > 0 {
        push_n(s2, sat_sub(opens, closes), (eff, false, indent_of(line)))
    } else {
        s2
    };
    let pending = if trimmed.len() > 0 {
        is_decl && opens == 0
    } else {
        st.1
    };
    (s3, pending, st.2 + popped.1 + seq![line], st.3 + popped.1.len())
}

/// The ApplicationArea scan over `lines`.
pub open spec fn area_scan(lines: Seq<Seq<char>>, value: Seq<char>) -> AreaState
    decreases lines.len(),
{
    if lines.len() == 0 {
        (Seq::empty(), false, Seq::empty(), 0)
    } else {
        area_step(area_scan(lines.drop_last(), value), lines.last(), value)
    }
}

pub open spec fn area_frames(v: Seq<(bool, bool, Vec<char>)>) -> Seq<AreaFrame> {
    v.map_values(|f: (bool, bool, Vec<char>)| (f.0, f.1, f.2@))
}

/// Adds `ApplicationArea = <value>;` at the end of every field/action block
/// that lacks it; returns the new text and the number of lines added.
pub fn inject_application_area(source: &str, value: &str) -> (r: (String, usize))
    ensures
        r.0@ == rejoin(source@, area_scan(lines_of(source@), value@).2),
        r.1 == area_scan(lines_of(source@), value@).3,
{
    let src = chars_of(source);
    let val = chars_of(value);
    let lines = lines_vec(&src);
    let ghost ls = seqs_of(lines@);
    let mut out: Vec<Vec<char>> = Vec::new();
    let mut changes: usize = 0;
    let mut stack: Vec<(bool, bool, Vec<char>)> = Vec::new();
    let mut pending = false;
    let mut i: usize = 0;
    while i < lines.len()
        invariant
            i <= lines@.len(),
            ls == seqs_of(lines@),
            ls == lines_of(src@),
            val@ == value@,
            changes <= out@.len(),
            ({
                let st = area_scan(ls.take(i as int), val@);
                &&& area_frames(stack@) == st.0
                &&& pending == st.1
                &&& seqs_of(out@) == st.2
                &&& changes == st.3
            }),
        decreases lines@.len() - i,
    {
        let line = &lines[i];
        assert(ls.take(i + 1).drop_last() =~= ls.take(i as int));
        assert(ls.take(i + 1).last() == line@);
        let ghost st0 = area_scan(ls.take(i as int), val@);
        let (trimmed, lower, opens, closes) = line_facts(line);
        let is_decl = vec_starts_with(&lower, "field(") || vec_starts_with(&lower, "action(");
        let is_start = is_decl && opens > 0;
        let eff = if !is_start && pending && opens > 0 && closes == 0 {
            true
        } else {
            is_start
        };
        // Close blocks.
        let ghost popped = if closes > 0 && st0.0.len() > 0 {
            area_pop(st0.0, sat_sub(closes as nat, opens as nat), val@)
        } else {
            (st0.0, Seq::<Seq<char>>::empty())
        };
        let ghost out0 = seqs_of(out@);
        if closes > 0 && stack.len() > 0 {
            let n = closes.saturating_sub(opens);
            let mut c: usize = 0;
            while c < n && stack.len() > 0
                invariant
                    c <= n,
                    changes <= out@.len(),
                    val@ == value@,
                    ({
                        let rest = area_pop(area_frames(stack@), (n - c) as nat, val@);
                        &&& rest.0 == popped.0
                        &&& out0 + popped.1 == seqs_of(out@) + rest.1
                        &&& changes + rest.1.len() == st0.3 + popped.1.len()
                    }),
                decreases n - c,
            {
                let ghost before = area_frames(stack@);
                let ghost ob = seqs_of(out@);
                let top = stack.pop().unwrap();
                assert(area_frames(stack@) =~= before.drop_last());
                if top.0 && !top.1 {
                    let mut l = top.2;
                    extend_all(&mut l, &chars_of("    ApplicationArea = "));
                    extend_all(&mut l, &val);
                    extend_all(&mut l, &chars_of(";"));
                    out.push(l);
                    assert(seqs_of(out@) =~= ob.push(l@));
                    let _n_out = out.len();
                    changes = changes + 1;
                }
                c = c + 1;
            }
            proof {
                let rest = area_pop(area_frames(stack@), (n - c) as nat, val@);
                assert(rest.1.len() == 0);
                assert(seqs_of(out@) + rest.1 =~= seqs_of(out@));
            }
        } else {
            assert(out0 + popped.1 =~= out0);
        }
        let ghost s1 = popped.0;
        let ghost ob2 = seqs_of(out@);
        out.push(crate::text::copy_range(line, 0, line.len()));
        assert(line@.subrange(0, line@.len() as int) =~= line@);
        assert(seqs_of(out@) =~= ob2.push(line@));
        if vec_contains(&lower, "applicationarea") && stack.len() > 0 {
            let (a, _, ind) = stack.pop().unwrap();
            stack.push((a, true, ind));
            assert(area_frames(stack@) =~= s1.update(s1.len() - 1, (s1.last().0, true, s1.last().2)));
        }
        let ghost s2 = area_frames(stack@);
        if opens > 0 {
            let n = opens.saturating_sub(closes);
            let ind = leading_ws_vec(line);
            let mut k: usize = 0;
            while k < n
                invariant
                    k <= n,
                    area_frames(stack@) == push_n(s2, k as nat, (eff, false, ind@)),
                decreases n - k,
            {
                let ghost sb = area_frames(stack@);
                stack.push((eff, false, crate::text::copy_range(&ind, 0, ind.len())));
                assert(ind@.subrange(0, ind@.len() as int) =~= ind@);
                assert(area_frames(stack@) =~= sb.push((eff, false, ind@)));
                k = k + 1;
            }
        }
        if trimmed.len() > 0 {
            pending = is_decl && opens == 0;
        }
        proof {
            let st1 = area_step(st0, line@, val@);
            assert(st1 == area_scan(ls.take(i + 1), val@));
            assert(seqs_of(out@) =~= st1.2);
        }
        i = i + 1;
    }
    assert(ls.take(ls.len() as int) =~= ls);
    (rejoin_lines(&src, &out), changes)
}


// ---------------------------------------------------------------------------
// Field source names and tooltips
// ---------------------------------------------------------------------------

/// Number of leading `"` of `s`.
pub open spec fn lead_quotes(s: Seq<char>) -> nat
    decreases s.len(),
{
    if s.len() > 0 && s[0] == '"' {
        1 + lead_quotes(s.drop_first())
    } else {
        0
    }
}

/// Number of trailing `"` of `s`.
pub open spec fn trail_quotes(s: Seq<char>) -> nat
    decreases s.len(),
{
    if s.len() > 0 && s.last() == '"' {
        1 + trail_quotes(s.drop_last())
    } else {
        0
    }
}

/// `str::trim_matches('"')`: `s` without its leading and trailing `"`.
pub open spec fn strip_quotes(s: Seq<char>) -> Seq<char> {
    if lead_quotes(s) == s.len() {
        Seq::empty()
    } else {
        s.subrange(lead_quotes(s) as int, s.len() - trail_quotes(s))
    }
}

/// `s` without the prefix `p`, when it has it.
pub open spec fn strip_prefix_or_keep(s: Seq<char>, p: Seq<char>) -> Seq<char> {
    if starts_with(s, p) {
        s.skip(p.len() as int)
    } else {
        s
    }
}

/// The source field of a `field(<control>; <source>)` line: the text after
/// the first `;` inside the outer parentheses, trimmed, without a leading
/// `Rec.` or `rec.` and without surrounding double quotes.  `None` when the
/// line is not a field declaration, has no `)` or no `;`, or the name is
/// empty.
pub open spec fn field_source_name(line: Seq<char>) -> Option<Seq<char>> {
    let s = crate::text::trim_start(line);
    if !starts_with(s, "field("@) {
        None
    } else {
        let after = s.skip(6);
        if !crate::text::contains(after, seq![')']) {
            None
        } else {
            let close = choose|i: int| crate::text::last_at(after, seq![')'], i);
            let inner = trim(after.take(close));
            let semi = crate::text::index_of_char(inner, ';');
            if semi >= inner.len() {
                None
            } else {
                let src = trim(inner.skip(semi as int + 1));
                let src = strip_prefix_or_keep(src, "Rec."@);
                let src = strip_prefix_or_keep(src, "rec."@);
                let src = trim(strip_quotes(src));
                if src.len() == 0 {
                    None
                } else {
                    Some(src)
                }
            }
        }
    }
}

proof fn lemma_lead_quotes(s: Seq<char>, n: int)
    requires
        0 <= n <= s.len(),
        forall|j: int| 0 <= j < n ==> s[j] == '"',
        n == s.len() || s[n] != '"',
    ensures
        lead_quotes(s) == n,
    decreases n,
{
    if n > 0 {
        let t = s.drop_first();
        assert forall|j: int| 0 <= j < n - 1 implies t[j] == '"' by {
            assert(t[j] == s[j + 1]);
        }
        if n - 1 < t.len() {
            assert(t[n - 1] == s[n]);
        }
        lemma_lead_quotes(t, n - 1);
    }
}

proof fn lemma_trail_quotes(s: Seq<char>, n: int)
    requires
        0 <= n <= s.len(),
        forall|j: int| s.len() - n <= j < s.len() ==> s[j] == '"',
        n == s.len() || s[s.len() - n - 1] != '"',
    ensures
        trail_quotes(s) == n,
    decreases n,
{
    if n > 0 {
        let t = s.drop_last();
        assert forall|j: int| t.len() - (n - 1) <= j < t.len() implies t[j] == '"' by {
            assert(t[j] == s[j]);
        }
        if n - 1 < t.len() {
            assert(t[t.len() - (n - 1) - 1] == s[s.len() - n - 1]);
        }
        lemma_trail_quotes(t, n - 1);
    }
}

/// `v` without its leading and trailing `"` (see [`strip_quotes`]).
fn strip_quotes_vec(v: &Vec<char>) -> (r: Vec<char>)
    ensures
        r@ == strip_quotes(v@),
{
    let mut a: usize = 0;
    while a < v.len() && v[a] == '"'
        invariant
            a <= v@.len(),
            forall|j: int| 0 <= j < a ==> v@[j] == '"',
        decreases v@.len() - a,
    {
        a = a + 1;
    }
    proof {
        lemma_lead_quotes(v@, a as int);
    }
    if a == v.len() {
        return Vec::new();
    }
    let mut b: usize = v.len();
    while b > a && v[b - 1] == '"'
        invariant
            a < v@.len(),
            a <= b <= v@.len(),
            forall|j: int| b <= j < v@.len() ==> v@[j] == '"',
        decreases b,
    {
        b = b - 1;
    }
    proof {
        assert(v@[a as int] != '"');
        lemma_trail_quotes(v@, v@.len() - b);
    }
    crate::text::copy_range(v, a, b)
}

/// `v` without the prefix `p`, when it has it.
fn strip_prefix_vec(v: Vec<char>, p: &str) -> (r: Vec<char>)
    ensures
        r@ == strip_prefix_or_keep(v@, p@),
{
    if vec_starts_with(&v, p) {
        let n = chars_of(p).len();
        crate::text::copy_range(&v, n, v.len())
    } else {
        v
    }
}

/// The source field name of a `field(...)` line (see [`field_source_name`]).
pub fn extract_field_source_name(line: &str) -> (r: Option<String>)
    ensures
        r matches Some(n) ==> field_source_name(line@) == Some(n@),
        r is None ==> field_source_name(line@) is None,
{
    let v = chars_of(line);
    let (a, _) = crate::text::trim_range(&v, 0, v.len());
    assert(v@.subrange(0, v@.len() as int) =~= v@);
    let s = crate::text::copy_range(&v, a, v.len());
    if !vec_starts_with(&s, "field(") {
        return None;
    }
    proof {
        reveal_strlit("field(");
    }
    let after = crate::text::copy_range(&s, 6, s.len());
    assert(after@ =~= s@.skip(6));
    let mut paren: Vec<char> = Vec::new();
    paren.push(')');
    assert(paren@ =~= seq![')']);
    let close = match crate::text::rfind(&after, &paren) {
        Some(c) => c,
        None => {
            return None;
        },
    };
    proof {
        assert(crate::text::contains(after@, seq![')']));
        let c2 = choose|i: int| crate::text::last_at(after@, seq![')'], i);
        if c2 < close {
            assert(!crate::text::occurs_at(after@, seq![')'], close as int));
        }
        if c2 > close {
            assert(!crate::text::occurs_at(after@, seq![')'], c2));
        }
    }
    let head = crate::text::copy_range(&after, 0, close);
    assert(head@ =~= after@.take(close as int));
    let inner = trim_vec(&head);
    let semi = crate::text::find_char_in(&inner, ';', 0, inner.len());
    assert(inner@.subrange(0, inner@.len() as int) =~= inner@);
    if semi == inner.len() {
        return None;
    }
    let tail = crate::text::copy_range(&inner, semi + 1, inner.len());
    assert(tail@ =~= inner@.skip(semi + 1));
    let src = trim_vec(&tail);
    let src = strip_prefix_vec(src, "Rec.");
    let src = strip_prefix_vec(src, "rec.");
    let src = trim_vec(&strip_quotes_vec(&src));
    if src.len() == 0 {
        None
    } else {
        Some(string_of(&src))
    }
}

/// The tooltip recorded for `name`: the first entry whose name equals it
/// ignoring ASCII case.
pub open spec fn find_tip(name: Seq<char>, tips: Seq<(Seq<char>, Seq<char>)>) -> Option<Seq<char>>
    decreases tips.len(),
{
    if tips.len() == 0 {
        None
    } else if crate::text::eq_ignore_ascii_case(tips[0].0, name) {
        Some(tips[0].1)
    } else {
        find_tip(name, tips.drop_first())
    }
}

pub open spec fn tips_view(t: Seq<(String, String)>) -> Seq<(Seq<char>, Seq<char>)> {
    t.map_values(|p: (String, String)| (p.0@, p.1@))
}

/// The tooltip for `field_name` (see [`find_tip`]).
pub fn find_tooltip<'a>(field_name: &str, tooltips: &'a [(String, String)]) -> (r: Option<&'a str>)
    ensures
        r matches Some(t) ==> find_tip(field_name@, tips_view(tooltips@)) == Some(t@),
        r is None ==> find_tip(field_name@, tips_view(tooltips@)) is None,
{
    let name = chars_of(field_name);
    let ghost tv = tips_view(tooltips@);
    let mut i: usize = 0;
    assert(tv.skip(0) =~= tv);
    while i < tooltips.len()
        invariant
            i <= tooltips@.len(),
            tv == tips_view(tooltips@),
            name@ == field_name@,
            find_tip(field_name@, tv) == find_tip(field_name@, tv.skip(i as int)),
        decreases tooltips@.len() - i,
    {
        assert(tv.skip(i as int)[0] == (tooltips@[i as int].0@, tooltips@[i as int].1@));
        assert(tv.skip(i as int).drop_first() =~= tv.skip(i + 1));
        let n = chars_of(tooltips[i].0.as_str());
        if crate::text::eq_ignore_case(&n, &name) {
            return Some(tooltips[i].1.as_str());
        }
        i = i + 1;
    }
    None
}

/// `s` with each `'` doubled (AL string-literal escaping).
pub open spec fn escape_quotes(s: Seq<char>) -> Seq<char>
    decreases s.len(),
{
    if s.len() == 0 {
        Seq::empty()
    } else if s.last() == '\'' {
        escape_quotes(s.drop_last()) + seq!['\'', '\'']
    } else {
        escape_quotes(s.drop_last()).push(s.last())
    }
}

fn escape_quotes_vec(v: &Vec<char>) -> (r: Vec<char>)
    ensures
        r@ == escape_quotes(v@),
{
    let mut r: Vec<char> = Vec::new();
    let mut i: usize = 0;
    while i < v.len()
        invariant
            i <= v@.len(),
            r@ == escape_quotes(v@.take(i as int)),
        decreases v@.len() - i,
    {
        assert(v@.take(i + 1).drop_last() =~= v@.take(i as int));
        let ghost r0 = r@;
        if v[i] == '\'' {
            r.push('\'');
            r.push('\'');
            assert(r@ =~= r0 + seq!['\'', '\'']);
        } else {
            r.push(v[i]);
        }
        i = i + 1;
    }
    assert(v@.take(v@.len() as int) =~= v@);
    r
}

/// An open block: source field name (empty for non-field blocks), whether
/// it already has a `ToolTip`, and the indentation of its opening line.
pub type TipFrame = (Seq<char>, bool, Seq<char>);

/// Scan state: open blocks, the field declared on the last non-blank line
/// without its `{`, output lines, changes made.
pub type TipState = (Seq<TipFrame>, Option<Seq<char>>, Seq<Seq<char>>, nat);

pub open spec fn tip_line(indent: Seq<char>, tip: Seq<char>) -> Seq<char> {
    indent + "    ToolTip = 'Specifies "@ + escape_quotes(tip) + "';"@
}

/// Closing up to `n` blocks, inserting a tooltip into field blocks that
/// lack one and whose field has a recorded tooltip.
pub open spec fn tip_pop(stack: Seq<TipFrame>, n: nat, tips: Seq<(Seq<char>, Seq<char>)>) -> (Seq<
    TipFrame,
>, Seq<Seq<char>>)
    decreases n,
{
    if n == 0 || stack.len() == 0 {
        (stack, Seq::empty())
    } else {
        let top = stack.last();
        let rest = tip_pop(stack.drop_last(), (n - 1) as nat, tips);
        (rest.0, (if !top.1 && top.0.len() > 0 && find_tip(top.0, tips) is Some {
            seq![tip_line(top.2, find_tip(top.0, tips)->0)]
        } else {
            Seq::empty()
        }) + rest.1)
    }
}

/// The blocks a line opens: the first is the field's block when the line
/// starts one, the others anonymous.
pub open spec fn tip_push(s: Seq<TipFrame>, n: nat, first: Seq<char>, indent: Seq<char>) -> Seq<
    TipFrame,
> {
    if n == 0 {
        s
    } else {
        push_n(s.push((first, false, indent)), (n - 1) as nat, (Seq::empty(), false, indent))
    }
}

/// One line of the ToolTip scan.
pub open spec fn tip_step(st: TipState, line: Seq<char>, tips: Seq<(Seq<char>, Seq<char>)>) -> TipState {
    let trimmed = trim(line);
    let lower = ascii_lower_seq(trimmed);
    let opens = count_char(trimmed, '{');
    let closes = count_char(trimmed, '}');
    let is_field = starts_with(lower, "field("@);
    let fname = if is_field {
        field_source_name(trimmed)
    } else {
        None
    };
    let eff = if fname is Some && opens > 0 {
        fname
    } else if fname is None && opens > 0 && closes == 0 && st.1 is Some {
        st.1
    } else {
        None
    };
    let popped = if closes > 0 && st.0.len() > 0 {
        tip_pop(st.0, sat_sub(closes, opens), tips)
    } else {
        (st.0, Seq::empty())
    };
    let s1 = popped.0;
    let s2 = if contains(lower, "tooltip"@) && s1.len() > 0 {
        s1.update(s1.len() - 1, (s1.last().0, true, s1.last().2))
    } else {
        s1
    };
    let first = match eff {
        Some(n) => n,
        None => Seq::empty(),
    };
    let s3 = if opens > 0 {
        tip_push(s2, sat_sub(opens, closes), first, indent_of(line))
    } else {
        s2
    };
    let pending = if trimmed.len() > 0 {
        if is_field && opens == 0 {
            fname
        } else {
            None
        }
    } else {
        st.1
    };
    (s3, pending, st.2 + popped.1 + seq![line], st.3 + popped.1.len())
}

/// The ToolTip scan over `lines`.
pub open spec fn tip_scan(lines: Seq<Seq<char>>, tips: Seq<(Seq<char>, Seq<char>)>) -> TipState
    decreases lines.len(),
{
    if lines.len() == 0 {
        (Seq::empty(), None, Seq::empty(), 0)
    } else {
        tip_step(tip_scan(lines.drop_last(), tips), lines.last(), tips)
    }
}

pub open spec fn tip_frames(v: Seq<(Vec<char>, bool, Vec<char>)>) -> Seq<TipFrame> {
    v.map_values(|f: (Vec<char>, bool, Vec<char>)| (f.0@, f.1, f.2@))
}

pub open spec fn opt_view(o: Option<Vec<char>>) -> Option<Seq<char>> {
    match o {
        Some(v) => Some(v@),
        None => None,
    }
}

/// Adds `ToolTip = 'Specifies <tip>';` at the end of every field block that
/// lacks a tooltip and whose source field has one in `tooltips`; returns
/// the new text and the number of lines added.
pub fn inject_tooltips(source: &str, tooltips: &[(String, String)]) -> (r: (String, usize))
    ensures
        r.0@ == rejoin(source@, tip_scan(lines_of(source@), tips_view(tooltips@)).2),
        r.1 == tip_scan(lines_of(source@), tips_view(tooltips@)).3,
{
    let src = chars_of(source);
    let lines = lines_vec(&src);
    let ghost ls = seqs_of(lines@);
    let ghost tv = tips_view(tooltips@);
    let mut out: Vec<Vec<char>> = Vec::new();
    let mut changes: usize = 0;
    let mut stack: Vec<(Vec<char>, bool, Vec<char>)> = Vec::new();
    let mut pending: Option<Vec<char>> = None;
    let mut i: usize = 0;
    while i < lines.len()
        invariant
            i <= lines@.len(),
            ls == seqs_of(lines@),
            ls == lines_of(src@),
            tv == tips_view(tooltips@),
            changes <= out@.len(),
            ({
                let st = tip_scan(ls.take(i as int), tv);
                &&& tip_frames(stack@) == st.0
                &&& opt_view(pending) == st.1
                &&& seqs_of(out@) == st.2
                &&& changes == st.3
            }),
        decreases lines@.len() - i,
    {
        let line = &lines[i];
        assert(ls.take(i + 1).drop_last() =~= ls.take(i as int));
        assert(ls.take(i + 1).last() == line@);
        let ghost st0 = tip_scan(ls.take(i as int), tv);
        let (trimmed, lower, opens, closes) = line_facts(line);
        let is_field = vec_starts_with(&lower, "field(");
        let fname: Option<Vec<char>> = if is_field {
            match extract_field_source_name(string_of(&trimmed).as_str()) {
                Some(n) => Some(chars_of(n.as_str())),
                None => None,
            }
        } else {
            None
        };
        let eff: Option<Vec<char>> = if fname.is_some() && opens > 0 {
            match &fname {
                Some(n) => Some(crate::text::copy_range(n, 0, n.len())),
                None => None,
            }
        } else if fname.is_none() && opens > 0 && closes == 0 && pending.is_some() {
            match &pending {
                Some(n) => Some(crate::text::copy_range(n, 0, n.len())),
                None => None,
            }
        } else {
            None
        };
        proof {
            if fname is Some {
                let n = fname->0;
                assert(n@.subrange(0, n@.len() as int) =~= n@);
            }
            if pending is Some {
                let n = pending->0;
                assert(n@.subrange(0, n@.len() as int) =~= n@);
            }
        }
        let ghost popped = if closes > 0 && st0.0.len() > 0 {
            tip_pop(st0.0, sat_sub(closes as nat, opens as nat), tv)
        } else {
            (st0.0, Seq::<Seq<char>>::empty())
        };
        let ghost out0 = seqs_of(out@);
        if closes > 0 && stack.len() > 0 {
            let n = closes.saturating_sub(opens);
            let mut c: usize = 0;
            while c < n && stack.len() > 0
                invariant
                    c <= n,
                    changes <= out@.len(),
                    tv == tips_view(tooltips@),
                    ({
                        let rest = tip_pop(tip_frames(stack@), (n - c) as nat, tv);
                        &&& rest.0 == popped.0
                        &&& out0 + popped.1 == seqs_of(out@) + rest.1
                        &&& changes + rest.1.len() == st0.3 + popped.1.len()
                    }),
                decreases n - c,
            {
                let ghost before = tip_frames(stack@);
                let ghost ob = seqs_of(out@);
                let top = stack.pop().unwrap();
                assert(tip_frames(stack@) =~= before.drop_last());
                if !top.1 && top.0.len() > 0 {
                    match find_tooltip(string_of(&top.0).as_str(), tooltips) {
                        Some(tip) => {
                            let mut l = top.2;
                            extend_all(&mut l, &chars_of("    ToolTip = 'Specifies "));
                            extend_all(&mut l, &escape_quotes_vec(&chars_of(tip)));
                            extend_all(&mut l, &chars_of("';"));
                            out.push(l);
                            assert(seqs_of(out@) =~= ob.push(l@));
                            let _n_out = out.len();
                            changes = changes + 1;
                        },
                        None => {},
                    }
                }
                c = c + 1;
            }
            proof {
                let rest = tip_pop(tip_frames(stack@), (n - c) as nat, tv);
                assert(rest.1.len() == 0);
                assert(seqs_of(out@) + rest.1 =~= seqs_of(out@));
            }
        } else {
            assert(out0 + popped.1 =~= out0);
        }
        let ghost s1 = popped.0;
        let ghost ob2 = seqs_of(out@);
        out.push(crate::text::copy_range(line, 0, line.len()));
        assert(line@.subrange(0, line@.len() as int) =~= line@);
        assert(seqs_of(out@) =~= ob2.push(line@));
        if vec_contains(&lower, "tooltip") && stack.len() > 0 {
            let (a, _, ind) = stack.pop().unwrap();
            stack.push((a, true, ind));
            assert(tip_frames(stack@) =~= s1.update(s1.len() - 1, (s1.last().0, true, s1.last().2)));
        }
        let ghost s2 = tip_frames(stack@);
        if opens > 0 {
            let n = opens.saturating_sub(closes);
            let ind = leading_ws_vec(line);
            let first: Vec<char> = match eff {
                Some(e) => e,
                None => Vec::new(),
            };
            let mut k: usize = 0;
            while k < n
                invariant
                    k <= n,
                    k == 0 ==> tip_frames(stack@) == s2,
                    k > 0 ==> tip_frames(stack@) == push_n(
                        s2.push((first@, false, ind@)),
                        (k - 1) as nat,
                        (Seq::<char>::empty(), false, ind@),
                    ),
                decreases n - k,
            {
                let ghost sb = tip_frames(stack@);
                let name = if k == 0 {
                    crate::text::copy_range(&first, 0, first.len())
                } else {
                    Vec::new()
                };
                assert(first@.subrange(0, first@.len() as int) =~= first@);
                stack.push((name, false, crate::text::copy_range(&ind, 0, ind.len())));
                assert(ind@.subrange(0, ind@.len() as int) =~= ind@);
                assert(tip_frames(stack@) =~= sb.push((name@, false, ind@)));
                k = k + 1;
            }
        }
        if trimmed.len() > 0 {
            pending = if is_field && opens == 0 {
                fname
            } else {
                None
            };
        }
        proof {
            let st1 = tip_step(st0, line@, tv);
            assert(st1 == tip_scan(ls.take(i + 1), tv));
            assert(seqs_of(out@) =~= st1.2);
        }
        i = i + 1;
    }
    assert(ls.take(ls.len() as int) =~= ls);
    (rejoin_lines(&src, &out), changes)
}


// ---------------------------------------------------------------------------
// DataClassification
// ---------------------------------------------------------------------------

/// An open block: whether it is a field block, whether the field is a
/// FlowField/FlowFilter, whether it already has a `DataClassification`, and
/// the indentation of its opening line.
pub type DcFrame = (bool, bool, bool, Seq<char>);

/// Scan state: open blocks, whether the last non-blank line declared a
/// field without its `{`, output lines, changes made.
pub type DcState = (Seq<DcFrame>, bool, Seq<Seq<char>>, nat);

pub open spec fn dc_line(indent: Seq<char>, value: Seq<char>) -> Seq<char> {
    indent + "    DataClassification = "@ + value + ";"@
}

/// Closing up to `n` blocks, inserting the property into plain field
/// blocks that lack it.
pub open spec fn dc_pop(stack: Seq<DcFrame>, n: nat, value: Seq<char>) -> (Seq<DcFrame>, Seq<
    Seq<char>,
>)
    decreases n,
{
    if n == 0 || stack.len() == 0 {
        (stack, Seq::empty())
    } else {
        let top = stack.last();
        let rest = dc_pop(stack.drop_last(), (n - 1) as nat, value);
        (rest.0, (if top.0 && !top.1 && !top.2 {
            seq![dc_line(top.3, value)]
        } else {
            Seq::empty()
        }) + rest.1)
    }
}

/// The blocks a line opens: only the first can be a field block.
pub open spec fn dc_push(s: Seq<DcFrame>, n: nat, first_is_field: bool, indent: Seq<char>) -> Seq<
    DcFrame,
> {
    if n == 0 {
        s
    } else {
        push_n(s.push((first_is_field, false, false, indent)), (n - 1) as nat, (false, false, false, indent))
    }
}

/// One line of the DataClassification scan.
pub open spec fn dc_step(st: DcState, line: Seq<char>, value: Seq<char>) -> DcState {
    let trimmed = trim(line);
    let lower = ascii_lower_seq(trimmed);
    let opens = count_char(trimmed, '{');
    let closes = count_char(trimmed, '}');
    let is_decl = starts_with(lower, "field("@);
    let inline_start = is_decl && opens > 0;
    let popped = if closes > 0 && st.0.len() > 0 {
        dc_pop(st.0, sat_sub(closes, opens), value)
    } else {
        (st.0, Seq::empty())
    };
    let s1 = popped.0;
    let s2 = if contains(lower, "dataclassification"@) && s1.len() > 0 {
        s1.update(s1.len() - 1, (s1.last().0, s1.last().1, true, s1.last().3))
    } else {
        s1
    };
    let s3 = if contains(lower, "fieldclass"@) && (contains(lower, "flowfield"@) || contains(
        lower,
        "flowfilter"@,
    )) && s2.len() > 0 {
        s2.update(s2.len() - 1, (s2.last().0, true, s2.last().2, s2.last().3))
    } else {
        s2
    };
    let first_is_field = inline_start || (!is_decl && closes == 0 && st.1);
    let s4 = if opens > 0 {
        dc_push(s3, sat_sub(opens, closes), first_is_field, indent_of(line))
    } else {
        s3
    };
    let pending = if trimmed.len() > 0 {
        is_decl && opens == 0
    } else {
        st.1
    };
    (s4, pending, st.2 + popped.1 + seq![line], st.3 + popped.1.len())
}

/// The DataClassification scan over `lines`.
pub open spec fn dc_scan(lines: Seq<Seq<char>>, value: Seq<char>) -> DcState
    decreases lines.len(),
{
    if lines.len() == 0 {
        (Seq::empty(), false, Seq::empty(), 0)
    } else {
        dc_step(dc_scan(lines.drop_last(), value), lines.last(), value)
    }
}

pub open spec fn dc_frames(v: Seq<(bool, bool, bool, Vec<char>)>) -> Seq<DcFrame> {
    v.map_values(|f: (bool, bool, bool, Vec<char>)| (f.0, f.1, f.2, f.3@))
}

/// The text [`inject_data_classification`] returns: the scanned lines
/// joined again.
pub open spec fn dc_fixed(source: Seq<char>, value: Seq<char>) -> Seq<char> {
    rejoin(source, dc_scan(lines_of(source), value).2)
}

/// The number of lines [`inject_data_classification`] adds.
pub open spec fn dc_changes(source: Seq<char>, value: Seq<char>) -> nat {
    dc_scan(lines_of(source), value).3
}

/// Adds `DataClassification = <value>;` at the end of every table field
/// block that lacks it, skipping FlowFields and FlowFilters; returns the
/// new text and the number of lines added.
pub fn inject_data_classification(source: &str, value: &str) -> (r: (String, usize))
    ensures
        r.0@ == dc_fixed(source@, value@),
        r.1 == dc_changes(source@, value@),
{
    let src = chars_of(source);
    let val = chars_of(value);
    let lines = lines_vec(&src);
    let ghost ls = seqs_of(lines@);
    let mut out: Vec<Vec<char>> = Vec::new();
    let mut changes: usize = 0;
    let mut stack: Vec<(bool, bool, bool, Vec<char>)> = Vec::new();
    let mut pending = false;
    let mut i: usize = 0;
    while i < lines.len()
        invariant
            i <= lines@.len(),
            ls == seqs_of(lines@),
            ls == lines_of(src@),
            val@ == value@,
            changes <= out@.len(),
            ({
                let st = dc_scan(ls.take(i as int), val@);
                &&& dc_frames(stack@) == st.0
                &&& pending == st.1
                &&& seqs_of(out@) == st.2
                &&& changes == st.3
            }),
        decreases lines@.len() - i,
    {
        let line = &lines[i];
        assert(ls.take(i + 1).drop_last() =~= ls.take(i as int));
        assert(ls.take(i + 1).last() == line@);
        let ghost st0 = dc_scan(ls.take(i as int), val@);
        let (trimmed, lower, opens, closes) = line_facts(line);
        let is_decl = vec_starts_with(&lower, "field(");
        let inline_start = is_decl && opens > 0;
        let ghost popped = if closes > 0 && st0.0.len() > 0 {
            dc_pop(st0.0, sat_sub(closes as nat, opens as nat), val@)
        } else {
            (st0.0, Seq::<Seq<char>>::empty())
        };
        let ghost out0 = seqs_of(out@);
        if closes > 0 && stack.len() > 0 {
            let n = closes.saturating_sub(opens);
            let mut c: usize = 0;
            while c < n && stack.len() > 0
                invariant
                    c <= n,
                    changes <= out@.len(),
                    val@ == value@,
                    ({
                        let rest = dc_pop(dc_frames(stack@), (n - c) as nat, val@);
                        &&& rest.0 == popped.0
                        &&& out0 + popped.1 == seqs_of(out@) + rest.1
                        &&& changes + rest.1.len() == st0.3 + popped.1.len()
                    }),
                decreases n - c,
            {
                let ghost before = dc_frames(stack@);
                let ghost ob = seqs_of(out@);
                let top = stack.pop().unwrap();
                assert(dc_frames(stack@) =~= before.drop_last());
                if top.0 && !top.1 && !top.2 {
                    let mut l = top.3;
                    extend_all(&mut l, &chars_of("    DataClassification = "));
                    extend_all(&mut l, &val);
                    extend_all(&mut l, &chars_of(";"));
                    out.push(l);
                    assert(seqs_of(out@) =~= ob.push(l@));
                    let _n_out = out.len();
                    changes = changes + 1;
                }
                c = c + 1;
            }
            proof {
                let rest = dc_pop(dc_frames(stack@), (n - c) as nat, val@);
                assert(rest.1.len() == 0);
                assert(seqs_of(out@) + rest.1 =~= seqs_of(out@));
            }
        } else {
            assert(out0 + popped.1 =~= out0);
        }
        let ghost s1 = popped.0;
        let ghost ob2 = seqs_of(out@);
        out.push(crate::text::copy_range(line, 0, line.len()));
        assert(line@.subrange(0, line@.len() as int) =~= line@);
        assert(seqs_of(out@) =~= ob2.push(line@));
        if vec_contains(&lower, "dataclassification") && stack.len() > 0 {
            let (a, b, _, ind) = stack.pop().unwrap();
            stack.push((a, b, true, ind));
            assert(dc_frames(stack@) =~= s1.update(
                s1.len() - 1,
                (s1.last().0, s1.last().1, true, s1.last().3),
            ));
        }
        let ghost s2 = dc_frames(stack@);
        if vec_contains(&lower, "fieldclass") && (vec_contains(&lower, "flowfield") || vec_contains(
            &lower,
            "flowfilter",
        )) && stack.len() > 0 {
            let (a, _, c, ind) = stack.pop().unwrap();
            stack.push((a, true, c, ind));
            assert(dc_frames(stack@) =~= s2.update(
                s2.len() - 1,
                (s2.last().0, true, s2.last().2, s2.last().3),
            ));
        }
        let ghost s3 = dc_frames(stack@);
        let first_is_field = inline_start || (!is_decl && closes == 0 && pending);
        if opens > 0 {
            let n = opens.saturating_sub(closes);
            let ind = leading_ws_vec(line);
            let mut k: usize = 0;
            while k < n
                invariant
                    k <= n,
                    k == 0 ==> dc_frames(stack@) == s3,
                    k > 0 ==> dc_frames(stack@) == push_n(
                        s3.push((first_is_field, false, false, ind@)),
                        (k - 1) as nat,
                        (false, false, false, ind@),
                    ),
                decreases n - k,
            {
                let ghost sb = dc_frames(stack@);
                let f = k == 0 && first_is_field;
                stack.push((f, false, false, crate::text::copy_range(&ind, 0, ind.len())));
                assert(ind@.subrange(0, ind@.len() as int) =~= ind@);
                assert(dc_frames(stack@) =~= sb.push((f, false, false, ind@)));
                k = k + 1;
            }
        }
        if trimmed.len() > 0 {
            pending = is_decl && opens == 0;
        }
        proof {
            let st1 = dc_step(st0, line@, val@);
            assert(st1 == dc_scan(ls.take(i + 1), val@));
            assert(seqs_of(out@) =~= st1.2);
        }
        i = i + 1;
    }
    assert(ls.take(ls.len() as int) =~= ls);
    (rejoin_lines(&src, &out), changes)
}

/// Running [`inject_data_classification`] again on the text that it
/// returned gives that text back and reports no change, when the text has no `\r`, every
/// one of its lines holds at most one brace and the value is a plain
/// identifier.
pub proof fn lemma_inject_data_classification_twice(source: Seq<char>, value: Seq<char>)
    requires
        plain_value(value),
        count_char(source, '\r') == 0,
        forall|i: int| 0 <= i < lines_of(source).len() ==> one_brace(#[trigger] lines_of(source)[i]),
    ensures
        dc_fixed(dc_fixed(source, value), value) == dc_fixed(source, value),
        dc_changes(dc_fixed(source, value), value) == 0,
{
    reveal_strlit("\n");
    let ls = lines_of(source);
    let out = dc_scan(ls, value).2;
    let fixed = rejoin(source, out);
    lemma_lines_clean(source);
    lemma_dc_scan_clean(ls, value);
    lemma_data_classification_idempotent(ls, value);
    let tail = ends_with(source, "\n"@);
    if source.len() == 0 {
        assert(ls.len() == 0);
        assert(out.len() == 0);
        assert(fixed =~= Seq::<char>::empty());
        assert(lines_of(fixed).len() == 0);
    } else {
        if tail {
            assert(fixed == join_lines(out) + seq!['\n']);
            lemma_lines_of_join(out, true);
            assert(fixed.skip(fixed.len() - 1) =~= "\n"@);
        } else {
            assert(fixed == join_lines(out) + Seq::<char>::empty());
            lemma_lines_of_join(out, false);
            lemma_join_last(out);
            let l = out.last();
            assert(clean_line(out[out.len() - 1]));
            lemma_count_zero_no(l, '\n', l.len() - 1);
            if ends_with(fixed, "\n"@) {
                assert(fixed.skip(fixed.len() - 1)[0] == fixed.last());
            }
            assert(fixed =~= join_lines(out));
        }
        assert(lines_of(fixed) == out);
    }
}


// ---------------------------------------------------------------------------
// Per-file decisions of the project-wide fixes
// ---------------------------------------------------------------------------

impl BulkFixResult {
    /// An empty result.
    pub fn new(dry_run: bool) -> (r: Self)
        ensures
            r.modified_files@.len() == 0,
            r.changes_count == 0,
            r.dry_run == dry_run,
    {
        BulkFixResult { modified_files: Vec::new(), changes_count: 0, dry_run }
    }

    /// Records that `path` was (or would be) modified with `changes` changes.
    pub fn record(&mut self, path: String, changes: usize)
        requires
            old(self).changes_count + changes <= usize::MAX,
        ensures
            final(self).modified_files@ == old(self).modified_files@.push(path),
            final(self).changes_count == old(self).changes_count + changes,
            final(self).dry_run == old(self).dry_run,
    {
        self.modified_files.push(path);
        self.changes_count = self.changes_count + changes;
    }
}

/// The ApplicationArea fix of one file: the new text and the number of
/// changes, or `None` when the file is not page-like or needs no change.
pub fn fix_application_area(source: &str, value: &str) -> (r: Option<(String, usize)>)
    ensures
        r is None <==> !is_page_source(source@) || area_scan(lines_of(source@), value@).3 == 0,
        r matches Some(p) ==> p.0@ == rejoin(source@, area_scan(lines_of(source@), value@).2)
            && p.1 == area_scan(lines_of(source@), value@).3,
{
    if !is_page_file(source) {
        return None;
    }
    let (text, changes) = inject_application_area(source, value);
    if changes > 0 {
        Some((text, changes))
    } else {
        None
    }
}

/// The ToolTip fix of one file (see [`fix_application_area`]).
pub fn fix_tooltips(source: &str, tooltips: &[(String, String)]) -> (r: Option<(String, usize)>)
    ensures
        r is None <==> !is_page_source(source@) || tip_scan(
            lines_of(source@),
            tips_view(tooltips@),
        ).3 == 0,
        r matches Some(p) ==> p.0@ == rejoin(
            source@,
            tip_scan(lines_of(source@), tips_view(tooltips@)).2,
        ) && p.1 == tip_scan(lines_of(source@), tips_view(tooltips@)).3,
{
    if !is_page_file(source) {
        return None;
    }
    let (text, changes) = inject_tooltips(source, tooltips);
    if changes > 0 {
        Some((text, changes))
    } else {
        None
    }
}

/// The DataClassification fix of one file: only tables and table
/// extensions are touched.
pub fn fix_data_classification(source: &str, value: &str) -> (r: Option<(String, usize)>)
    ensures
        r is None <==> !is_table_source(source@) || dc_scan(lines_of(source@), value@).3 == 0,
        r matches Some(p) ==> p.0@ == rejoin(source@, dc_scan(lines_of(source@), value@).2)
            && p.1 == dc_scan(lines_of(source@), value@).3,
{
    if !is_table_file(source) {
        return None;
    }
    let (text, changes) = inject_data_classification(source, value);
    if changes > 0 {
        Some((text, changes))
    } else {
        None
    }
}

/// A directory the project walk descends into: not hidden, not `target`.
pub open spec fn walks_into(name: Seq<char>) -> bool {
    !starts_with(name, "."@) && name != "target"@
}

/// Whether the project walk descends into a directory named `name`.
pub fn descends_into(name: &str) -> (b: bool)
    ensures
        b == walks_into(name@),
{
    let v = chars_of(name);
    !vec_starts_with(&v, ".") && !crate::text::vec_eq(&v, &chars_of("target"))
}

/// Whether a file extension marks an AL source file (`al`, any ASCII case).
pub fn is_al_extension(ext: &str) -> (b: bool)
    ensures
        b == crate::text::eq_ignore_ascii_case(ext@, "al"@),
{
    crate::text::eq_ignore_case(&chars_of(ext), &chars_of("al"))
}

// ---------------------------------------------------------------------------
// A second DataClassification pass adds nothing
// ---------------------------------------------------------------------------

/// A value that is a plain identifier: ASCII letters and digits only.
pub open spec fn plain_value(v: Seq<char>) -> bool {
    forall|i: int| 0 <= i < v.len() ==> is_ascii_alnum(#[trigger] v[i])
}

/// A line holds at most one brace (`{` or `}`) once trimmed.
pub open spec fn one_brace(l: Seq<char>) -> bool {
    count_char(trim(l), '{') + count_char(trim(l), '}') <= 1
}

proof fn lemma_count_none(s: Seq<char>, c: char)
    requires
        forall|i: int| 0 <= i < s.len() ==> s[i] != c,
    ensures
        count_char(s, c) == 0,
    decreases s.len(),
{
    if s.len() > 0 {
        lemma_count_none(s.drop_last(), c);
    }
}

/// The trimmed text of an inserted `DataClassification` line.
spec fn dc_body(v: Seq<char>) -> Seq<char> {
    "DataClassification = "@ + v + ";"@
}

proof fn lemma_dc_line_facts(ind: Seq<char>, v: Seq<char>)
    requires
        forall|j: int| 0 <= j < ind.len() ==> is_ws(#[trigger] ind[j]),
        plain_value(v),
    ensures
        trim(dc_line(ind, v)) == dc_body(v),
        count_char(dc_body(v), '{') == 0,
        count_char(dc_body(v), '}') == 0,
        contains(ascii_lower_seq(dc_body(v)), "dataclassification"@),
        !starts_with(ascii_lower_seq(dc_body(v)), "field("@),
        dc_body(v).len() > 0,
{
    reveal_strlit("    DataClassification = ");
    reveal_strlit("DataClassification = ");
    reveal_strlit(";");
    reveal_strlit("dataclassification");
    reveal_strlit("field(");
    let l = dc_line(ind, v);
    let b = dc_body(v);
    let n: int = ind.len() as int + 4;
    assert(l =~= ind + seq![' ', ' ', ' ', ' '] + b);
    assert forall|j: int| 0 <= j < n implies is_ws(l[j]) by {
        if j < ind.len() {
            assert(l[j] == ind[j]);
        } else {
            assert(l[j] == ' ');
        }
    }
    assert(l[n] == 'D');
    lemma_lead_ws(l, n);
    assert(trim_start(l) =~= b);
    assert(b[b.len() - 1] == ';');
    lemma_trail_ws(b, 0);
    assert(trim_end(b) =~= b);
    assert forall|i: int| 0 <= i < b.len() implies b[i] != '{' && b[i] != '}' by {
        if 21 <= i < 21 + v.len() {
            assert(b[i] == v[i - 21]);
            assert(is_ascii_alnum(v[i - 21]));
        }
    }
    lemma_count_none(b, '{');
    lemma_count_none(b, '}');
    let lo = ascii_lower_seq(b);
    assert(lo.subrange(0, 18) =~= "dataclassification"@);
    assert(occurs_at(lo, "dataclassification"@, 0));
    assert(lo[0] == 'd');
    assert(lo.take(6)[0] == 'd');
    assert("field("@[0] == 'f');
    assert(lo.take(6) != "field("@);
}

spec fn all_ws(s: Seq<char>) -> bool {
    forall|j: int| 0 <= j < s.len() ==> is_ws(#[trigger] s[j])
}

spec fn ws_indents(st: Seq<DcFrame>) -> bool {
    forall|i: int| 0 <= i < st.len() ==> all_ws(#[trigger] st[i].3)
}

proof fn lemma_lead_ws_chars(s: Seq<char>)
    ensures
        lead_ws(s) <= s.len(),
        forall|j: int| 0 <= j < lead_ws(s) ==> is_ws(#[trigger] s[j]),
    decreases s.len(),
{
    if s.len() > 0 && is_ws(s[0]) {
        lemma_lead_ws_chars(s.drop_first());
        assert forall|j: int| 0 <= j < lead_ws(s) implies is_ws(#[trigger] s[j]) by {
            if j > 0 {
                assert(s[j] == s.drop_first()[j - 1]);
            }
        }
    }
}

proof fn lemma_dc_pop_prefix(stack: Seq<DcFrame>, n: nat, v: Seq<char>)
    ensures
        dc_pop(stack, n, v).0 == stack.take(stack.len() - (if n < stack.len() { n as int } else { stack.len() as int })),
        n >= 1 && stack.len() >= 1 ==> dc_pop(stack, n, v).1.len() <= n,
        n == 1 && stack.len() >= 1 ==> dc_pop(stack, n, v).0 == stack.drop_last() && dc_pop(stack, n, v).1
            == (if stack.last().0 && !stack.last().1 && !stack.last().2 {
            seq![dc_line(stack.last().3, v)]
        } else {
            Seq::<Seq<char>>::empty()
        }),
    decreases n,
{
    if n == 0 || stack.len() == 0 {
        assert(stack.take(stack.len() as int) =~= stack);
    } else {
        lemma_dc_pop_prefix(stack.drop_last(), (n - 1) as nat, v);
        assert(stack.drop_last().take(stack.drop_last().len() - (if ((n - 1) as nat) < stack.drop_last().len() { (n - 1) as int } else { stack.drop_last().len() as int }))
            =~= stack.take(stack.len() - (if n < stack.len() { n as int } else { stack.len() as int })));
        if n == 1 {
            assert(stack.drop_last().take(stack.drop_last().len() as int) =~= stack.drop_last());
        }
    }
}

proof fn lemma_push_n_ws(s: Seq<DcFrame>, n: nat, x: DcFrame)
    requires
        ws_indents(s),
        all_ws(x.3),
    ensures
        ws_indents(push_n(s, n, x)),
    decreases n,
{
    if n > 0 {
        lemma_push_n_ws(s, (n - 1) as nat, x);
        let p = push_n(s, (n - 1) as nat, x);
        assert forall|i: int| 0 <= i < p.push(x).len() implies all_ws(#[trigger] p.push(x)[i].3) by {
            if i < p.len() {
                assert(p.push(x)[i] == p[i]);
            }
        }
    }
}

proof fn lemma_dc_step_ws(st: DcState, line: Seq<char>, v: Seq<char>)
    requires
        ws_indents(st.0),
    ensures
        ws_indents(dc_step(st, line, v).0),
{
    let trimmed = trim(line);
    let opens = count_char(trimmed, '{');
    let closes = count_char(trimmed, '}');
    let popped = if closes > 0 && st.0.len() > 0 {
        dc_pop(st.0, sat_sub(closes, opens), v)
    } else {
        (st.0, Seq::empty())
    };
    lemma_dc_pop_prefix(st.0, sat_sub(closes, opens), v);
    let s1 = popped.0;
    assert(ws_indents(s1)) by {
        assert forall|i: int| 0 <= i < s1.len() implies all_ws(#[trigger] s1[i].3) by {
            assert(s1[i] == st.0[i]);
        }
    }
    let lower = ascii_lower_seq(trimmed);
    let s2 = if contains(lower, "dataclassification"@) && s1.len() > 0 {
        s1.update(s1.len() - 1, (s1.last().0, s1.last().1, true, s1.last().3))
    } else {
        s1
    };
    assert(ws_indents(s2)) by {
        assert forall|i: int| 0 <= i < s2.len() implies all_ws(#[trigger] s2[i].3) by {
            assert(s2[i].3 == s1[i].3);
        }
    }
    let s3 = if contains(lower, "fieldclass"@) && (contains(lower, "flowfield"@) || contains(
        lower,
        "flowfilter"@,
    )) && s2.len() > 0 {
        s2.update(s2.len() - 1, (s2.last().0, true, s2.last().2, s2.last().3))
    } else {
        s2
    };
    assert(ws_indents(s3)) by {
        assert forall|i: int| 0 <= i < s3.len() implies all_ws(#[trigger] s3[i].3) by {
            assert(s3[i].3 == s2[i].3);
        }
    }
    lemma_lead_ws_chars(line);
    let ind = indent_of(line);
    assert(all_ws(ind)) by {
        assert forall|j: int| 0 <= j < ind.len() implies is_ws(#[trigger] ind[j]) by {
            assert(ind[j] == line[j]);
        }
    }
    if opens > 0 && sat_sub(opens, closes) > 0 {
        let n = sat_sub(opens, closes);
        let is_decl = starts_with(lower, "field("@);
        let first_is_field = (is_decl && opens > 0) || (!is_decl && closes == 0 && st.1);
        let t = s3.push((first_is_field, false, false, ind));
        assert(ws_indents(t)) by {
            assert forall|i: int| 0 <= i < t.len() implies all_ws(#[trigger] t[i].3) by {
                if i < s3.len() {
                    assert(t[i] == s3[i]);
                }
            }
        }
        lemma_push_n_ws(t, (n - 1) as nat, (false, false, false, ind));
    }
}

proof fn lemma_dc_scan_push(x: Seq<Seq<char>>, y: Seq<char>, v: Seq<char>)
    ensures
        dc_scan(x.push(y), v) == dc_step(dc_scan(x, v), y, v),
{
    assert(x.push(y).drop_last() =~= x);
}

/// The part of the scan a line adds does not depend on the lines already
/// written or the changes already counted.
proof fn lemma_dc_step_frame(a: DcState, b: DcState, line: Seq<char>, v: Seq<char>)
    requires
        a.0 == b.0,
        a.1 == b.1,
    ensures
        dc_step(a, line, v).0 == dc_step(b, line, v).0,
        dc_step(a, line, v).1 == dc_step(b, line, v).1,
        dc_step(a, line, v).2.len() >= a.2.len(),
        dc_step(a, line, v).2.skip(a.2.len() as int) == dc_step(b, line, v).2.skip(b.2.len() as int),
        dc_step(a, line, v).2.take(a.2.len() as int) == a.2,
        dc_step(a, line, v).3 - a.3 == dc_step(b, line, v).3 - b.3,
        dc_step(a, line, v).3 - a.3 == dc_step(a, line, v).2.len() - a.2.len() - 1,
{
    let ra = dc_step(a, line, v);
    let rb = dc_step(b, line, v);
    assert(ra.2.skip(a.2.len() as int) =~= rb.2.skip(b.2.len() as int));
    assert(ra.2.take(a.2.len() as int) =~= a.2);
}

/// Rescanning what the scan of the first `k` lines wrote gives the same
/// blocks, the same pending flag, the same lines, and no change.
proof fn lemma_dc_rescan(ls: Seq<Seq<char>>, v: Seq<char>, k: int)
    requires
        plain_value(v),
        forall|i: int| 0 <= i < ls.len() ==> one_brace(#[trigger] ls[i]),
        0 <= k <= ls.len(),
    ensures
        ws_indents(dc_scan(ls.take(k), v).0),
        dc_scan(dc_scan(ls.take(k), v).2, v).0 == dc_scan(ls.take(k), v).0,
        dc_scan(dc_scan(ls.take(k), v).2, v).1 == dc_scan(ls.take(k), v).1,
        dc_scan(dc_scan(ls.take(k), v).2, v).2 == dc_scan(ls.take(k), v).2,
        dc_scan(dc_scan(ls.take(k), v).2, v).3 == 0,
    decreases k,
{
    if k == 0 {
        assert(ls.take(0) =~= Seq::<Seq<char>>::empty());
        assert(dc_scan(Seq::<Seq<char>>::empty(), v).2 =~= Seq::<Seq<char>>::empty());
    } else {
        lemma_dc_rescan(ls, v, k - 1);
        let prev = ls.take(k - 1);
        assert(ls.take(k) =~= prev.push(ls[k - 1]));
        let line = ls[k - 1];
        assert(one_brace(line));
        lemma_dc_scan_push(prev, line, v);
        let s0 = dc_scan(prev, v);
        let s1 = dc_step(s0, line, v);
        let r0 = dc_scan(s0.2, v);
        lemma_dc_step_ws(s0, line, v);
        let trimmed = trim(line);
        let opens = count_char(trimmed, '{');
        let closes = count_char(trimmed, '}');
        lemma_dc_pop_prefix(s0.0, sat_sub(closes, opens), v);
        let inserts = closes > 0 && s0.0.len() > 0 && s0.0.last().0 && !s0.0.last().1 && !s0.0.last().2;
        if !inserts {
            // Nothing was inserted before `line`.
            assert(s1.2 =~= s0.2.push(line));
            lemma_dc_scan_push(s0.2, line, v);
            lemma_dc_step_frame(r0, s0, line, v);
            assert(dc_step(r0, line, v).2 =~= s1.2);
        } else {
            let top = s0.0.last();
            let l_ins = dc_line(top.3, v);
            assert(closes == 1 && opens == 0);
            assert(s1.2 =~= s0.2.push(l_ins).push(line));
            assert(all_ws(top.3));
            lemma_dc_line_facts(top.3, v);
            lemma_dc_scan_push(s0.2, l_ins, v);
            let m = dc_step(r0, l_ins, v);
            assert(count_char(trim(l_ins), '{') == 0);
            assert(count_char(trim(l_ins), '}') == 0);
            assert(m.0.len() == s0.0.len());
            assert(m.0.drop_last() =~= s0.0.drop_last());
            assert(m.0.last().2);
            assert(!m.1);
            assert(m.2 =~= s0.2.push(l_ins));
            assert(m.3 == 0);
            lemma_dc_scan_push(s0.2.push(l_ins), line, v);
            lemma_dc_pop_prefix(m.0, 1, v);
            assert(trimmed.len() > 0);
            let r1 = dc_step(m, line, v);
            assert(r1.0 == s1.0);
            assert(r1.1 == s1.1);
            assert(r1.2 =~= s1.2);
            assert(r1.3 == 0);
        }
    }
}

/// A second DataClassification pass over the lines the first one wrote
/// adds nothing, when every line holds at most one brace and the value is
/// a plain identifier.
pub proof fn lemma_data_classification_idempotent(lines: Seq<Seq<char>>, value: Seq<char>)
    requires
        plain_value(value),
        forall|i: int| 0 <= i < lines.len() ==> one_brace(#[trigger] lines[i]),
    ensures
        dc_scan(dc_scan(lines, value).2, value).2 == dc_scan(lines, value).2,
        dc_scan(dc_scan(lines, value).2, value).3 == 0,
{
    lemma_dc_rescan(lines, value, lines.len() as int);
    assert(lines.take(lines.len() as int) =~= lines);
}

/// A line that `str::lines` gives back as it is: no `\n` and no `\r`.
spec fn clean_line(l: Seq<char>) -> bool {
    count_char(l, '\n') == 0 && count_char(l, '\r') == 0
}

proof fn lemma_count_zero_no(s: Seq<char>, c: char, j: int)
    requires
        count_char(s, c) == 0,
        0 <= j < s.len(),
    ensures
        s[j] != c,
    decreases s.len(),
{
    if j < s.len() - 1 {
        lemma_count_zero_no(s.drop_last(), c, j);
    }
}

proof fn lemma_count_concat(a: Seq<char>, b: Seq<char>, c: char)
    ensures
        count_char(a + b, c) == count_char(a, c) + count_char(b, c),
    decreases b.len(),
{
    if b.len() == 0 {
        assert(a + b =~= a);
    } else {
        lemma_count_concat(a, b.drop_last(), c);
        assert((a + b).drop_last() =~= a + b.drop_last());
    }
}

proof fn lemma_join_front(ls: Seq<Seq<char>>)
    requires
        ls.len() >= 2,
    ensures
        join_lines(ls) == ls[0] + seq!['\n'] + join_lines(ls.drop_first()),
    decreases ls.len(),
{
    if ls.len() == 2 {
        assert(ls.drop_first() =~= seq![ls[1]]);
        assert(ls.drop_last() =~= seq![ls[0]]);
        assert(join_lines(seq![ls[0]]) == ls[0]);
        assert(join_lines(seq![ls[1]]) == ls[1]);
    } else {
        let d = ls.drop_last();
        let f = ls.drop_first();
        lemma_join_front(d);
        assert(d.drop_first() =~= f.drop_last());
        assert(f.last() == ls.last());
        assert(d[0] == ls[0]);
        assert(join_lines(f) == join_lines(f.drop_last()) + seq!['\n'] + f.last());
        assert(join_lines(ls) == join_lines(d) + seq!['\n'] + ls.last());
        assert(join_lines(ls) =~= ls[0] + seq!['\n'] + join_lines(f));
    }
}

/// Splitting joined clean lines gives them back: with a final `\n` always,
/// without one when the last line is not empty.
proof fn lemma_lines_of_join(ls: Seq<Seq<char>>, tail: bool)
    requires
        ls.len() > 0,
        forall|i: int| 0 <= i < ls.len() ==> clean_line(#[trigger] ls[i]),
        !tail ==> ls.last().len() > 0,
    ensures
        lines_of(join_lines(ls) + (if tail { seq!['\n'] } else { Seq::<char>::empty() })) == ls,
    decreases ls.len(),
{
    let t = if tail { seq!['\n'] } else { Seq::<char>::empty() };
    let l0 = ls[0];
    assert(clean_line(l0));
    assert forall|j: int| 0 <= j < l0.len() implies l0[j] != '\n' by {
        lemma_count_zero_no(l0, '\n', j);
    }
    if ls.len() == 1 {
        let s = l0 + t;
        assert(join_lines(ls) == l0);
        if tail {
            lemma_index_of_char(s, '\n', l0.len() as int);
            assert(s.take(l0.len() as int) =~= l0);
            assert(s.skip(l0.len() as int + 1) =~= Seq::<char>::empty());
            if l0.len() > 0 {
                lemma_count_zero_no(l0, '\r', l0.len() - 1);
            }
            assert(strip_cr(l0) == l0);
            assert(lines_of(Seq::<char>::empty()) == Seq::<Seq<char>>::empty());
            assert(s.len() > 0);
            assert(lines_of(s) == seq![strip_cr(s.take(l0.len() as int))] + lines_of(s.skip(l0.len() as int + 1)));
            assert(lines_of(s) =~= seq![l0]);
        } else {
            assert(s =~= l0);
            assert(ls.last() == l0);
            assert forall|j: int| 0 <= j < s.len() implies s[j] != '\n' by {
                assert(s[j] == l0[j]);
            }
            lemma_index_of_char(s, '\n', s.len() as int);
            assert(s.len() > 0);
            assert(lines_of(s) == seq![s]);
            assert(lines_of(s) =~= seq![l0]);
        }
        assert(ls =~= seq![l0]);
    } else {
        lemma_join_front(ls);
        let rest = ls.drop_first();
        let s = join_lines(ls) + t;
        assert(s =~= l0 + (seq!['\n'] + (join_lines(rest) + t)));
        lemma_index_of_char(s, '\n', l0.len() as int);
        assert(s.take(l0.len() as int) =~= l0);
        assert(s.skip(l0.len() as int + 1) =~= join_lines(rest) + t);
        if l0.len() > 0 {
            lemma_count_zero_no(l0, '\r', l0.len() - 1);
        }
        assert(strip_cr(l0) == l0);
        assert forall|i: int| 0 <= i < rest.len() implies clean_line(#[trigger] rest[i]) by {
            assert(rest[i] == ls[i + 1]);
        }
        lemma_lines_of_join(rest, tail);
        assert(ls =~= seq![l0] + rest);
    }
}

proof fn lemma_prefix_count_zero(l: Seq<char>, k: int, c: char)
    requires
        0 <= k <= l.len(),
        count_char(l, c) == 0,
    ensures
        count_char(l.take(k), c) == 0,
{
    lemma_count_concat(l.take(k), l.skip(k), c);
    assert(l.take(k) + l.skip(k) =~= l);
}

spec fn clean_indents(st: Seq<DcFrame>) -> bool {
    forall|i: int| 0 <= i < st.len() ==> clean_line(#[trigger] st[i].3)
}

proof fn lemma_push_n_clean(s: Seq<DcFrame>, n: nat, x: DcFrame)
    requires
        clean_indents(s),
        clean_line(x.3),
    ensures
        clean_indents(push_n(s, n, x)),
    decreases n,
{
    if n > 0 {
        lemma_push_n_clean(s, (n - 1) as nat, x);
        let p = push_n(s, (n - 1) as nat, x);
        assert forall|i: int| 0 <= i < p.push(x).len() implies clean_line(#[trigger] p.push(x)[i].3) by {
            if i < p.len() {
                assert(p.push(x)[i] == p[i]);
            }
        }
    }
}

/// The scan of clean lines keeps clean indentations and writes clean lines.
proof fn lemma_dc_step_clean(st: DcState, line: Seq<char>, v: Seq<char>)
    requires
        clean_indents(st.0),
        clean_line(line),
        plain_value(v),
    ensures
        clean_indents(dc_step(st, line, v).0),
        dc_step(st, line, v).2.len() > st.2.len(),
        dc_step(st, line, v).2.last() == line,
        forall|j: int|
            st.2.len() <= j < dc_step(st, line, v).2.len() ==> clean_line(#[trigger] dc_step(st, line, v).2[j]),
        dc_step(st, line, v).2.take(st.2.len() as int) == st.2,
{
    let trimmed = trim(line);
    let opens = count_char(trimmed, '{');
    let closes = count_char(trimmed, '}');
    let popped = if closes > 0 && st.0.len() > 0 {
        dc_pop(st.0, sat_sub(closes, opens), v)
    } else {
        (st.0, Seq::empty())
    };
    lemma_dc_pop_clean(st.0, sat_sub(closes, opens), v);
    let s1 = popped.0;
    let lower = ascii_lower_seq(trimmed);
    let s2 = if contains(lower, "dataclassification"@) && s1.len() > 0 {
        s1.update(s1.len() - 1, (s1.last().0, s1.last().1, true, s1.last().3))
    } else {
        s1
    };
    assert(clean_indents(s2)) by {
        assert forall|i: int| 0 <= i < s2.len() implies clean_line(#[trigger] s2[i].3) by {
            assert(s2[i].3 == s1[i].3);
        }
    }
    let s3 = if contains(lower, "fieldclass"@) && (contains(lower, "flowfield"@) || contains(
        lower,
        "flowfilter"@,
    )) && s2.len() > 0 {
        s2.update(s2.len() - 1, (s2.last().0, true, s2.last().2, s2.last().3))
    } else {
        s2
    };
    assert(clean_indents(s3)) by {
        assert forall|i: int| 0 <= i < s3.len() implies clean_line(#[trigger] s3[i].3) by {
            assert(s3[i].3 == s2[i].3);
        }
    }
    lemma_lead_ws_chars(line);
    let ind = indent_of(line);
    lemma_prefix_count_zero(line, lead_ws(line) as int, '\n');
    lemma_prefix_count_zero(line, lead_ws(line) as int, '\r');
    assert(clean_line(ind));
    if opens > 0 && sat_sub(opens, closes) > 0 {
        let n = sat_sub(opens, closes);
        let is_decl = starts_with(lower, "field("@);
        let first_is_field = (is_decl && opens > 0) || (!is_decl && closes == 0 && st.1);
        let t = s3.push((first_is_field, false, false, ind));
        assert(clean_indents(t)) by {
            assert forall|i: int| 0 <= i < t.len() implies clean_line(#[trigger] t[i].3) by {
                if i < s3.len() {
                    assert(t[i] == s3[i]);
                }
            }
        }
        lemma_push_n_clean(t, (n - 1) as nat, (false, false, false, ind));
    }
    let r = dc_step(st, line, v);
    assert(r.2 =~= st.2 + popped.1 + seq![line]);
    assert(r.2.take(st.2.len() as int) =~= st.2);
    assert forall|j: int| st.2.len() <= j < r.2.len() implies clean_line(#[trigger] r.2[j]) by {
        if j < st.2.len() + popped.1.len() {
            assert(r.2[j] == popped.1[j - st.2.len()]);
        } else {
            assert(r.2[j] == line);
        }
    }
}

proof fn lemma_dc_line_clean(ind: Seq<char>, v: Seq<char>)
    requires
        clean_line(ind),
        plain_value(v),
    ensures
        clean_line(dc_line(ind, v)),
{
    reveal_strlit("    DataClassification = ");
    reveal_strlit(";");
    let lit = "    DataClassification = "@;
    assert forall|i: int| 0 <= i < lit.len() implies lit[i] != '\n' && lit[i] != '\r' by {}
    lemma_count_none(lit, '\n');
    lemma_count_none(lit, '\r');
    assert forall|i: int| 0 <= i < v.len() implies v[i] != '\n' && v[i] != '\r' by {
        assert(is_ascii_alnum(v[i]));
    }
    lemma_count_none(v, '\n');
    lemma_count_none(v, '\r');
    lemma_count_none(";"@, '\n');
    lemma_count_none(";"@, '\r');
    lemma_count_concat(ind, lit, '\n');
    lemma_count_concat(ind, lit, '\r');
    lemma_count_concat(ind + lit, v, '\n');
    lemma_count_concat(ind + lit, v, '\r');
    lemma_count_concat(ind + lit + v, ";"@, '\n');
    lemma_count_concat(ind + lit + v, ";"@, '\r');
}

proof fn lemma_dc_pop_clean(stack: Seq<DcFrame>, n: nat, v: Seq<char>)
    requires
        clean_indents(stack),
        plain_value(v),
    ensures
        clean_indents(dc_pop(stack, n, v).0),
        forall|j: int| 0 <= j < dc_pop(stack, n, v).1.len() ==> clean_line(#[trigger] dc_pop(stack, n, v).1[j]),
    decreases n,
{
    if n > 0 && stack.len() > 0 {
        let d = stack.drop_last();
        assert(clean_indents(d)) by {
            assert forall|i: int| 0 <= i < d.len() implies clean_line(#[trigger] d[i].3) by {
                assert(d[i] == stack[i]);
            }
        }
        lemma_dc_pop_clean(d, (n - 1) as nat, v);
        let top = stack.last();
        assert(clean_line(stack[stack.len() - 1].3));
        lemma_dc_line_clean(top.3, v);
        let rest = dc_pop(d, (n - 1) as nat, v);
        let head: Seq<Seq<char>> = if top.0 && !top.1 && !top.2 {
            seq![dc_line(top.3, v)]
        } else {
            Seq::empty()
        };
        assert forall|j: int| 0 <= j < (head + rest.1).len() implies clean_line(#[trigger] (head + rest.1)[j]) by {
            if j < head.len() {
                assert((head + rest.1)[j] == head[j]);
            } else {
                assert((head + rest.1)[j] == rest.1[j - head.len()]);
            }
        }
    }
}

/// The scan of clean lines writes clean lines, ending with the last input
/// line.
proof fn lemma_dc_scan_clean(ls: Seq<Seq<char>>, v: Seq<char>)
    requires
        forall|i: int| 0 <= i < ls.len() ==> clean_line(#[trigger] ls[i]),
        plain_value(v),
    ensures
        clean_indents(dc_scan(ls, v).0),
        forall|j: int| 0 <= j < dc_scan(ls, v).2.len() ==> clean_line(#[trigger] dc_scan(ls, v).2[j]),
        ls.len() > 0 ==> dc_scan(ls, v).2.len() > 0 && dc_scan(ls, v).2.last() == ls.last(),
        ls.len() == 0 ==> dc_scan(ls, v).2.len() == 0,
    decreases ls.len(),
{
    if ls.len() > 0 {
        let d = ls.drop_last();
        assert forall|i: int| 0 <= i < d.len() implies clean_line(#[trigger] d[i]) by {
            assert(d[i] == ls[i]);
        }
        lemma_dc_scan_clean(d, v);
        let st = dc_scan(d, v);
        assert(clean_line(ls[ls.len() - 1]));
        lemma_dc_step_clean(st, ls.last(), v);
        let r = dc_step(st, ls.last(), v);
        assert forall|j: int| 0 <= j < r.2.len() implies clean_line(#[trigger] r.2[j]) by {
            if j < st.2.len() {
                assert(r.2[j] == r.2.take(st.2.len() as int)[j]);
                assert(r.2[j] == st.2[j]);
            }
        }
    }
}


proof fn lemma_index_props(s: Seq<char>, c: char)
    ensures
        index_of_char(s, c) <= s.len(),
        forall|j: int| 0 <= j < index_of_char(s, c) ==> s[j] != c,
        index_of_char(s, c) < s.len() ==> s[index_of_char(s, c) as int] == c,
    decreases s.len(),
{
    if s.len() > 0 && s[0] != c {
        let t = s.drop_first();
        lemma_index_props(t, c);
        assert forall|j: int| 0 <= j < index_of_char(s, c) implies s[j] != c by {
            if j > 0 {
                assert(s[j] == t[j - 1]);
            }
        }
    }
}

/// The lines of a text without `\r` are clean; a text that does not end
/// with `\n` ends with a line that is not empty.
proof fn lemma_lines_clean(s: Seq<char>)
    requires
        count_char(s, '\r') == 0,
    ensures
        forall|i: int| 0 <= i < lines_of(s).len() ==> clean_line(#[trigger] lines_of(s)[i]),
        s.len() > 0 ==> lines_of(s).len() > 0,
        s.len() > 0 && !ends_with(s, "\n"@) ==> lines_of(s).last().len() > 0,
    decreases s.len(),
{
    reveal_strlit("\n");
    if s.len() > 0 {
        let i = index_of_char(s, '\n');
        lemma_index_props(s, '\n');
        if i < s.len() {
            let head = s.take(i as int);
            let rest = s.skip(i as int + 1);
            lemma_prefix_count_zero(s, i as int, '\r');
            lemma_count_none(head, '\n');
            if head.len() > 0 {
                lemma_count_zero_no(head, '\r', head.len() - 1);
            }
            assert(strip_cr(head) == head);
            lemma_count_concat(s.take(i as int + 1), rest, '\r');
            assert(s.take(i as int + 1) + rest =~= s);
            lemma_lines_clean(rest);
            let ls = lines_of(s);
            assert(ls == seq![head] + lines_of(rest));
            assert forall|k: int| 0 <= k < ls.len() implies clean_line(#[trigger] ls[k]) by {
                if k > 0 {
                    assert(ls[k] == lines_of(rest)[k - 1]);
                }
            }
            if !ends_with(s, "\n"@) {
                if rest.len() == 0 {
                    assert(i == s.len() - 1);
                    assert(s.skip(s.len() - 1) =~= "\n"@);
                }
                if !ends_with(rest, "\n"@) {
                    assert(ls.last() == lines_of(rest).last());
                } else {
                    assert(rest.skip(rest.len() - 1) =~= s.skip(s.len() - 1));
                }
            }
        } else {
            lemma_count_none(s, '\n');
        }
    }
}

proof fn lemma_join_last(ls: Seq<Seq<char>>)
    requires
        ls.len() > 0,
        ls.last().len() > 0,
    ensures
        join_lines(ls).len() > 0,
        join_lines(ls).last() == ls.last().last(),
{
    if ls.len() >= 2 {
        let j = join_lines(ls.drop_last()) + seq!['\n'] + ls.last();
        assert(join_lines(ls) == j);
        assert(j.last() == ls.last().last());
    }
}


} // verus!
