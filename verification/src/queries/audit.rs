//! Audits: the DataClassification of table fields, and which objects the
//! workspace's permission sets cover.

use vstd::prelude::*;

use super::ObjectFile;
use crate::text::{
    chars_of, contains, contains_vec, copy_range, count_char, count_char_in, find, find_any,
    find_char_in, index_of_any, index_of_char, lemma_first_index, first_index, lines_of,
    lines_vec, lower_vec, lowercase, opt_view, push_str, seqs_of, skip_any, skip_any_vec,
    starts_with, string_of, strs, trim, trim_vec, vec_contains, vec_eq, vec_starts_with,
};

verus! {

// ---------------------------------------------------------------------------
// GDPR risk
// ---------------------------------------------------------------------------

/// The GDPR risk level of a DataClassification value.
#[derive(Debug, Clone, PartialEq, Eq, Structural)]
pub enum GdprRisk {
    /// No classification set: unknown risk.
    Unclassified,
    /// Personal data (EndUserId, CustomerContent, EUII, ...).
    Personal,
    /// Organizational data.
    OrganizationIdentifiableInformation,
    SystemMetadata,
    /// Explicitly no personal data.
    NoPersonalData,
}

/// The risk of a lowercased DataClassification value.
pub open spec fn risk_of_lower(l: Seq<char>) -> GdprRisk {
    if l == "(none)"@ || l.len() == 0 {
        GdprRisk::Unclassified
    } else if l == "enduserpseudonymousidentifiers"@ || l == "eupi"@ || l
        == "enduseridentifiableinformation"@ || l == "euii"@ || l == "customercontent"@ {
        GdprRisk::Personal
    } else if l == "tobeclassified"@ {
        GdprRisk::Personal
    } else if l == "organizationidentifiableinformation"@ {
        GdprRisk::OrganizationIdentifiableInformation
    } else if l == "systemmetadata"@ {
        GdprRisk::SystemMetadata
    } else if l == "none"@ || l == "accountdata"@ {
        GdprRisk::NoPersonalData
    } else if contains(l, "personal"@) || contains(l, "customer"@) {
        GdprRisk::Personal
    } else {
        GdprRisk::Unclassified
    }
}

/// The standard DataClassification values, in any case, have fixed risks:
/// EndUserIdentifiableInformation, EUII, EndUserPseudonymousIdentifiers,
/// EUPI, CustomerContent and ToBeClassified are personal data;
/// OrganizationIdentifiableInformation and SystemMetadata are their own
/// levels; AccountData and None carry no personal data; an empty value and
/// `(none)` are unclassified; any other value is personal data when it
/// mentions `personal` or `customer`, and unclassified otherwise.
pub proof fn lemma_standard_classifications(classification: Seq<char>)
    ensures
        ({
            let l = lowercase(classification);
            &&& (l == "enduseridentifiableinformation"@ || l == "euii"@ || l == "enduserpseudonymousidentifiers"@
                || l == "eupi"@ || l == "customercontent"@ || l == "tobeclassified"@) ==> risk_of_lower(l)
                == GdprRisk::Personal
            &&& l == "organizationidentifiableinformation"@ ==> risk_of_lower(l)
                == GdprRisk::OrganizationIdentifiableInformation
            &&& l == "systemmetadata"@ ==> risk_of_lower(l) == GdprRisk::SystemMetadata
            &&& (l == "accountdata"@ || l == "none"@) ==> risk_of_lower(l) == GdprRisk::NoPersonalData
            &&& (l.len() == 0 || l == "(none)"@) ==> risk_of_lower(l) == GdprRisk::Unclassified
            &&& !(l == "enduseridentifiableinformation"@ || l == "euii"@ || l == "enduserpseudonymousidentifiers"@
                || l == "eupi"@ || l == "customercontent"@ || l == "tobeclassified"@
                || l == "organizationidentifiableinformation"@ || l == "systemmetadata"@ || l == "accountdata"@
                || l == "none"@) && !contains(l, "personal"@) && !contains(l, "customer"@) ==> risk_of_lower(l)
                == GdprRisk::Unclassified
            &&& !(l == "organizationidentifiableinformation"@ || l == "systemmetadata"@ || l == "accountdata"@
                || l == "none"@ || l == "(none)"@) && (contains(l, "personal"@) || contains(l, "customer"@))
                ==> risk_of_lower(l) == GdprRisk::Personal
        }),
{
    reveal_strlit("(none)");
    reveal_strlit("enduseridentifiableinformation");
    reveal_strlit("euii");
    reveal_strlit("enduserpseudonymousidentifiers");
    reveal_strlit("eupi");
    reveal_strlit("customercontent");
    reveal_strlit("tobeclassified");
    reveal_strlit("organizationidentifiableinformation");
    reveal_strlit("systemmetadata");
    reveal_strlit("accountdata");
    reveal_strlit("none");
    assert("euii"@[0] != "none"@[0]);
    assert("eupi"@[0] != "none"@[0]);
    assert("euii"@[2] != "eupi"@[2]);
    assert("enduseridentifiableinformation"@[7] != "enduserpseudonymousidentifiers"@[7]);
    assert("tobeclassified"@[0] != "systemmetadata"@[0]);
    assert("(none)"@[0] != "accountdata"@[0]);
    reveal_strlit("personal");
    reveal_strlit("customer");
    let l = lowercase(classification);
    if contains(l, "personal"@) || contains(l, "customer"@) {
        assert(l.len() > 0) by {
            if contains(l, "personal"@) {
                let i = choose|i: int| crate::text::occurs_at(l, "personal"@, i);
            } else {
                let i = choose|i: int| crate::text::occurs_at(l, "customer"@, i);
            }
        }
    }
}

fn is_word(l: &Vec<char>, w: &str) -> (b: bool)
    ensures
        b == (l@ == w@),
{
    vec_eq(l, &chars_of(w))
}

/// The GDPR risk of a DataClassification value, compared case-insensitively.
pub fn classify_gdpr_risk(classification: &str) -> (r: GdprRisk)
    ensures
        r == risk_of_lower(lowercase(classification@)),
{
    let l = lower_vec(&chars_of(classification));
    if is_word(&l, "(none)") || l.len() == 0 {
        GdprRisk::Unclassified
    } else if is_word(&l, "enduserpseudonymousidentifiers") || is_word(&l, "eupi") || is_word(
        &l,
        "enduseridentifiableinformation",
    ) || is_word(&l, "euii") || is_word(&l, "customercontent") {
        GdprRisk::Personal
    } else if is_word(&l, "tobeclassified") {
        GdprRisk::Personal
    } else if is_word(&l, "organizationidentifiableinformation") {
        GdprRisk::OrganizationIdentifiableInformation
    } else if is_word(&l, "systemmetadata") {
        GdprRisk::SystemMetadata
    } else if is_word(&l, "none") || is_word(&l, "accountdata") {
        GdprRisk::NoPersonalData
    } else if contains_vec(&l, &chars_of("personal")) || contains_vec(&l, &chars_of("customer")) {
        GdprRisk::Personal
    } else {
        GdprRisk::Unclassified
    }
}

// ---------------------------------------------------------------------------
// Field declarations and properties
// ---------------------------------------------------------------------------

/// What follows `field(` or `field (` at the start of a line.
pub open spec fn field_rest(line: Seq<char>) -> Option<Seq<char>> {
    if starts_with(line, "field("@) {
        Some(line.skip("field("@.len() as int))
    } else if starts_with(line, "field ("@) {
        Some(line.skip("field ("@.len() as int))
    } else {
        None
    }
}

/// The name a `field(id; Name; Type)` line declares: after the first `;`,
/// trimmed, either the text inside a leading pair of `"` or the text up to
/// the next `;` or `)`, trimmed; empty when the line declares no field.
pub open spec fn field_name_of(line: Seq<char>) -> Seq<char> {
    match field_rest(line) {
        None => seq![],
        Some(rest) => {
            let i = index_of_char(rest, ';');
            if i >= rest.len() {
                seq![]
            } else {
                let after = trim(rest.skip(i + 1 as int));
                let q = after.skip(1);
                if after.len() > 0 && after[0] == '"' && index_of_char(q, '"') < q.len() {
                    q.take(index_of_char(q, '"') as int)
                } else {
                    trim(after.take(index_of_any(after, seq![';', ')']) as int))
                }
            }
        },
    }
}

/// The field name declared on a `field(id; "Name"; Type)` line, or an empty
/// string.
pub fn extract_field_name_from_line(line: &str) -> (r: String)
    ensures
        r@ == field_name_of(line@),
{
    let v = chars_of(line);
    let rest = if vec_starts_with(&v, "field(") {
        proof {
            reveal_strlit("field(");
        }
        copy_range(&v, 6, v.len())
    } else if vec_starts_with(&v, "field (") {
        proof {
            reveal_strlit("field (");
        }
        copy_range(&v, 7, v.len())
    } else {
        return String::new();
    };
    assert(field_rest(v@) == Some(rest@));
    let i = find_char_in(&rest, ';', 0, rest.len());
    assert(rest@.subrange(0, rest@.len() as int) =~= rest@);
    if i == rest.len() {
        return String::new();
    }
    let after = trim_vec(&copy_range(&rest, i + 1, rest.len()));
    assert(rest@.subrange(i + 1, rest@.len() as int) =~= rest@.skip(i + 1));
    if after.len() > 0 && after[0] == '"' {
        let q = copy_range(&after, 1, after.len());
        assert(q@ =~= after@.skip(1));
        let e = find_char_in(&q, '"', 0, q.len());
        assert(q@.subrange(0, q@.len() as int) =~= q@);
        if e < q.len() {
            let r = copy_range(&q, 0, e);
            assert(r@ =~= q@.take(e as int));
            return string_of(&r);
        }
    }
    let stops: Vec<char> = vec![';', ')'];
    assert(stops@ =~= seq![';', ')']);
    let e = find_any(&after, &stops);
    let r = trim_vec(&copy_range(&after, 0, e));
    assert(after@.subrange(0, e as int) =~= after@.take(e as int));
    string_of(&r)
}

/// The value of property `prop` on a line: the name is found in the
/// lowercased line (first occurrence of the lowercased name); after it,
/// leading ` `, `=` and `:` and then leading quotes are skipped; the value
/// runs to the next quote, `;`, line break or space (at most 100 characters
/// when there is none), trimmed; none when the name is absent or the value
/// empty.  Positions are counted in characters.
pub open spec fn property_value_of(line: Seq<char>, prop: Seq<char>) -> Option<Seq<char>> {
    let lower = lowercase(line);
    let pl = lowercase(prop);
    if !contains(lower, pl) {
        None
    } else {
        let k = first_index(lower, pl) + pl.len();
        let a0 = if k <= line.len() {
            line.skip(k)
        } else {
            seq![]
        };
        let a = skip_any(skip_any(a0, seq![' ', '=', ':']), seq!['"', '\'']);
        let e = index_of_any(a, seq!['"', '\'', ';', '\n', ' ']);
        let end: int = if e < a.len() {
            e as int
        } else if a.len() < 100 {
            a.len() as int
        } else {
            100
        };
        let v = trim(a.take(end));
        if v.len() == 0 {
            None
        } else {
            Some(v)
        }
    }
}

/// The value that a line gives to property `prop` (`prop = Value;`).
pub fn extract_property_value_from_line(line: &str, prop: &str) -> (r: Option<String>)
    ensures
        match property_value_of(line@, prop@) {
            Some(v) => r matches Some(s) && s@ == v,
            None => r is None,
        },
{
    let lv = chars_of(line);
    let lower = lower_vec(&lv);
    let pl = lower_vec(&chars_of(prop));
    let pos = match find(&lower, &pl) {
        Some(p) => p,
        None => {
            return None;
        },
    };
    proof {
        lemma_first_index(lower@, pl@, pos as int);
    }
    let a0 = if pos <= lv.len() && pl.len() <= lv.len() - pos {
        let a = copy_range(&lv, pos + pl.len(), lv.len());
        assert(a@ =~= lv@.skip(pos + pl@.len()));
        a
    } else {
        Vec::new()
    };
    let set1: Vec<char> = vec![' ', '=', ':'];
    let set2: Vec<char> = vec!['"', '\''];
    let set3: Vec<char> = vec!['"', '\'', ';', '\n', ' '];
    assert(set1@ =~= seq![' ', '=', ':']);
    assert(set2@ =~= seq!['"', '\'']);
    assert(set3@ =~= seq!['"', '\'', ';', '\n', ' ']);
    let a = skip_any_vec(&skip_any_vec(&a0, &set1), &set2);
    let e = find_any(&a, &set3);
    let end = if e < a.len() {
        e
    } else if a.len() < 100 {
        a.len()
    } else {
        100
    };
    let v = trim_vec(&copy_range(&a, 0, end));
    assert(a@.subrange(0, end as int) =~= a@.take(end as int));
    if v.len() == 0 {
        None
    } else {
        Some(string_of(&v))
    }
}

// ---------------------------------------------------------------------------
// DataClassification audit
// ---------------------------------------------------------------------------

/// A table field and its DataClassification.
#[derive(Debug, Clone)]
pub struct DataClassificationEntry {
    pub table: String,
    pub field: String,
    /// The DataClassification value found, or `(none)`.
    pub classification: String,
    pub risk: GdprRisk,
    pub file: Option<String>,
    /// Line number (1-based).
    pub line: Option<u32>,
}

/// An entry as plain values: table, field, classification, risk, file, line.
pub type EntryView = (Seq<char>, Seq<char>, Seq<char>, GdprRisk, Option<Seq<char>>, Option<u32>);

pub open spec fn entry_view(e: DataClassificationEntry) -> EntryView {
    (e.table@, e.field@, e.classification@, e.risk, opt_view(e.file), e.line)
}

pub open spec fn entries_view(v: Seq<DataClassificationEntry>) -> Seq<EntryView> {
    v.map_values(|e: DataClassificationEntry| entry_view(e))
}

/// An open field block: its name, line, classification so far and brace
/// depth.
pub type FieldView = (Seq<char>, int, Option<Seq<char>>, int);

/// The entries that scanning `lines` from line `k` adds to `out`, with the
/// open field blocks `stack`.  A line starting (lowercased, trimmed) with
/// `field(` or `field (` opens a block; any other line, while a block is
/// open, adds its `{` minus `}` count to the innermost block's depth, sets
/// its classification when the line holds `dataclassification` and gives
/// the property a value, and closes it, giving an entry, when the depth is
/// no longer positive.
pub open spec fn scan_fields(
    lines: Seq<Seq<char>>,
    k: int,
    file: Seq<char>,
    table: Seq<char>,
    stack: Seq<FieldView>,
    out: Seq<EntryView>,
) -> Seq<EntryView>
    decreases lines.len() - k,
{
    if k < 0 || k >= lines.len() {
        out
    } else {
        let line = lines[k];
        let trimmed = trim(line);
        let lower = lowercase(trimmed);
        let delta = count_char(line, '{') - count_char(line, '}');
        if starts_with(lower, "field("@) || starts_with(lower, "field ("@) {
            scan_fields(
                lines,
                k + 1,
                file,
                table,
                stack.push((field_name_of(trimmed), k + 1, None, delta)),
                out,
            )
        } else if stack.len() == 0 {
            scan_fields(lines, k + 1, file, table, stack, out)
        } else {
            let top = stack.last();
            let d = top.3 + delta;
            let cls = if contains(lower, "dataclassification"@) {
                match property_value_of(trimmed, "DataClassification"@) {
                    Some(c) => Some(c),
                    None => top.2,
                }
            } else {
                top.2
            };
            if d <= 0 {
                let c = match cls {
                    Some(c) => c,
                    None => "(none)"@,
                };
                scan_fields(
                    lines,
                    k + 1,
                    file,
                    table,
                    stack.drop_last(),
                    out.push(
                        (table, top.0, c, risk_of_lower(lowercase(c)), Some(file), Some(top.1 as u32)),
                    ),
                )
            } else {
                scan_fields(
                    lines,
                    k + 1,
                    file,
                    table,
                    stack.drop_last().push((top.0, top.1, cls, d)),
                    out,
                )
            }
        }
    }
}

struct FieldCtx {
    name: String,
    line: u32,
    classification: Option<String>,
    brace_depth: i128,
}

spec fn ctx_view(c: FieldCtx) -> FieldView {
    (c.name@, c.line as int, opt_view(c.classification), c.brace_depth as int)
}

spec fn stack_view(s: Seq<FieldCtx>) -> Seq<FieldView> {
    s.map_values(|c: FieldCtx| ctx_view(c))
}

/// A bound on brace depths after `k` lines.
spec fn depth_ok(d: int, k: int) -> bool {
    -k * 0x1_0000_0000_0000_0000 <= d <= k * 0x1_0000_0000_0000_0000
}

/// Scan a table's source for `field(...) { ... }` blocks and append an entry
/// for each, in the order the blocks close.
#[verifier::spinoff_prover]
#[verifier::rlimit(40)]
pub fn scan_table_fields(
    file_path: &str,
    text: &str,
    table_name: &str,
    results: &mut Vec<DataClassificationEntry>,
)
    requires
        lines_of(text@).len() <= u32::MAX,
    ensures
        entries_view(final(results)@) == scan_fields(
            lines_of(text@),
            0,
            file_path@,
            table_name@,
            seq![],
            entries_view(old(results)@),
        ),
{
    let lines = lines_vec(&chars_of(text));
    let ghost ls = seqs_of(lines@);
    let mut stack: Vec<FieldCtx> = Vec::new();
    let mut k: usize = 0;
    assert(stack_view(stack@) =~= Seq::<FieldView>::empty());
    while k < lines.len()
        invariant
            k <= lines@.len(),
            ls == seqs_of(lines@),
            ls == lines_of(text@),
            ls.len() <= u32::MAX,
            forall|j: int|
                0 <= j < stack@.len() ==> #[trigger] stack@[j].line <= k && depth_ok(
                    stack@[j].brace_depth as int,
                    k as int,
                ),
            scan_fields(ls, 0, file_path@, table_name@, seq![], entries_view(old(results)@))
                == scan_fields(
                ls,
                k as int,
                file_path@,
                table_name@,
                stack_view(stack@),
                entries_view(results@),
            ),
        decreases lines@.len() - k,
    {
        let line = &lines[k];
        assert(ls[k as int] == line@);
        let trimmed = trim_vec(line);
        let tstr = string_of(&trimmed);
        let lower = lower_vec(&trimmed);
        let open = count_char_in(line, '{', 0, line.len());
        let close = count_char_in(line, '}', 0, line.len());
        assert(line@.subrange(0, line@.len() as int) =~= line@);
        let delta: i128 = open as i128 - close as i128;
        let ghost sv = stack_view(stack@);
        let ghost old_stack = stack@;
        assert(-0x1_0000_0000_0000_0000 <= delta <= 0x1_0000_0000_0000_0000);
        if vec_starts_with(&lower, "field(") || vec_starts_with(&lower, "field (") {
            assert(k + 1 <= u32::MAX);
            let name = extract_field_name_from_line(tstr.as_str());
            let ctx = FieldCtx {
                name,
                line: (k + 1) as u32,
                classification: None,
                brace_depth: delta,
            };
            stack.push(ctx);
            assert(stack_view(stack@) =~= sv.push(ctx_view(ctx)));
            assert forall|j: int| 0 <= j < stack@.len() implies #[trigger] stack@[j].line <= k + 1
                && depth_ok(stack@[j].brace_depth as int, k + 1) by {
                if j < old_stack.len() {
                    assert(stack@[j] == old_stack[j]);
                    assert(old_stack[j].line <= k);
                    assert(depth_ok(old_stack[j].brace_depth as int, k as int));
                } else {
                    assert(stack@[j] == ctx);
                    assert(ctx.line == k + 1);
                    assert(depth_ok(delta as int, k + 1));
                }
            }
        } else if stack.len() > 0 {
            let ghost top = sv.last();
            let mut ctx = stack.pop().unwrap();
            assert(ctx_view(ctx) == top);
            assert(stack_view(stack@) =~= sv.drop_last());
            let d = ctx.brace_depth + delta;
            if vec_contains(&lower, "dataclassification") {
                match extract_property_value_from_line(tstr.as_str(), "DataClassification") {
                    Some(c) => {
                        ctx.classification = Some(c);
                    },
                    None => {},
                }
            }
            if d <= 0 {
                let c = match ctx.classification {
                    Some(c) => c,
                    None => {
                        let mut s = String::new();
                        push_str(&mut s, "(none)");
                        s
                    },
                };
                let risk = classify_gdpr_risk(c.as_str());
                let mut tbl = String::new();
                push_str(&mut tbl, table_name);
                let mut fp = String::new();
                push_str(&mut fp, file_path);
                let e = DataClassificationEntry {
                    table: tbl,
                    field: ctx.name,
                    classification: c,
                    risk,
                    file: Some(fp),
                    line: Some(ctx.line),
                };
                let ghost r0 = entries_view(results@);
                results.push(e);
                assert(entries_view(results@) =~= r0.push(entry_view(e)));
                assert forall|j: int| 0 <= j < stack@.len() implies #[trigger] stack@[j].line <= k
                    + 1 && depth_ok(stack@[j].brace_depth as int, k + 1) by {
                    assert(stack@[j] == old_stack[j]);
                }
            } else {
                let nctx = FieldCtx {
                    name: ctx.name,
                    line: ctx.line,
                    classification: ctx.classification,
                    brace_depth: d,
                };
                let ghost s1 = stack_view(stack@);
                stack.push(nctx);
                assert(stack_view(stack@) =~= s1.push(ctx_view(nctx)));
                assert forall|j: int| 0 <= j < stack@.len() implies #[trigger] stack@[j].line <= k
                    + 1 && depth_ok(stack@[j].brace_depth as int, k + 1) by {
                    if j < stack@.len() - 1 {
                        assert(stack@[j] == old_stack[j]);
                    }
                }
            }
        }
        k = k + 1;
    }
}

/// The entries of one object: those of its field blocks when it is a table
/// or table extension, none otherwise.
pub open spec fn object_entries(o: ObjectFile) -> Seq<EntryView> {
    let k = lowercase(o.kind@);
    if k == "table"@ || k == "tableextension"@ {
        scan_fields(lines_of(o.text@), 0, o.path@, o.name@, seq![], seq![])
    } else {
        seq![]
    }
}

/// The entries of all objects, in order.
pub open spec fn classification_entries(objs: Seq<ObjectFile>) -> Seq<EntryView>
    decreases objs.len(),
{
    if objs.len() == 0 {
        seq![]
    } else {
        classification_entries(objs.drop_last()) + object_entries(objs.last())
    }
}

/// Scanning appends to what was found so far.
proof fn lemma_scan_fields_append(
    lines: Seq<Seq<char>>,
    k: int,
    file: Seq<char>,
    table: Seq<char>,
    stack: Seq<FieldView>,
    pre: Seq<EntryView>,
    out: Seq<EntryView>,
)
    ensures
        scan_fields(lines, k, file, table, stack, pre + out) == pre + scan_fields(
            lines,
            k,
            file,
            table,
            stack,
            out,
        ),
    decreases lines.len() - k,
{
    if k < 0 || k >= lines.len() {
    } else {
        let line = lines[k];
        let trimmed = trim(line);
        let lower = lowercase(trimmed);
        let delta = count_char(line, '{') - count_char(line, '}');
        if starts_with(lower, "field("@) || starts_with(lower, "field ("@) {
            lemma_scan_fields_append(
                lines,
                k + 1,
                file,
                table,
                stack.push((field_name_of(trimmed), k + 1, None, delta)),
                pre,
                out,
            );
        } else if stack.len() == 0 {
            lemma_scan_fields_append(lines, k + 1, file, table, stack, pre, out);
        } else {
            let top = stack.last();
            let d = top.3 + delta;
            let cls = if contains(lower, "dataclassification"@) {
                match property_value_of(trimmed, "DataClassification"@) {
                    Some(c) => Some(c),
                    None => top.2,
                }
            } else {
                top.2
            };
            if d <= 0 {
                let c = match cls {
                    Some(c) => c,
                    None => "(none)"@,
                };
                let e = (table, top.0, c, risk_of_lower(lowercase(c)), Some(file), Some(top.1 as u32));
                assert((pre + out).push(e) =~= pre + out.push(e));
                lemma_scan_fields_append(lines, k + 1, file, table, stack.drop_last(), pre, out.push(e));
            } else {
                lemma_scan_fields_append(
                    lines,
                    k + 1,
                    file,
                    table,
                    stack.drop_last().push((top.0, top.1, cls, d)),
                    pre,
                    out,
                );
            }
        }
    }
}

/// Every field block of every table and table extension among `objects`,
/// with its DataClassification (`(none)` when it has none) and the GDPR
/// risk of that value.
pub fn data_classification_audit(objects: &Vec<ObjectFile>) -> (r: Vec<DataClassificationEntry>)
    requires
        forall|i: int| 0 <= i < objects@.len() ==> lines_of(#[trigger] objects@[i].text@).len() <= u32::MAX,
    ensures
        entries_view(r@) == classification_entries(objects@),
{
    let mut results: Vec<DataClassificationEntry> = Vec::new();
    let mut i: usize = 0;
    assert(entries_view(results@) =~= Seq::<EntryView>::empty());
    while i < objects.len()
        invariant
            i <= objects@.len(),
            forall|j: int| 0 <= j < objects@.len() ==> lines_of(#[trigger] objects@[j].text@).len() <= u32::MAX,
            entries_view(results@) == classification_entries(objects@.take(i as int)),
        decreases objects@.len() - i,
    {
        let o = &objects[i];
        assert(objects@.take(i + 1).drop_last() =~= objects@.take(i as int));
        let ghost before = entries_view(results@);
        let k = lower_vec(&chars_of(o.kind.as_str()));
        if is_word(&k, "table") || is_word(&k, "tableextension") {
            scan_table_fields(o.path.as_str(), o.text.as_str(), o.name.as_str(), &mut results);
            proof {
                lemma_scan_fields_append(lines_of(o.text@), 0, o.path@, o.name@, seq![], before, seq![]);
                assert(before + Seq::<EntryView>::empty() =~= before);
            }
        } else {
            assert(before + Seq::<EntryView>::empty() =~= before);
        }
        i = i + 1;
    }
    assert(objects@.take(objects@.len() as int) =~= objects@);
    results
}

// ---------------------------------------------------------------------------
// Permission-set audit
// ---------------------------------------------------------------------------

/// The object a permission line names after its keyword: the text inside a
/// leading pair of `"`, or the text before the first `=` or space, trimmed.
pub open spec fn perm_name(rest: Seq<char>) -> Option<Seq<char>> {
    if rest.len() > 0 && rest[0] == '"' {
        let q = rest.skip(1);
        let e = index_of_char(q, '"');
        if e < q.len() {
            Some(q.take(e as int))
        } else {
            None
        }
    } else {
        let e = index_of_any(rest, seq!['=', ' ']);
        if e < rest.len() {
            Some(trim(rest.take(e as int)))
        } else {
            None
        }
    }
}

/// The object named after keyword `pfx` on a trimmed line (with lowercase
/// form `lower`), as a sequence of at most one name.
pub open spec fn perm_here(trimmed: Seq<char>, lower: Seq<char>, pfx: Seq<char>) -> Seq<Seq<char>> {
    if starts_with(lower, pfx) {
        let rest = if pfx.len() <= trimmed.len() {
            trimmed.skip(pfx.len() as int)
        } else {
            seq![]
        };
        match perm_name(rest) {
            Some(n) => if n.len() > 0 {
                seq![n]
            } else {
                seq![]
            },
            None => seq![],
        }
    } else {
        seq![]
    }
}

/// The objects one trimmed line of a permission set names.
pub open spec fn perm_line(t: Seq<char>) -> Seq<Seq<char>> {
    let l = lowercase(t);
    perm_here(t, l, "tabledata "@) + perm_here(t, l, "table "@) + perm_here(t, l, "page "@)
        + perm_here(t, l, "codeunit "@) + perm_here(t, l, "report "@)
}

/// The objects named by the lines of a permission set (comment lines
/// skipped), in order.
pub open spec fn permission_objects(lines: Seq<Seq<char>>) -> Seq<Seq<char>>
    decreases lines.len(),
{
    if lines.len() == 0 {
        seq![]
    } else {
        let prev = permission_objects(lines.drop_last());
        let t = trim(lines.last());
        if starts_with(t, "//"@) {
            prev
        } else {
            prev + perm_line(t)
        }
    }
}

fn push_perm_here(
    trimmed: &Vec<char>,
    lower: &Vec<char>,
    pfx: &str,
    out: &mut Vec<String>,
)
    ensures
        strs(final(out)@) == strs(old(out)@) + perm_here(trimmed@, lower@, pfx@),
{
    let p = chars_of(pfx);
    if !vec_starts_with(lower, pfx) {
        assert(strs(out@) + Seq::<Seq<char>>::empty() =~= strs(out@));
        return;
    }
    let rest = if p.len() <= trimmed.len() {
        let r = copy_range(trimmed, p.len(), trimmed.len());
        assert(r@ =~= trimmed@.skip(pfx@.len() as int));
        r
    } else {
        Vec::new()
    };
    let name: Option<Vec<char>> = if rest.len() > 0 && rest[0] == '"' {
        let q = copy_range(&rest, 1, rest.len());
        assert(q@ =~= rest@.skip(1));
        let e = find_char_in(&q, '"', 0, q.len());
        assert(q@.subrange(0, q@.len() as int) =~= q@);
        if e < q.len() {
            let n = copy_range(&q, 0, e);
            assert(n@ =~= q@.take(e as int));
            Some(n)
        } else {
            None
        }
    } else {
        let stops: Vec<char> = vec!['=', ' '];
        assert(stops@ =~= seq!['=', ' ']);
        let e = find_any(&rest, &stops);
        if e < rest.len() {
            let n = trim_vec(&copy_range(&rest, 0, e));
            assert(rest@.subrange(0, e as int) =~= rest@.take(e as int));
            Some(n)
        } else {
            None
        }
    };
    let ghost o0 = strs(out@);
    match name {
        Some(n) => {
            if n.len() > 0 {
                out.push(string_of(&n));
                assert(strs(out@) =~= o0 + seq![n@]);
            } else {
                assert(o0 + Seq::<Seq<char>>::empty() =~= o0);
            }
        },
        None => {
            assert(o0 + Seq::<Seq<char>>::empty() =~= o0);
        },
    }
}

/// The objects a permission set's source names on its `TableData`, `Table`,
/// `Page`, `Codeunit` and `Report` lines (keywords matched ignoring case;
/// `//` comment lines skipped), in order.
pub fn extract_permission_objects(text: &str) -> (r: Vec<String>)
    ensures
        strs(r@) == permission_objects(lines_of(text@)),
{
    let lines = lines_vec(&chars_of(text));
    let ghost ls = seqs_of(lines@);
    let mut out: Vec<String> = Vec::new();
    let mut k: usize = 0;
    assert(strs(out@) =~= Seq::<Seq<char>>::empty());
    while k < lines.len()
        invariant
            k <= lines@.len(),
            ls == seqs_of(lines@),
            ls == lines_of(text@),
            strs(out@) == permission_objects(ls.take(k as int)),
        decreases lines@.len() - k,
    {
        assert(ls.take(k + 1).drop_last() =~= ls.take(k as int));
        assert(ls.take(k + 1).last() == lines@[k as int]@);
        let trimmed = trim_vec(&lines[k]);
        if !vec_starts_with(&trimmed, "//") {
            let lower = lower_vec(&trimmed);
            let ghost o0 = strs(out@);
            push_perm_here(&trimmed, &lower, "tabledata ", &mut out);
            push_perm_here(&trimmed, &lower, "table ", &mut out);
            push_perm_here(&trimmed, &lower, "page ", &mut out);
            push_perm_here(&trimmed, &lower, "codeunit ", &mut out);
            push_perm_here(&trimmed, &lower, "report ", &mut out);
            proof {
                let t = trimmed@;
                let l = lower@;
                assert(strs(out@) =~= o0 + perm_line(t));
            }
        }
        k = k + 1;
    }
    assert(ls.take(ls.len() as int) =~= ls);
    out
}

/// Whether an object of kind `kind` is covered by some permission set.
#[derive(Debug, Clone)]
pub struct PermissionCoverageEntry {
    pub kind: String,
    pub id: u32,
    pub name: String,
    pub covered: bool,
    pub covered_by: Vec<String>,
}

/// A coverage entry as plain values.
pub type CoverageView = (Seq<char>, u32, Seq<char>, bool, Seq<Seq<char>>);

pub open spec fn coverage_view(e: PermissionCoverageEntry) -> CoverageView {
    (e.kind@, e.id, e.name@, e.covered, strs(e.covered_by@))
}

pub open spec fn coverages_view(v: Seq<PermissionCoverageEntry>) -> Seq<CoverageView> {
    v.map_values(|e: PermissionCoverageEntry| coverage_view(e))
}

/// The permission sets among `objs`: each name with the objects it names.
pub open spec fn permission_sets(objs: Seq<ObjectFile>) -> Seq<(Seq<char>, Seq<Seq<char>>)>
    decreases objs.len(),
{
    if objs.len() == 0 {
        seq![]
    } else {
        let prev = permission_sets(objs.drop_last());
        let o = objs.last();
        if lowercase(o.kind@) == "permissionset"@ {
            prev.push((o.name@, permission_objects(lines_of(o.text@))))
        } else {
            prev
        }
    }
}

/// Some object of `objects` has lowercase form `name_lower`.
pub open spec fn names_object(objects: Seq<Seq<char>>, name_lower: Seq<char>) -> bool {
    exists|i: int| 0 <= i < objects.len() && lowercase(#[trigger] objects[i]) == name_lower
}

/// The names of the permission sets that name an object with lowercase
/// form `name_lower`, in order.
pub open spec fn covering_sets(sets: Seq<(Seq<char>, Seq<Seq<char>>)>, name_lower: Seq<char>) -> Seq<
    Seq<char>,
>
    decreases sets.len(),
{
    if sets.len() == 0 {
        seq![]
    } else {
        let prev = covering_sets(sets.drop_last(), name_lower);
        if names_object(sets.last().1, name_lower) {
            prev.push(sets.last().0)
        } else {
            prev
        }
    }
}

/// An object number as the audit reports it: 0 when absent, else its low
/// 32 bits.
pub open spec fn audit_id(id: Option<i64>) -> u32 {
    match id {
        Some(n) => n as u32,
        None => 0,
    }
}

/// The coverage entries for the tables, pages, codeunits and reports of
/// `objs`, in order, against the permission sets of `all`.
pub open spec fn coverage(all: Seq<ObjectFile>, objs: Seq<ObjectFile>) -> Seq<CoverageView>
    decreases objs.len(),
{
    if objs.len() == 0 {
        seq![]
    } else {
        let prev = coverage(all, objs.drop_last());
        let o = objs.last();
        let k = lowercase(o.kind@);
        if k == "table"@ || k == "page"@ || k == "codeunit"@ || k == "report"@ {
            let cb = covering_sets(permission_sets(all), lowercase(o.name@));
            prev.push((o.kind@, audit_id(o.id), o.name@, cb.len() > 0, cb))
        } else {
            prev
        }
    }
}

fn set_names_object(objects: &Vec<String>, name_lower: &Vec<char>) -> (b: bool)
    ensures
        b == names_object(strs(objects@), name_lower@),
{
    let mut i: usize = 0;
    while i < objects.len()
        invariant
            i <= objects@.len(),
            forall|j: int| 0 <= j < i ==> lowercase(#[trigger] strs(objects@)[j]) != name_lower@,
        decreases objects@.len() - i,
    {
        let l = lower_vec(&chars_of(objects[i].as_str()));
        assert(strs(objects@)[i as int] == objects@[i as int]@);
        if vec_eq(&l, name_lower) {
            return true;
        }
        i = i + 1;
    }
    false
}

spec fn sets_view(v: Seq<(String, Vec<String>)>) -> Seq<(Seq<char>, Seq<Seq<char>>)> {
    v.map_values(|p: (String, Vec<String>)| (p.0@, strs(p.1@)))
}

/// For each table, page, codeunit and report among `objects`, the permission
/// sets among `objects` that name it (compared ignoring case).
pub fn permission_set_audit(objects: &Vec<ObjectFile>) -> (r: Vec<PermissionCoverageEntry>)
    ensures
        coverages_view(r@) == coverage(objects@, objects@),
{
    let mut sets: Vec<(String, Vec<String>)> = Vec::new();
    let mut i: usize = 0;
    assert(sets_view(sets@) =~= Seq::<(Seq<char>, Seq<Seq<char>>)>::empty());
    while i < objects.len()
        invariant
            i <= objects@.len(),
            sets_view(sets@) == permission_sets(objects@.take(i as int)),
        decreases objects@.len() - i,
    {
        let o = &objects[i];
        assert(objects@.take(i + 1).drop_last() =~= objects@.take(i as int));
        let k = lower_vec(&chars_of(o.kind.as_str()));
        if is_word(&k, "permissionset") {
            let covered = extract_permission_objects(o.text.as_str());
            let mut n = String::new();
            push_str(&mut n, o.name.as_str());
            let ghost s0 = sets_view(sets@);
            sets.push((n, covered));
            assert(sets_view(sets@) =~= s0.push((o.name@, permission_objects(lines_of(o.text@)))));
        }
        i = i + 1;
    }
    assert(objects@.take(objects@.len() as int) =~= objects@);
    let ghost all_sets = permission_sets(objects@);
    let mut results: Vec<PermissionCoverageEntry> = Vec::new();
    let mut i: usize = 0;
    assert(coverages_view(results@) =~= Seq::<CoverageView>::empty());
    while i < objects.len()
        invariant
            i <= objects@.len(),
            sets_view(sets@) == all_sets,
            all_sets == permission_sets(objects@),
            coverages_view(results@) == coverage(objects@, objects@.take(i as int)),
        decreases objects@.len() - i,
    {
        let o = &objects[i];
        assert(objects@.take(i + 1).drop_last() =~= objects@.take(i as int));
        let k = lower_vec(&chars_of(o.kind.as_str()));
        if is_word(&k, "table") || is_word(&k, "page") || is_word(&k, "codeunit") || is_word(
            &k,
            "report",
        ) {
            let name_lower = lower_vec(&chars_of(o.name.as_str()));
            let mut covered_by: Vec<String> = Vec::new();
            let mut j: usize = 0;
            assert(strs(covered_by@) =~= Seq::<Seq<char>>::empty());
            while j < sets.len()
                invariant
                    j <= sets@.len(),
                    sets_view(sets@) == all_sets,
                    name_lower@ == lowercase(o.name@),
                    strs(covered_by@) == covering_sets(all_sets.take(j as int), name_lower@),
                decreases sets@.len() - j,
            {
                assert(all_sets.take(j + 1).drop_last() =~= all_sets.take(j as int));
                assert(all_sets[j as int] == (sets@[j as int].0@, strs(sets@[j as int].1@)));
                if set_names_object(&sets[j].1, &name_lower) {
                    let mut n = String::new();
                    push_str(&mut n, sets[j].0.as_str());
                    let ghost c0 = strs(covered_by@);
                    covered_by.push(n);
                    assert(strs(covered_by@) =~= c0.push(sets@[j as int].0@));
                }
                j = j + 1;
            }
            assert(all_sets.take(sets@.len() as int) =~= all_sets);
            let id: u32 = match o.id {
                Some(n) => n as u32,
                None => 0,
            };
            let mut kind = String::new();
            push_str(&mut kind, o.kind.as_str());
            let mut name = String::new();
            push_str(&mut name, o.name.as_str());
            let covered = covered_by.len() > 0;
            let e = PermissionCoverageEntry { kind, id, name, covered, covered_by };
            let ghost r0 = coverages_view(results@);
            results.push(e);
            assert(coverages_view(results@) =~= r0.push(coverage_view(e)));
        }
        i = i + 1;
    }
    assert(objects@.take(objects@.len() as int) =~= objects@);
    results
}

} // verus!
