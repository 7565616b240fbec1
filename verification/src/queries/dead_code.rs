//! Dead-code detection over AL source text: call names, member accesses of
//! table fields, field declarations and event-subscriber targets.

use vstd::prelude::*;

use crate::insight::calls::{after_scope, attr_inner, attr_inner_of};
use crate::queries::audit::field_rest;
use crate::text::{
    ascii_lower_seq, ascii_lower_vec, chars_of, char_is_ascii_alnum, contains, contains_vec,
    copy_range, ends_with, ends_with_vec, find, find_any, find_char_in, first_index,
    index_of_any, index_of_char, is_ascii_alnum, is_word_char, lemma_first_index, lines_of,
    lines_vec, lower_vec, lowercase, opt_view, push_str, seqs_of, skip_ws_back, starts_with,
    string_of, strip_char, strip_char_vec, strs, trim, trim_end, trim_start, trim_vec,
    vec_eq, vec_starts_with, word_char,
};

verus! {

/// The kind of an unused symbol.
#[derive(Debug, Clone, Copy, PartialEq, Eq, Structural)]
pub enum UnusedKind {
    Procedure,
    Field,
    Subscriber,
}

/// Why a symbol is considered unused.
#[derive(Debug, Clone, Copy, PartialEq, Eq, Structural)]
pub enum UnusedReason {
    /// No references anywhere in the workspace.
    ZeroReferences,
    /// The subscriber's publisher no longer exists.
    PublisherRemoved,
}

/// An unused symbol.
#[derive(Debug, Clone)]
pub struct UnusedSymbol {
    pub kind: UnusedKind,
    pub name: String,
    /// The object that contains it.
    pub object: String,
    pub file: Option<String>,
    /// Line number (1-based).
    pub line: Option<u32>,
    pub reason: UnusedReason,
}

// ---------------------------------------------------------------------------
// Call names
// ---------------------------------------------------------------------------

/// An ASCII identifier character.
pub open spec fn ident_ascii(c: char) -> bool {
    is_ascii_alnum(c) || c == '_'
}

/// The number of identifier characters of `s` immediately before index `i`.
pub open spec fn ident_run(s: Seq<char>, i: int) -> nat
    decreases i,
{
    if i <= 0 || i > s.len() || !ident_ascii(s[i - 1]) {
        0
    } else {
        1 + ident_run(s, i - 1)
    }
}

/// The call names of `lower` at the `(` among its first `n` characters: the
/// identifier right before each `(`, unless what precedes that identifier
/// ends (trailing whitespace ignored) with `procedure`.
pub open spec fn call_names_upto(lower: Seq<char>, n: int) -> Seq<Seq<char>>
    decreases n,
{
    if n <= 0 || n > lower.len() {
        seq![]
    } else {
        let prev = call_names_upto(lower, n - 1);
        let i = n - 1;
        let start = i - ident_run(lower, i);
        if lower[i] == '(' && start < i && !ends_with(trim_end(lower.take(start)), "procedure"@) {
            prev.push(lower.subrange(start, i))
        } else {
            prev
        }
    }
}

/// The names called on a line, ASCII-lowercased, in order.
pub open spec fn text_call_names(line: Seq<char>) -> Seq<Seq<char>> {
    call_names_upto(ascii_lower_seq(line), line.len() as int)
}

/// Every ASCII-lowercased identifier directly before a `(` on a line, except
/// in `procedure name(` declarations.
pub fn extract_text_call_names(line: &str) -> (r: Vec<String>)
    ensures
        strs(r@) == text_call_names(line@),
{
    let lower = ascii_lower_vec(&chars_of(line));
    let mut out: Vec<String> = Vec::new();
    let mut i: usize = 0;
    assert(strs(out@) =~= Seq::<Seq<char>>::empty());
    while i < lower.len()
        invariant
            i <= lower@.len(),
            lower@ == ascii_lower_seq(line@),
            strs(out@) == call_names_upto(lower@, i as int),
        decreases lower@.len() - i,
    {
        let mut start: usize = i;
        while start > 0 && (char_is_ascii_alnum(lower[start - 1]) || lower[start - 1] == '_')
            invariant
                start <= i < lower@.len(),
                ident_run(lower@, i as int) == (i - start) + ident_run(lower@, start as int),
            decreases start,
        {
            start = start - 1;
        }
        assert(ident_run(lower@, start as int) == 0);
        if lower[i] == '(' && start < i {
            let b = skip_ws_back(&lower, 0, start);
            let pre = copy_range(&lower, 0, b);
            proof {
                let s = lower@.subrange(0, start as int);
                assert(s =~= lower@.take(start as int));
                assert(pre@ =~= trim_end(lower@.take(start as int)));
            }
            if !ends_with_vec(&pre, &chars_of("procedure")) {
                let name = copy_range(&lower, start, i);
                let ghost o0 = strs(out@);
                out.push(string_of(&name));
                assert(strs(out@) =~= o0.push(name@));
            }
        }
        i = i + 1;
    }
    out
}

// ---------------------------------------------------------------------------
// Member access
// ---------------------------------------------------------------------------

/// `p` occurs in `s` with no identifier character right after it, looking
/// at occurrences from the first one and then only in what follows each
/// rejected one.
pub open spec fn bounded_hit(s: Seq<char>, p: Seq<char>) -> bool
    decreases s.len(),
{
    if p.len() == 0 || !contains(s, p) {
        false
    } else {
        let after = first_index(s, p) + p.len();
        if after >= s.len() || !word_char(s[after]) {
            true
        } else if 0 < after <= s.len() {
            bounded_hit(s.skip(after), p)
        } else {
            false
        }
    }
}

/// A line (not a `//` comment) accesses member `name_lower`: `."name"` or a
/// bounded `.name` in the lowercased line.
pub open spec fn line_accesses(line: Seq<char>, name_lower: Seq<char>) -> bool {
    let lower = lowercase(line);
    !starts_with(trim_start(line), "//"@) && (contains(lower, ".\""@ + name_lower + "\""@)
        || bounded_hit(lower, "."@ + name_lower))
}

/// Some line of `text` accesses field `field` (compared lowercased).
pub open spec fn member_access(text: Seq<char>, field: Seq<char>) -> bool {
    exists|i: int|
        0 <= i < lines_of(text).len() && line_accesses(#[trigger] lines_of(text)[i], lowercase(field))
}

fn bounded_hit_vec(s: &Vec<char>, p: &Vec<char>) -> (b: bool)
    ensures
        b == bounded_hit(s@, p@),
{
    if p.len() == 0 {
        return false;
    }
    let mut search = copy_range(s, 0, s.len());
    assert(search@ =~= s@);
    loop
        invariant
            p@.len() > 0,
            bounded_hit(s@, p@) == bounded_hit(search@, p@),
        decreases search@.len(),
    {
        let pos = match find(&search, p) {
            Some(q) => q,
            None => {
                return false;
            },
        };
        proof {
            lemma_first_index(search@, p@, pos as int);
        }
        assert(pos + p.len() <= search.len());
        let after = pos + p.len();
        if after == search.len() || !is_word_char(search[after]) {
            return true;
        }
        let next = copy_range(&search, after, search.len());
        assert(next@ =~= search@.skip(after as int));
        search = next;
    }
}

fn line_accesses_vec(line: &Vec<char>, name_lower: &Vec<char>) -> (b: bool)
    ensures
        b == line_accesses(line@, name_lower@),
{
    let (a, _) = crate::text::trim_range(line, 0, line.len());
    let ts = copy_range(line, a, line.len());
    proof {
        assert(line@.subrange(0, line@.len() as int) =~= line@);
    }
    if vec_starts_with(&ts, "//") {
        return false;
    }
    let lower = lower_vec(line);
    let mut quoted = chars_of(".\"");
    let mut k: usize = 0;
    let ghost q0 = quoted@;
    while k < name_lower.len()
        invariant
            k <= name_lower@.len(),
            quoted@ == q0 + name_lower@.take(k as int),
        decreases name_lower@.len() - k,
    {
        quoted.push(name_lower[k]);
        assert(name_lower@.take(k + 1) =~= name_lower@.take(k as int).push(name_lower@[k as int]));
        k = k + 1;
    }
    quoted.push('"');
    assert(name_lower@.take(name_lower@.len() as int) =~= name_lower@);
    assert(quoted@ =~= ".\""@ + name_lower@ + "\""@) by {
        reveal_strlit("\"");
    }
    if contains_vec(&lower, &quoted) {
        return true;
    }
    let mut plain = chars_of(".");
    let mut k: usize = 0;
    let ghost p0 = plain@;
    while k < name_lower.len()
        invariant
            k <= name_lower@.len(),
            plain@ == p0 + name_lower@.take(k as int),
        decreases name_lower@.len() - k,
    {
        plain.push(name_lower[k]);
        assert(name_lower@.take(k + 1) =~= name_lower@.take(k as int).push(name_lower@[k as int]));
        k = k + 1;
    }
    bounded_hit_vec(&lower, &plain)
}

/// Whether `text` accesses field `field_name` as a member (`.Name` followed
/// by a non-identifier character or the end of the line, or `."Name"`),
/// ignoring case and `//` comment lines.
pub fn contains_member_access(text: &str, field_name: &str) -> (b: bool)
    ensures
        b == member_access(text@, field_name@),
{
    let name_lower = lower_vec(&chars_of(field_name));
    let lines = lines_vec(&chars_of(text));
    let ghost ls = seqs_of(lines@);
    let mut i: usize = 0;
    while i < lines.len()
        invariant
            i <= lines@.len(),
            ls == seqs_of(lines@),
            ls == lines_of(text@),
            name_lower@ == lowercase(field_name@),
            forall|j: int| 0 <= j < i ==> !line_accesses(#[trigger] ls[j], name_lower@),
        decreases lines@.len() - i,
    {
        assert(ls[i as int] == lines@[i as int]@);
        if line_accesses_vec(&lines[i], &name_lower) {
            return true;
        }
        i = i + 1;
    }
    false
}

// ---------------------------------------------------------------------------
// Field declarations
// ---------------------------------------------------------------------------

/// The field a trimmed line declares: after `field(` or `field (` and the
/// first `;`, trimmed, the text inside a leading pair of `"` (none when the
/// quote is not closed) or the text up to the next `;` or `)`, trimmed;
/// none when empty.
pub open spec fn declared_field(trimmed: Seq<char>) -> Option<Seq<char>> {
    match field_rest(trimmed) {
        None => None,
        Some(rest) => {
            let i = index_of_char(rest, ';');
            if i >= rest.len() {
                None
            } else {
                let part = trim(rest.skip(i + 1 as int));
                let name = if part.len() > 0 && part[0] == '"' {
                    let q = part.skip(1);
                    let e = index_of_char(q, '"');
                    if e < q.len() {
                        Some(q.take(e as int))
                    } else {
                        None
                    }
                } else {
                    Some(trim(part.take(index_of_any(part, seq![';', ')']) as int)))
                };
                match name {
                    Some(n) => if n.len() > 0 {
                        Some(n)
                    } else {
                        None
                    },
                    None => None,
                }
            }
        },
    }
}

/// The fields declared in the first `n` lines, with their 1-based lines.
pub open spec fn fields_upto(lines: Seq<Seq<char>>, n: int) -> Seq<(Seq<char>, u32)>
    decreases n,
{
    if n <= 0 || n > lines.len() {
        seq![]
    } else {
        let prev = fields_upto(lines, n - 1);
        match declared_field(trim(lines[n - 1])) {
            Some(name) => prev.push((name, n as u32)),
            None => prev,
        }
    }
}

/// Fields with their lines, as plain values.
pub open spec fn fields_view(v: Seq<(String, u32)>) -> Seq<(Seq<char>, u32)> {
    v.map_values(|f: (String, u32)| (f.0@, f.1))
}

fn declared_field_vec(t: &Vec<char>) -> (r: Option<Vec<char>>)
    ensures
        match declared_field(t@) {
            Some(n) => r matches Some(v) && v@ == n,
            None => r is None,
        },
{
    let rest = if vec_starts_with(t, "field(") {
        proof {
            reveal_strlit("field(");
        }
        copy_range(t, 6, t.len())
    } else if vec_starts_with(t, "field (") {
        proof {
            reveal_strlit("field (");
        }
        copy_range(t, 7, t.len())
    } else {
        return None;
    };
    assert(field_rest(t@) == Some(rest@));
    let i = find_char_in(&rest, ';', 0, rest.len());
    assert(rest@.subrange(0, rest@.len() as int) =~= rest@);
    if i == rest.len() {
        return None;
    }
    let part = trim_vec(&copy_range(&rest, i + 1, rest.len()));
    assert(rest@.subrange(i + 1, rest@.len() as int) =~= rest@.skip(i + 1));
    let name = if part.len() > 0 && part[0] == '"' {
        let q = copy_range(&part, 1, part.len());
        assert(q@ =~= part@.skip(1));
        let e = find_char_in(&q, '"', 0, q.len());
        assert(q@.subrange(0, q@.len() as int) =~= q@);
        if e < q.len() {
            let n = copy_range(&q, 0, e);
            assert(n@ =~= q@.take(e as int));
            n
        } else {
            return None;
        }
    } else {
        let stops: Vec<char> = vec![';', ')'];
        assert(stops@ =~= seq![';', ')']);
        let e = find_any(&part, &stops);
        assert(part@.subrange(0, e as int) =~= part@.take(e as int));
        trim_vec(&copy_range(&part, 0, e))
    };
    if name.len() > 0 {
        Some(name)
    } else {
        None
    }
}

/// Append the fields that the lines of a table's source declare
/// (`field(id; Name; Type)`), each with its 1-based line.
pub fn collect_fields_from_text(text: &str, fields: &mut Vec<(String, u32)>)
    requires
        lines_of(text@).len() <= u32::MAX,
    ensures
        fields_view(final(fields)@) == fields_view(old(fields)@) + fields_upto(
            lines_of(text@),
            lines_of(text@).len() as int,
        ),
{
    let lines = lines_vec(&chars_of(text));
    let ghost ls = seqs_of(lines@);
    let ghost f0 = fields_view(fields@);
    let mut k: usize = 0;
    assert(f0 + fields_upto(ls, 0) =~= f0);
    while k < lines.len()
        invariant
            k <= lines@.len(),
            ls == seqs_of(lines@),
            ls == lines_of(text@),
            ls.len() <= u32::MAX,
            fields_view(fields@) == f0 + fields_upto(ls, k as int),
        decreases lines@.len() - k,
    {
        assert(ls[k as int] == lines@[k as int]@);
        let t = trim_vec(&lines[k]);
        match declared_field_vec(&t) {
            Some(n) => {
                let ghost before = fields_view(fields@);
                fields.push((string_of(&n), (k + 1) as u32));
                assert(fields_view(fields@) =~= before.push((n@, (k + 1) as u32)));
            },
            None => {},
        }
        k = k + 1;
    }
}

/// Files as paths and texts.
pub open spec fn files_view(v: Seq<(String, String)>) -> Seq<(Seq<char>, Seq<char>)> {
    v.map_values(|f: (String, String)| (f.0@, f.1@))
}

/// Some file other than `path` accesses field `name` as a member.
pub open spec fn field_referenced(
    files: Seq<(Seq<char>, Seq<char>)>,
    path: Seq<char>,
    name: Seq<char>,
) -> bool {
    exists|i: int|
        0 <= i < files.len() && (#[trigger] files[i]).0 != path && member_access(files[i].1, name)
}

/// An unused symbol as plain values: kind, name, object, file, line, reason.
pub type UnusedView = (UnusedKind, Seq<char>, Seq<char>, Option<Seq<char>>, Option<u32>, UnusedReason);

pub open spec fn unused_view(u: UnusedSymbol) -> UnusedView {
    (u.kind, u.name@, u.object@, opt_view(u.file), u.line, u.reason)
}

pub open spec fn unused_views(v: Seq<UnusedSymbol>) -> Seq<UnusedView> {
    v.map_values(|u: UnusedSymbol| unused_view(u))
}

/// The unused fields among `fields` of a table: those no other file
/// accesses as a member.
pub open spec fn unused_fields(
    fields: Seq<(Seq<char>, u32)>,
    files: Seq<(Seq<char>, Seq<char>)>,
    path: Seq<char>,
    object: Seq<char>,
) -> Seq<UnusedView>
    decreases fields.len(),
{
    if fields.len() == 0 {
        seq![]
    } else {
        let prev = unused_fields(fields.drop_last(), files, path, object);
        let (name, line) = fields.last();
        if field_referenced(files, path, name) {
            prev
        } else {
            prev.push(
                (
                    UnusedKind::Field,
                    name,
                    object,
                    Some(path),
                    Some(line),
                    UnusedReason::ZeroReferences,
                ),
            )
        }
    }
}

/// Append the fields that a table's source declares and that no other file
/// of `all_files` (path, text) accesses as a member.
pub fn find_unused_fields(
    file_path: &str,
    file_text: &str,
    object_name: &str,
    all_files: &Vec<(String, String)>,
    results: &mut Vec<UnusedSymbol>,
)
    requires
        lines_of(file_text@).len() <= u32::MAX,
    ensures
        unused_views(final(results)@) == unused_views(old(results)@) + unused_fields(
            fields_upto(lines_of(file_text@), lines_of(file_text@).len() as int),
            files_view(all_files@),
            file_path@,
            object_name@,
        ),
{
    let mut fields: Vec<(String, u32)> = Vec::new();
    collect_fields_from_text(file_text, &mut fields);
    assert(fields_view(fields@) =~= Seq::<(Seq<char>, u32)>::empty() + fields_upto(
        lines_of(file_text@),
        lines_of(file_text@).len() as int,
    ));
    let ghost fv = fields_view(fields@);
    let ghost files = files_view(all_files@);
    let ghost r0 = unused_views(results@);
    let path = chars_of(file_path);
    let mut k: usize = 0;
    assert(r0 + unused_fields(fv.take(0), files, file_path@, object_name@) =~= r0);
    while k < fields.len()
        invariant
            k <= fields@.len(),
            fv == fields_view(fields@),
            files == files_view(all_files@),
            path@ == file_path@,
            unused_views(results@) == r0 + unused_fields(fv.take(k as int), files, file_path@, object_name@),
        decreases fields@.len() - k,
    {
        assert(fv.take(k + 1).drop_last() =~= fv.take(k as int));
        assert(fv.take(k + 1).last() == (fields@[k as int].0@, fields@[k as int].1));
        let name = &fields[k].0;
        let mut referenced = false;
        let mut j: usize = 0;
        while j < all_files.len() && !referenced
            invariant
                j <= all_files@.len(),
                files == files_view(all_files@),
                path@ == file_path@,
                j <= all_files@.len(),
                !referenced ==> forall|m: int|
                    0 <= m < j ==> !((#[trigger] files[m]).0 != file_path@ && member_access(
                        files[m].1,
                        name@,
                    )),
                referenced ==> field_referenced(files, file_path@, name@),
            decreases all_files@.len() - j,
        {
            assert(files[j as int] == (all_files@[j as int].0@, all_files@[j as int].1@));
            if !vec_eq(&chars_of(all_files[j].0.as_str()), &path) && contains_member_access(
                all_files[j].1.as_str(),
                name.as_str(),
            ) {
                referenced = true;
            }
            j = j + 1;
        }
        if !referenced {
            let mut obj = String::new();
            push_str(&mut obj, object_name);
            let mut fp = String::new();
            push_str(&mut fp, file_path);
            let u = UnusedSymbol {
                kind: UnusedKind::Field,
                name: name.clone(),
                object: obj,
                file: Some(fp),
                line: Some(fields[k].1),
                reason: UnusedReason::ZeroReferences,
            };
            let ghost before = unused_views(results@);
            results.push(u);
            assert(unused_views(results@) =~= before.push(unused_view(u)));
        }
        k = k + 1;
    }
    assert(fv.take(fields@.len() as int) =~= fv);
}

// ---------------------------------------------------------------------------
// Event-subscriber targets
// ---------------------------------------------------------------------------

/// The arguments that splitting `s` from `i` at commas outside quotes yields
/// (a quote, single or double, is closed by the same character).
pub open spec fn split_scan(
    s: Seq<char>,
    i: int,
    args: Seq<Seq<char>>,
    cur: Seq<char>,
    in_quotes: bool,
    quote: char,
) -> Seq<Seq<char>>
    decreases s.len() - i,
{
    if i < 0 || i >= s.len() {
        if trim(cur).len() > 0 {
            args.push(trim(cur))
        } else {
            args
        }
    } else {
        let ch = s[i];
        if (ch == '"' || ch == '\'') && !in_quotes {
            split_scan(s, i + 1, args, cur.push(ch), true, ch)
        } else if ch == quote && in_quotes {
            split_scan(s, i + 1, args, cur.push(ch), false, quote)
        } else if ch == ',' && !in_quotes {
            split_scan(s, i + 1, args.push(trim(cur)), seq![], in_quotes, quote)
        } else {
            split_scan(s, i + 1, args, cur.push(ch), in_quotes, quote)
        }
    }
}

/// Split attribute arguments at commas outside quoted strings, each
/// trimmed; a blank last argument is dropped.
pub fn split_args(s: &str) -> (r: Vec<String>)
    ensures
        strs(r@) == split_scan(s@, 0, seq![], seq![], false, '"'),
{
    let v = chars_of(s);
    let mut args: Vec<String> = Vec::new();
    let mut cur: Vec<char> = Vec::new();
    let mut in_quotes = false;
    let mut quote = '"';
    let mut i: usize = 0;
    assert(strs(args@) =~= Seq::<Seq<char>>::empty());
    assert(cur@ =~= Seq::<char>::empty());
    while i < v.len()
        invariant
            i <= v@.len(),
            v@ == s@,
            split_scan(s@, 0, seq![], seq![], false, '"') == split_scan(
                v@,
                i as int,
                strs(args@),
                cur@,
                in_quotes,
                quote,
            ),
        decreases v@.len() - i,
    {
        let ch = v[i];
        if (ch == '"' || ch == '\'') && !in_quotes {
            in_quotes = true;
            quote = ch;
            cur.push(ch);
        } else if ch == quote && in_quotes {
            in_quotes = false;
            cur.push(ch);
        } else if ch == ',' && !in_quotes {
            let t = trim_vec(&cur);
            let ghost a0 = strs(args@);
            args.push(string_of(&t));
            assert(strs(args@) =~= a0.push(t@));
            cur = Vec::new();
            assert(cur@ =~= Seq::<char>::empty());
        } else {
            cur.push(ch);
        }
        i = i + 1;
    }
    let t = trim_vec(&cur);
    if t.len() > 0 {
        let ghost a0 = strs(args@);
        args.push(string_of(&t));
        assert(strs(args@) =~= a0.push(t@));
    }
    args
}

/// The arguments of an EventSubscriber attribute text.
pub open spec fn subscriber_args(t: Seq<char>) -> Seq<Seq<char>> {
    let inner = match attr_inner(t) {
        Some(x) => x,
        None => seq![],
    };
    split_scan(inner, 0, seq![], seq![], false, '"')
}

/// The target object and event of an EventSubscriber attribute: its second
/// argument, trimmed, after the first `::`, without surrounding `"` and then
/// `'`; and its third, trimmed, without surrounding `"` and then `'`; empty
/// when missing.
pub open spec fn subscriber_target_of(t: Seq<char>) -> (Seq<char>, Seq<char>) {
    let args = subscriber_args(t);
    (
        if args.len() > 1 {
            strip_char(strip_char(after_scope(trim(args[1])), '"'), '\'')
        } else {
            seq![]
        },
        if args.len() > 2 {
            strip_char(strip_char(trim(args[2]), '"'), '\'')
        } else {
            seq![]
        },
    )
}

/// The target object and event of an EventSubscriber attribute text such as
/// `[EventSubscriber(ObjectType::Codeunit, Codeunit::"Name", 'Event', ...)]`.
pub fn parse_subscriber_args(attr_text: &str) -> (r: (String, String))
    ensures
        (r.0@, r.1@) == subscriber_target_of(attr_text@),
{
    let inner = match attr_inner_of(&chars_of(attr_text)) {
        Some(x) => x,
        None => Vec::new(),
    };
    let args = split_args(string_of(&inner).as_str());
    let obj = if args.len() > 1 {
        let t = trim_vec(&chars_of(args[1].as_str()));
        let sep = chars_of("::");
        proof {
            reveal_strlit("::");
        }
        let u = match find(&t, &sep) {
            Some(i) => {
                proof {
                    lemma_first_index(t@, "::"@, i as int);
                    assert("::"@.len() == 2);
                    assert(t@.subrange(i + 2, t@.len() as int) =~= t@.skip(i + 2));
                }
                assert(i + 2 <= t.len());
                copy_range(&t, i + 2, t.len())
            },
            None => t,
        };
        string_of(&strip_char_vec(&strip_char_vec(&u, '"'), '\''))
    } else {
        String::new()
    };
    let ev = if args.len() > 2 {
        let t = trim_vec(&chars_of(args[2].as_str()));
        string_of(&strip_char_vec(&strip_char_vec(&t, '"'), '\''))
    } else {
        String::new()
    };
    (obj, ev)
}

} // verus!
