//! Rewriting a `with` statement into explicit record references: each line
//! of the body gets its leading reference qualified, then every known field
//! name that stands alone is prefixed with the record variable.

use vstd::prelude::*;

use super::{assign_or_call, qualified};
use crate::language::is_keyword_spec;
use crate::text::{
    chars_of, index_of_char, lines_of, lines_vec, lowercase, seqs_of, starts_with, string_of, trim,
    strs, trim_start, word_char, word_end,
};

verus! {

/// The line's leading word (lowercased) is an AL keyword, or the line is a
/// comment or an `end;`.
pub open spec fn keyword_led(lower: Seq<char>) -> bool {
    is_keyword_spec(lower.take(word_end(lower) as int)) || starts_with(lower, "//"@) || starts_with(
        lower,
        "end;"@,
    )
}

/// Pass 1: the leading quoted or plain identifier followed by `:=` or `(`
/// is qualified; keyword-led lines and references already qualified with
/// `.` or `::` are left alone.  The result is trimmed.
pub open spec fn structural(line: Seq<char>, record_var: Seq<char>) -> Seq<char> {
    let t = trim(line);
    if keyword_led(lowercase(t)) {
        t
    } else if t.len() > 0 && t[0] == '"' {
        let ao = t.skip(1);
        let e = index_of_char(ao, '"');
        if e < ao.len() && assign_or_call(trim_start(ao.skip(e as int + 1))) {
            qualified(record_var, t)
        } else {
            t
        }
    } else {
        let w = word_end(t);
        if w == 0 {
            t
        } else {
            let after = trim_start(t.skip(w as int));
            if starts_with(after, "."@) || starts_with(after, "::"@) {
                t
            } else if assign_or_call(after) {
                qualified(record_var, t)
            } else {
                t
            }
        }
    }
}

/// `s` with `x` inserted after every element at least as long as `x`
/// (one step of a stable sort by decreasing length).
pub open spec fn insert_by_len(s: Seq<Seq<char>>, x: Seq<char>) -> Seq<Seq<char>>
    decreases s.len(),
{
    if s.len() == 0 {
        seq![x]
    } else if s[0].len() >= x.len() {
        seq![s[0]] + insert_by_len(s.drop_first(), x)
    } else {
        seq![x] + s
    }
}

/// The field names sorted by decreasing length, ties in their given order.
pub open spec fn by_len_desc(fs: Seq<Seq<char>>) -> Seq<Seq<char>>
    decreases fs.len(),
{
    if fs.len() == 0 {
        Seq::empty()
    } else {
        insert_by_len(by_len_desc(fs.drop_last()), fs.last())
    }
}

/// The rest of `s` from position `i`, with every stand-alone occurrence of
/// the field `f` (matched on lowercase text) replaced by `q`: an occurrence
/// stands alone when the character before it is not `.`, `:` or an
/// identifier character and the one after it is not an identifier
/// character.
pub open spec fn subst_from(s: Seq<char>, i: int, f: Seq<char>, q: Seq<char>) -> Seq<char>
    decreases s.len() - i,
{
    if f.len() == 0 || i < 0 || i >= s.len() {
        Seq::empty()
    } else {
        let me = i + f.len();
        let prev_ok = i == 0 || (s[i - 1] != '.' && s[i - 1] != ':' && !word_char(s[i - 1]));
        let next_ok = me >= s.len() || !word_char(s[me]);
        if starts_with(lowercase(s.skip(i)), lowercase(f)) && prev_ok && next_ok {
            if me >= s.len() {
                q
            } else {
                q + subst_from(s, me, f, q)
            }
        } else {
            seq![s[i]] + subst_from(s, i + 1, f, q)
        }
    }
}

/// One field substituted through a line (an empty field changes nothing).
pub open spec fn subst_field(s: Seq<char>, f: Seq<char>, record_var: Seq<char>) -> Seq<char> {
    if f.len() == 0 {
        s
    } else {
        subst_from(s, 0, f, record_var + "."@ + f)
    }
}

/// All fields substituted in turn.
pub open spec fn subst_all(s: Seq<char>, fs: Seq<Seq<char>>, record_var: Seq<char>) -> Seq<char>
    decreases fs.len(),
{
    if fs.len() == 0 {
        s
    } else {
        subst_field(subst_all(s, fs.drop_last(), record_var), fs.last(), record_var)
    }
}

/// Pass 2: every known field name standing alone gets the record prefix,
/// longest names first.
pub open spec fn substituted(line: Seq<char>, record_var: Seq<char>, fields: Seq<Seq<char>>) -> Seq<
    char,
> {
    subst_all(line, by_len_desc(fields), record_var)
}

/// Both passes over one line.
pub open spec fn qualify_line_spec(line: Seq<char>, record_var: Seq<char>, fields: Seq<Seq<char>>) -> Seq<
    char,
> {
    if fields.len() == 0 {
        structural(line, record_var)
    } else {
        substituted(structural(line, record_var), record_var, fields)
    }
}

fn keyword_led_vec(lower: &Vec<char>) -> (b: bool)
    ensures
        b == keyword_led(lower@),
{
    let w = crate::text::word_end_of(lower);
    let word = crate::text::copy_range(lower, 0, w);
    assert(word@ =~= lower@.take(w as int));
    crate::language::is_keyword(&word) || crate::text::vec_starts_with(lower, "//")
        || crate::text::vec_starts_with(lower, "end;")
}

fn structural_line(line: &str, record_var: &str) -> (r: Vec<char>)
    ensures
        r@ == structural(line@, record_var@),
{
    let t = crate::text::trim_vec(&chars_of(line));
    let lower = crate::text::lower_vec(&t);
    if keyword_led_vec(&lower) {
        return t;
    }
    if t.len() > 0 && t[0] == '"' {
        let e = crate::text::find_char_in(&t, '"', 1, t.len());
        assert(t@.subrange(1, t@.len() as int) =~= t@.skip(1));
        if e < t.len() {
            let (a, _) = crate::text::trim_range(&t, e + 1, t.len());
            let after = crate::text::copy_range(&t, a, t.len());
            assert(t@.skip(1).skip(e - 1 + 1) =~= t@.subrange(e + 1, t@.len() as int));
            if crate::text::vec_starts_with(&after, ":=") || crate::text::vec_starts_with(
                &after,
                "(",
            ) {
                return chars_of(super::qualified_string(record_var, &t).as_str());
            }
        }
        return t;
    }
    let w = crate::text::word_end_of(&t);
    if w == 0 {
        return t;
    }
    let (a, _) = crate::text::trim_range(&t, w, t.len());
    let after = crate::text::copy_range(&t, a, t.len());
    assert(t@.skip(w as int) =~= t@.subrange(w as int, t@.len() as int));
    if crate::text::vec_starts_with(&after, ".") || crate::text::vec_starts_with(&after, "::") {
        t
    } else if crate::text::vec_starts_with(&after, ":=") || crate::text::vec_starts_with(
        &after,
        "(",
    ) {
        chars_of(super::qualified_string(record_var, &t).as_str())
    } else {
        t
    }
}

/// Inserts `x` into `v` after every element at least as long as it.
fn insert_by_len_vec(v: Vec<Vec<char>>, x: Vec<char>) -> (r: Vec<Vec<char>>)
    ensures
        seqs_of(r@) == insert_by_len(seqs_of(v@), x@),
{
    let ghost sv = seqs_of(v@);
    let mut k: usize = 0;
    assert(sv.skip(0) =~= sv);
    assert(sv.take(0) + insert_by_len(sv, x@) =~= insert_by_len(sv, x@));
    while k < v.len() && v[k].len() >= x.len()
        invariant
            k <= v@.len(),
            sv == seqs_of(v@),
            insert_by_len(sv, x@) == sv.take(k as int) + insert_by_len(sv.skip(k as int), x@),
        decreases v@.len() - k,
    {
        proof {
            let t = sv.skip(k as int);
            assert(t[0] == sv[k as int]);
            assert(t.drop_first() =~= sv.skip(k + 1));
            assert(sv.take(k + 1) =~= sv.take(k as int) + seq![sv[k as int]]);
        }
        k = k + 1;
    }
    let mut r = v;
    r.insert(k, x);
    proof {
        assert(seqs_of(r@) =~= sv.take(k as int) + seq![x@] + sv.skip(k as int));
        if k < sv.len() {
            assert(sv.skip(k as int)[0].len() < x@.len());
        }
        assert(insert_by_len(sv.skip(k as int), x@) =~= seq![x@] + sv.skip(k as int));
    }
    r
}

/// One field substituted through a line (see [`subst_field`]).
fn subst_field_vec(s: &Vec<char>, f: &Vec<char>, record_var: &str) -> (r: Vec<char>)
    ensures
        r@ == subst_field(s@, f@, record_var@),
{
    if f.len() == 0 {
        return crate::text::copy_range(s, 0, s.len());
    }
    let mut q = chars_of(record_var);
    q.push('.');
    crate::text::extend_all(&mut q, f);
    proof {
        reveal_strlit(".");
        assert(q@ =~= record_var@ + "."@ + f@);
    }
    let fl = crate::text::lower_vec(f);
    let mut out: Vec<char> = Vec::new();
    let mut i: usize = 0;
    while i < s.len()
        invariant
            f@.len() > 0,
            q@ == record_var@ + "."@ + f@,
            fl@ == lowercase(f@),
            out@ + subst_from(s@, i as int, f@, q@) == subst_from(s@, 0, f@, q@),
        decreases s@.len() - i,
    {
        let rest = crate::text::copy_range(s, i, s.len());
        assert(rest@ =~= s@.skip(i as int));
        let rl = crate::text::lower_vec(&rest);
        let mut matched = false;
        if crate::text::starts_with_at(&rl, 0, &fl) {
            assert(rl@.skip(0) =~= rl@);
            let prev_ok = i == 0 || (s[i - 1] != '.' && s[i - 1] != ':' && !crate::text::is_word_char(s[i - 1]));
            if prev_ok && f.len() <= s.len() - i {
                let me = i + f.len();
                let next_ok = me >= s.len() || !crate::text::is_word_char(s[me]);
                if next_ok {
                    let ghost o0 = out@;
                    crate::text::extend_all(&mut out, &q);
                    proof {
                        if me >= s@.len() {
                            assert(subst_from(s@, me as int, f@, q@) =~= Seq::<char>::empty());
                        }
                    }
                    assert(o0 + subst_from(s@, i as int, f@, q@) =~= out@ + subst_from(s@, me as int, f@, q@));
                    i = me;
                    matched = true;
                }
            } else if prev_ok {
                let ghost o0 = out@;
                crate::text::extend_all(&mut out, &q);
                assert(subst_from(s@, i + f@.len(), f@, q@) =~= Seq::<char>::empty());
                assert(o0 + subst_from(s@, i as int, f@, q@) =~= out@);
                i = s.len();
                matched = true;
            }
        } else {
            assert(rl@.skip(0) =~= rl@);
        }
        if !matched {
            let ghost o0 = out@;
            out.push(s[i]);
            assert(o0 + subst_from(s@, i as int, f@, q@) =~= out@ + subst_from(s@, i + 1, f@, q@));
            i = i + 1;
        }
    }
    assert(out@ + subst_from(s@, i as int, f@, q@) =~= out@);
    out
}

/// Substitutes every known field name standing alone in `line` (see
/// [`substituted`]).
pub fn substitute_field_names(line: &str, record_var: &str, field_names: &[String]) -> (r: String)
    ensures
        r@ == substituted(line@, record_var@, strs(field_names@)),
{
    let ghost fv = strs(field_names@);
    let mut sorted: Vec<Vec<char>> = Vec::new();
    let mut k: usize = 0;
    while k < field_names.len()
        invariant
            k <= field_names@.len(),
            fv == strs(field_names@),
            seqs_of(sorted@) == by_len_desc(fv.take(k as int)),
        decreases field_names@.len() - k,
    {
        assert(fv.take(k + 1).drop_last() =~= fv.take(k as int));
        assert(fv.take(k + 1).last() == field_names@[k as int]@);
        sorted = insert_by_len_vec(sorted, chars_of(field_names[k].as_str()));
        k = k + 1;
    }
    assert(fv.take(fv.len() as int) =~= fv);
    let ghost sv = seqs_of(sorted@);
    let mut result = chars_of(line);
    let mut j: usize = 0;
    while j < sorted.len()
        invariant
            j <= sorted@.len(),
            sv == seqs_of(sorted@),
            result@ == subst_all(line@, sv.take(j as int), record_var@),
        decreases sorted@.len() - j,
    {
        assert(sv.take(j + 1).drop_last() =~= sv.take(j as int));
        assert(sv.take(j + 1).last() == sorted@[j as int]@);
        result = subst_field_vec(&result, &sorted[j], record_var);
        j = j + 1;
    }
    assert(sv.take(sv.len() as int) =~= sv);
    string_of(&result)
}

/// Qualifies one line of a `with` body (see [`qualify_line_spec`]).
pub fn qualify_line(line: &str, record_var: &str, field_names: &[String]) -> (r: String)
    ensures
        r@ == qualify_line_spec(line@, record_var@, strs(field_names@)),
{
    let s = structural_line(line, record_var);
    if field_names.len() == 0 {
        return string_of(&s);
    }
    substitute_field_names(string_of(&s).as_str(), record_var, field_names)
}

/// The body re-indented and qualified line by line (blank and comment lines
/// only re-indented), each line ending in `\n`.
pub open spec fn qualified_body(
    lines: Seq<Seq<char>>,
    record_var: Seq<char>,
    indent: Seq<char>,
    fields: Seq<Seq<char>>,
) -> Seq<char>
    decreases lines.len(),
{
    if lines.len() == 0 {
        Seq::empty()
    } else {
        let t = trim(lines.last());
        let body = if t.len() == 0 || starts_with(t, "//"@) {
            t
        } else {
            qualify_line_spec(t, record_var, fields)
        };
        qualified_body(lines.drop_last(), record_var, indent, fields) + indent + body + "\n"@
    }
}

/// Qualifies every line of a `with` body (see [`qualified_body`]).
pub fn qualify_with_references(
    body: &str,
    record_var: &str,
    indent: &str,
    field_names: &[String],
) -> (r: String)
    ensures
        r@ == qualified_body(lines_of(body@), record_var@, indent@, strs(field_names@)),
{
    let v = chars_of(body);
    let ls = lines_vec(&v);
    let ghost lv = seqs_of(ls@);
    let mut result = String::new();
    let mut i: usize = 0;
    while i < ls.len()
        invariant
            i <= ls@.len(),
            lv == seqs_of(ls@),
            result@ == qualified_body(lv.take(i as int), record_var@, indent@, strs(field_names@)),
        decreases ls@.len() - i,
    {
        assert(lv.take(i + 1).drop_last() =~= lv.take(i as int));
        assert(lv.take(i + 1).last() == ls@[i as int]@);
        let t = crate::text::trim_vec(&ls[i]);
        crate::text::push_str(&mut result, indent);
        if t.len() == 0 || crate::text::vec_starts_with(&t, "//") {
            crate::text::push_chars(&mut result, &t);
        } else {
            let q = qualify_line(string_of(&t).as_str(), record_var, field_names);
            crate::text::push_str(&mut result, q.as_str());
        }
        crate::text::push_str(&mut result, "\n");
        i = i + 1;
    }
    assert(lv.take(lv.len() as int) =~= lv);
    result
}

} // verus!
