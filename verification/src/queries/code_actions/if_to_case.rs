//! Converting an if-else chain on one variable into a `case` statement.

use vstd::prelude::*;

use crate::text::{
    chars_of, char_is_ascii_digit, eq_ignore_ascii_case, eq_ignore_case, is_ascii_digit,
    lines_of, lines_vec, push_chars, push_str, seqs_of, trim, trim_vec,
};

verus! {

/// A trimmed operand is a literal: a number (a digit or `-`, then digits
/// and dots), a single-quoted string, or `true` or `false` in any ASCII
/// case.
pub open spec fn literal_text(t: Seq<char>) -> bool {
    ||| (t.len() > 0 && (is_ascii_digit(t[0]) || t[0] == '-') && forall|i: int|
        1 <= i < t.len() ==> is_ascii_digit(#[trigger] t[i]) || t[i] == '.')
    ||| (t.len() >= 2 && t[0] == '\'' && t.last() == '\'')
    ||| eq_ignore_ascii_case(t, "true"@)
    ||| eq_ignore_ascii_case(t, "false"@)
}

/// Whether an operand looks like a literal rather than a variable.
pub fn is_literal(s: &str) -> (b: bool)
    ensures
        b == literal_text(trim(s@)),
{
    let t = trim_vec(&chars_of(s));
    if t.len() > 0 && (char_is_ascii_digit(t[0]) || t[0] == '-') {
        let mut i: usize = 1;
        let mut ok = true;
        while i < t.len()
            invariant
                1 <= i <= t@.len(),
                ok == forall|k: int| 1 <= k < i ==> is_ascii_digit(#[trigger] t@[k]) || t@[k] == '.',
            decreases t@.len() - i,
        {
            if !(char_is_ascii_digit(t[i]) || t[i] == '.') {
                ok = false;
            }
            i = i + 1;
        }
        if ok {
            return true;
        }
    }
    if t.len() >= 2 && t[0] == '\'' && t[t.len() - 1] == '\'' {
        return true;
    }
    eq_ignore_case(&t, &chars_of("true")) || eq_ignore_case(&t, &chars_of("false"))
}

/// The operands of an equality, the variable first: swapped when only the
/// left one is a literal.
pub fn order_operands(left: String, right: String) -> (r: (String, String))
    ensures
        (literal_text(trim(left@)) && !literal_text(trim(right@))) ==> r == (right, left),
        !(literal_text(trim(left@)) && !literal_text(trim(right@))) ==> r == (left, right),
{
    if is_literal(left.as_str()) && !is_literal(right.as_str()) {
        (right, left)
    } else {
        (left, right)
    }
}

/// The lines of a trimmed body, each trimmed and indented by `ind`, each
/// ended by a line break.
pub open spec fn block_lines(ind: Seq<char>, lines: Seq<Seq<char>>) -> Seq<char>
    decreases lines.len(),
{
    if lines.len() == 0 {
        seq![]
    } else {
        block_lines(ind, lines.drop_last()) + ind + trim(lines.last()) + "\n"@
    }
}

/// The text of a body inside a `case` statement.
pub open spec fn block(ind: Seq<char>, body: Seq<char>) -> Seq<char> {
    block_lines(ind, lines_of(trim(body)))
}

/// The branches of a `case` statement (variable, value, body): `value:`
/// lines and their bodies.
pub open spec fn branches_text(ind: Seq<char>, branches: Seq<(Seq<char>, Seq<char>, Seq<char>)>) -> Seq<char>
    decreases branches.len(),
{
    if branches.len() == 0 {
        seq![]
    } else {
        let (_, value, body) = branches.last();
        branches_text(ind, branches.drop_last()) + ind + "    "@ + value + ":\n"@ + block(
            ind + "        "@,
            body,
        )
    }
}

/// A `case` statement on `var` at indentation `ind`.
pub open spec fn case_text(
    ind: Seq<char>,
    var: Seq<char>,
    branches: Seq<(Seq<char>, Seq<char>, Seq<char>)>,
    else_body: Option<Seq<char>>,
) -> Seq<char> {
    ind + "case "@ + var + " of\n"@ + branches_text(ind, branches) + match else_body {
        Some(e) => ind + "    "@ + "else\n"@ + block(ind + "        "@, e),
        None => seq![],
    } + ind + "end\n"@
}

fn push_block(out: &mut String, ind: &str, body: &str)
    ensures
        final(out)@ == old(out)@ + block(ind@ + "    "@ + "    "@, body@),
{
    let lines = lines_vec(&trim_vec(&chars_of(body)));
    let ghost ls = seqs_of(lines@);
    let ghost o0 = out@;
    let ghost bi = ind@ + "    "@ + "    "@;
    let mut k: usize = 0;
    assert(o0 + block_lines(bi, ls.take(0)) =~= o0);
    while k < lines.len()
        invariant
            k <= lines@.len(),
            ls == seqs_of(lines@),
            ls == lines_of(trim(body@)),
            bi == ind@ + "    "@ + "    "@,
            out@ == o0 + block_lines(bi, ls.take(k as int)),
        decreases lines@.len() - k,
    {
        assert(ls.take(k + 1).drop_last() =~= ls.take(k as int));
        assert(ls.take(k + 1).last() == lines@[k as int]@);
        let t = trim_vec(&lines[k]);
        let ghost before = out@;
        push_str(out, ind);
        push_str(out, "    ");
        push_str(out, "    ");
        push_chars(out, &t);
        push_str(out, "\n");
        assert(out@ =~= before + bi + t@ + "\n"@);
        k = k + 1;
    }
    assert(ls.take(ls.len() as int) =~= ls);
}

/// Branches as plain values.
pub open spec fn branches_view(v: Seq<(String, String, String)>) -> Seq<(Seq<char>, Seq<char>, Seq<char>)> {
    v.map_values(|b: (String, String, String)| (b.0@, b.1@, b.2@))
}

/// The `case` statement that replaces an if-else chain on `var_name`: the
/// values and bodies of its branches (bodies trimmed, each line trimmed and
/// indented two levels deeper), then the final `else` body when there is one.
pub fn case_statement_text(
    indent: &str,
    var_name: &str,
    branches: &Vec<(String, String, String)>,
    else_body: &Option<String>,
) -> (r: String)
    ensures
        r@ == case_text(
            indent@,
            var_name@,
            branches_view(branches@),
            match else_body {
                Some(e) => Some(e@),
                None => None,
            },
        ),
{
    let ghost bv = branches_view(branches@);
    let mut out = String::new();
    push_str(&mut out, indent);
    push_str(&mut out, "case ");
    push_str(&mut out, var_name);
    push_str(&mut out, " of\n");
    let ghost head = out@;
    let mut k: usize = 0;
    assert(head + branches_text(indent@, bv.take(0)) =~= head);
    while k < branches.len()
        invariant
            k <= branches@.len(),
            bv == branches_view(branches@),
            out@ == head + branches_text(indent@, bv.take(k as int)),
        decreases branches@.len() - k,
    {
        assert(bv.take(k + 1).drop_last() =~= bv.take(k as int));
        assert(bv.take(k + 1).last() == (
            branches@[k as int].0@,
            branches@[k as int].1@,
            branches@[k as int].2@,
        ));
        let ghost before = out@;
        push_str(&mut out, indent);
        push_str(&mut out, "    ");
        push_str(&mut out, branches[k].1.as_str());
        push_str(&mut out, ":\n");
        push_block(&mut out, indent, branches[k].2.as_str());
        assert(out@ =~= before + indent@ + "    "@ + branches@[k as int].1@ + ":\n"@ + block(
            indent@ + "        "@,
            branches@[k as int].2@,
        )) by {
            reveal_strlit("    ");
            reveal_strlit("        ");
            assert(indent@ + "    "@ + "    "@ =~= indent@ + "        "@);
        }
        k = k + 1;
    }
    assert(bv.take(bv.len() as int) =~= bv);
    let ghost mid = out@;
    match else_body {
        Some(eb) => {
            push_str(&mut out, indent);
            push_str(&mut out, "    ");
            push_str(&mut out, "else\n");
            push_block(&mut out, indent, eb.as_str());
            proof {
                reveal_strlit("    ");
                reveal_strlit("        ");
                assert(indent@ + "    "@ + "    "@ =~= indent@ + "        "@);
            }
        },
        None => {},
    }
    push_str(&mut out, indent);
    push_str(&mut out, "end\n");
    proof {
        let tail = match else_body {
            Some(e) => indent@ + "    "@ + "else\n"@ + block(indent@ + "        "@, e@),
            None => Seq::<char>::empty(),
        };
        assert(out@ =~= head + branches_text(indent@, bv) + tail + indent@ + "end\n"@);
    }
    out
}

} // verus!
