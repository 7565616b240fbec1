//! Interface stub generation: for each interface a codeunit implements, a
//! refactoring that inserts a stub for every interface method the codeunit
//! does not declare yet.

use vstd::prelude::*;

use super::super::{Position, Range, TextEdit, WorkspaceEdit};
use super::{detect_indent, indent_at, CodeActionEntry, CodeActionKind};
use crate::text::{chars_of, eq_ignore_ascii_case, eq_ignore_case, lowercase, push_str, to_lower, vec_eq};

verus! {

/// A parameter of an interface method.
#[derive(Debug, Clone)]
pub struct StubParam {
    pub name: String,
    pub param_type: String,
    /// Passed by reference (`var`).
    pub is_var: bool,
}

/// A method an interface declares.
#[derive(Debug, Clone)]
pub struct InterfaceMethod {
    pub name: String,
    pub parameters: Vec<StubParam>,
    pub return_type: Option<String>,
}

/// An interface known to the symbol index, with its methods.
#[derive(Debug, Clone)]
pub struct InterfaceSymbol {
    pub name: String,
    pub methods: Vec<InterfaceMethod>,
}

/// `name: Type`, or `var name: Type` for a parameter passed by reference.
pub open spec fn param_text(p: StubParam) -> Seq<char> {
    if p.is_var {
        "var "@ + p.name@ + ": "@ + p.param_type@
    } else {
        p.name@ + ": "@ + p.param_type@
    }
}

/// The parameters, separated by `; `.
pub open spec fn params_text(ps: Seq<StubParam>) -> Seq<char>
    decreases ps.len(),
{
    if ps.len() == 0 {
        seq![]
    } else if ps.len() == 1 {
        param_text(ps[0])
    } else {
        params_text(ps.drop_last()) + "; "@ + param_text(ps.last())
    }
}

/// The stub of one method: its header, then a body that raises
/// `Not implemented`, each line at `indent`.
pub open spec fn method_stub(indent: Seq<char>, m: InterfaceMethod) -> Seq<char> {
    "\n"@ + indent + "procedure "@ + m.name@ + "("@ + params_text(m.parameters@) + ")"@ + (
    match m.return_type {
        Some(r) => ": "@ + r@,
        None => seq![],
    }) + "\n"@ + indent + "begin\n"@ + indent + "    Error('Not implemented');\n"@ + indent
        + "end;\n"@
}

/// The codeunit already declares a procedure called `name` (ignoring ASCII
/// case).
pub open spec fn declared(existing: Seq<Seq<char>>, name: Seq<char>) -> bool {
    exists|k: int| 0 <= k < existing.len() && eq_ignore_ascii_case(#[trigger] existing[k], name)
}

/// The stubs of the first `n` methods that the codeunit does not declare.
pub open spec fn stubs_upto(
    indent: Seq<char>,
    ms: Seq<InterfaceMethod>,
    existing: Seq<Seq<char>>,
    n: int,
) -> Seq<char>
    decreases n,
{
    if n <= 0 || n > ms.len() {
        seq![]
    } else if declared(existing, ms[n - 1].name@) {
        stubs_upto(indent, ms, existing, n - 1)
    } else {
        stubs_upto(indent, ms, existing, n - 1) + method_stub(indent, ms[n - 1])
    }
}

/// Some method of `ms` is not declared by the codeunit.
pub open spec fn any_missing(ms: Seq<InterfaceMethod>, existing: Seq<Seq<char>>) -> bool {
    exists|i: int| 0 <= i < ms.len() && !declared(existing, (#[trigger] ms[i]).name@)
}

/// The index of the first interface at or after `i` whose lowercase name is
/// `lname`.
pub open spec fn find_from(ifaces: Seq<InterfaceSymbol>, lname: Seq<char>, i: int) -> Option<int>
    decreases ifaces.len() - i,
{
    if i < 0 || i >= ifaces.len() {
        None
    } else if lowercase(ifaces[i].name@) == lname {
        Some(i)
    } else {
        find_from(ifaces, lname, i + 1)
    }
}

proof fn lemma_find_from(ifaces: Seq<InterfaceSymbol>, lname: Seq<char>, i: int)
    ensures
        find_from(ifaces, lname, i) matches Some(k) ==> 0 <= i <= k < ifaces.len(),
    decreases ifaces.len() - i,
{
    if 0 <= i < ifaces.len() && lowercase(ifaces[i].name@) != lname {
        lemma_find_from(ifaces, lname, i + 1);
    }
}

/// One planned action: its title and the text it inserts.
pub type StubPlan = (Seq<char>, Seq<char>);

/// The actions for the first `n` implemented interfaces: one for each that
/// the index knows and that has a method the codeunit lacks, titled
/// `Implement interface '<name>'`.
pub open spec fn plan_upto(
    indent: Seq<char>,
    names: Seq<Seq<char>>,
    existing: Seq<Seq<char>>,
    ifaces: Seq<InterfaceSymbol>,
    n: int,
) -> Seq<StubPlan>
    decreases n,
{
    if n <= 0 || n > names.len() {
        seq![]
    } else {
        let prev = plan_upto(indent, names, existing, ifaces, n - 1);
        match find_from(ifaces, lowercase(names[n - 1]), 0) {
            None => prev,
            Some(k) => {
                let ms = ifaces[k].methods@;
                if any_missing(ms, existing) {
                    prev.push(
                        (
                            "Implement interface '"@ + names[n - 1] + "'"@,
                            stubs_upto(indent, ms, existing, ms.len() as int),
                        ),
                    )
                } else {
                    prev
                }
            },
        }
    }
}

/// `a` is a refactoring titled `title` whose one edit, in document `uri`,
/// inserts `text` at the start of line `line`.
pub open spec fn is_insertion_action(
    a: CodeActionEntry,
    uri: Seq<char>,
    line: u32,
    title: Seq<char>,
    text: Seq<char>,
) -> bool {
    &&& a.title@ == title
    &&& a.kind == CodeActionKind::Refactor
    &&& !a.is_preferred
    &&& a.edit matches Some(ws) && ws.changes@.len() == 1 && ws.changes@[0].0@ == uri
        && ws.changes@[0].1@.len() == 1 && ws.changes@[0].1@[0].new_text@ == text
        && ws.changes@[0].1@[0].range == (Range {
        start: Position { line, character: 0 },
        end: Position { line, character: 0 },
    })
}

/// An action whose one edit inserts `text` at the start of line `line` of
/// document `uri`.
pub fn insertion_action(uri: &str, line: u32, title: String, text: String, kind: CodeActionKind) -> (r:
    CodeActionEntry)
    ensures
        r.title@ == title@,
        r.kind == kind,
        !r.is_preferred,
        r.edit matches Some(ws) && ws.changes@.len() == 1 && ws.changes@[0].0@ == uri@
            && ws.changes@[0].1@.len() == 1 && ws.changes@[0].1@[0].new_text@ == text@
            && ws.changes@[0].1@[0].range == (Range {
            start: Position { line, character: 0 },
            end: Position { line, character: 0 },
        }),
{
    let edit = TextEdit {
        range: Range { start: Position { line, character: 0 }, end: Position { line, character: 0 } },
        new_text: text,
    };
    let mut edits: Vec<TextEdit> = Vec::new();
    edits.push(edit);
    let mut changes: Vec<(String, Vec<TextEdit>)> = Vec::new();
    changes.push((uri.to_string(), edits));
    CodeActionEntry { title, kind, edit: Some(WorkspaceEdit { changes }), is_preferred: false }
}

fn push_param(s: &mut String, p: &StubParam)
    ensures
        final(s)@ == old(s)@ + param_text(*p),
{
    if p.is_var {
        push_str(s, "var ");
    }
    push_str(s, p.name.as_str());
    push_str(s, ": ");
    push_str(s, p.param_type.as_str());
    proof {
        reveal_strlit("var ");
        reveal_strlit(": ");
        if p.is_var {
            assert(final(s)@ =~= old(s)@ + param_text(*p));
        } else {
            assert(final(s)@ =~= old(s)@ + param_text(*p));
        }
    }
}

fn push_method_stub(s: &mut String, indent: &str, m: &InterfaceMethod)
    ensures
        final(s)@ == old(s)@ + method_stub(indent@, *m),
{
    let ghost s0 = s@;
    push_str(s, "\n");
    push_str(s, indent);
    push_str(s, "procedure ");
    push_str(s, m.name.as_str());
    push_str(s, "(");
    let ghost head = s@;
    let ps = &m.parameters;
    let mut i: usize = 0;
    assert(ps@.take(0) =~= Seq::<StubParam>::empty());
    while i < ps.len()
        invariant
            i <= ps@.len(),
            s@ == head + params_text(ps@.take(i as int)),
        decreases ps@.len() - i,
    {
        let ghost before = s@;
        if i > 0 {
            push_str(s, "; ");
        }
        push_param(s, &ps[i]);
        proof {
            reveal_strlit("; ");
            let t = ps@.take(i + 1);
            assert(t.drop_last() =~= ps@.take(i as int));
            assert(t.last() == ps@[i as int]);
            if i == 0 {
                assert(t =~= seq![ps@[0]]);
                assert(s@ =~= head + params_text(t));
            } else {
                assert(s@ =~= head + params_text(t));
            }
        }
        i = i + 1;
    }
    assert(ps@.take(ps@.len() as int) =~= ps@);
    push_str(s, ")");
    match &m.return_type {
        Some(r) => {
            push_str(s, ": ");
            push_str(s, r.as_str());
        },
        None => {},
    }
    push_str(s, "\n");
    push_str(s, indent);
    push_str(s, "begin\n");
    push_str(s, indent);
    push_str(s, "    Error('Not implemented');\n");
    push_str(s, indent);
    push_str(s, "end;\n");
    proof {
        reveal_strlit(": ");
        assert(s@ =~= s0 + method_stub(indent@, *m));
    }
}

fn is_declared(existing: &Vec<Vec<char>>, name: &Vec<char>) -> (b: bool)
    ensures
        b == declared(existing@.map_values(|v: Vec<char>| v@), name@),
{
    let ghost ex = existing@.map_values(|v: Vec<char>| v@);
    let mut k: usize = 0;
    while k < existing.len()
        invariant
            k <= existing@.len(),
            ex == existing@.map_values(|v: Vec<char>| v@),
            forall|j: int| 0 <= j < k ==> !eq_ignore_ascii_case(#[trigger] ex[j], name@),
        decreases existing@.len() - k,
    {
        if eq_ignore_case(&existing[k], name) {
            assert(ex[k as int] == existing@[k as int]@);
            return true;
        }
        assert(ex[k as int] == existing@[k as int]@);
        k = k + 1;
    }
    false
}

/// The stubs of the methods of `ms` the codeunit does not declare, and
/// whether there is any.
fn stubs_of(indent: &str, ms: &Vec<InterfaceMethod>, existing: &Vec<Vec<char>>) -> (r: (String, bool))
    ensures
        r.0@ == stubs_upto(indent@, ms@, existing@.map_values(|v: Vec<char>| v@), ms@.len() as int),
        r.1 == any_missing(ms@, existing@.map_values(|v: Vec<char>| v@)),
{
    let ghost ex = existing@.map_values(|v: Vec<char>| v@);
    let mut s = String::new();
    let mut any = false;
    let mut i: usize = 0;
    while i < ms.len()
        invariant
            i <= ms@.len(),
            ex == existing@.map_values(|v: Vec<char>| v@),
            s@ == stubs_upto(indent@, ms@, ex, i as int),
            any == exists|j: int| 0 <= j < i && !declared(ex, (#[trigger] ms@[j]).name@),
        decreases ms@.len() - i,
    {
        let name = chars_of(ms[i].name.as_str());
        if !is_declared(existing, &name) {
            push_method_stub(&mut s, indent, &ms[i]);
            any = true;
        }
        proof {
            assert forall|j: int| 0 <= j < i + 1 && !declared(ex, (#[trigger] ms@[j]).name@) implies (
            j < i && !declared(ex, ms@[j].name@)) || j == i by {}
        }
        i = i + 1;
    }
    (s, any)
}

/// The index of the first interface whose lowercase name is `lname`.
fn find_interface(ifaces: &Vec<InterfaceSymbol>, lname: &Vec<char>) -> (r: Option<usize>)
    ensures
        match r {
            Some(k) => find_from(ifaces@, lname@, 0) == Some(k as int),
            None => find_from(ifaces@, lname@, 0) is None,
        },
{
    let mut i: usize = 0;
    while i < ifaces.len()
        invariant
            i <= ifaces@.len(),
            find_from(ifaces@, lname@, 0) == find_from(ifaces@, lname@, i as int),
        decreases ifaces@.len() - i,
    {
        let l = chars_of(to_lower(ifaces[i].name.as_str()).as_str());
        if vec_eq(&l, lname) {
            return Some(i);
        }
        i = i + 1;
    }
    None
}

/// The "Implement interface" refactorings for a codeunit: `interface_names`
/// are the interfaces it implements (in order), `existing_procs` the
/// procedures it declares, `insert_line` the line the stubs go before, and
/// `interfaces` the interfaces the symbol index knows. One action per
/// implemented interface that the index knows (first match by lowercase
/// name) and that has a method the codeunit lacks; its edit inserts one
/// stub per missing method, indented like the line before `insert_line`.
pub fn implement_interface_actions(
    uri: &str,
    text: &str,
    interface_names: &Vec<String>,
    existing_procs: &Vec<String>,
    insert_line: u32,
    interfaces: &Vec<InterfaceSymbol>,
) -> (r: Vec<CodeActionEntry>)
    ensures
        ({
            let indent = indent_at(text@, if insert_line > 0 { insert_line - 1 } else { 0 });
            let plan = plan_upto(
                indent,
                interface_names@.map_values(|s: String| s@),
                existing_procs@.map_values(|s: String| s@),
                interfaces@,
                interface_names@.len() as int,
            );
            &&& r@.len() == plan.len()
            &&& forall|i: int|
                0 <= i < r@.len() ==> is_insertion_action(
                    #[trigger] r@[i],
                    uri@,
                    insert_line,
                    plan[i].0,
                    plan[i].1,
                )
        }),
{
    let indent = detect_indent(text, if insert_line > 0 { insert_line - 1 } else { 0 });
    let ghost names = interface_names@.map_values(|s: String| s@);
    let ghost ex = existing_procs@.map_values(|s: String| s@);
    let mut existing: Vec<Vec<char>> = Vec::new();
    let mut j: usize = 0;
    while j < existing_procs.len()
        invariant
            j <= existing_procs@.len(),
            existing@.len() == j,
            forall|t: int| 0 <= t < j ==> (#[trigger] existing@[t])@ == existing_procs@[t]@,
        decreases existing_procs@.len() - j,
    {
        existing.push(chars_of(existing_procs[j].as_str()));
        j = j + 1;
    }
    assert(existing@.map_values(|v: Vec<char>| v@) =~= ex);
    let ghost indent_v = indent@;
    let mut out: Vec<CodeActionEntry> = Vec::new();
    let mut i: usize = 0;
    while i < interface_names.len()
        invariant
            i <= interface_names@.len(),
            names == interface_names@.map_values(|s: String| s@),
            existing@.map_values(|v: Vec<char>| v@) == ex,
            indent_v == indent@,
            out@.len() == plan_upto(indent_v, names, ex, interfaces@, i as int).len(),
            forall|t: int|
                0 <= t < out@.len() ==> is_insertion_action(
                    #[trigger] out@[t],
                    uri@,
                    insert_line,
                    plan_upto(indent_v, names, ex, interfaces@, i as int)[t].0,
                    plan_upto(indent_v, names, ex, interfaces@, i as int)[t].1,
                ),
        decreases interface_names@.len() - i,
    {
        let ghost prev = plan_upto(indent_v, names, ex, interfaces@, i as int);
        let lname = chars_of(to_lower(interface_names[i].as_str()).as_str());
        assert(names[i as int] == interface_names@[i as int]@);
        assert(lname@ == lowercase(names[i as int]));
        proof {
            lemma_find_from(interfaces@, lname@, 0);
        }
        match find_interface(interfaces, &lname) {
            None => {
                assert(plan_upto(indent_v, names, ex, interfaces@, i + 1) == prev);
            },
            Some(k) => {
                let (stub, any) = stubs_of(indent.as_str(), &interfaces[k].methods, &existing);
                if any {
                    let mut title = String::new();
                    push_str(&mut title, "Implement interface '");
                    push_str(&mut title, interface_names[i].as_str());
                    push_str(&mut title, "'");
                    let a = insertion_action(uri, insert_line, title, stub, CodeActionKind::Refactor);
                    let ghost o0 = out@;
                    out.push(a);
                    proof {
                        let cur = plan_upto(indent_v, names, ex, interfaces@, i + 1);
                        assert(cur == prev.push(
                            (
                                "Implement interface '"@ + names[i as int] + "'"@,
                                stubs_upto(
                                    indent_v,
                                    interfaces@[k as int].methods@,
                                    ex,
                                    interfaces@[k as int].methods@.len() as int,
                                ),
                            ),
                        ));
                        assert forall|t: int| 0 <= t < out@.len() implies is_insertion_action(
                            #[trigger] out@[t],
                            uri@,
                            insert_line,
                            cur[t].0,
                            cur[t].1,
                        ) by {
                            if t < prev.len() {
                                assert(out@[t] == o0[t]);
                            }
                        }
                    }
                } else {
                    assert(plan_upto(indent_v, names, ex, interfaces@, i + 1) == prev);
                }
            },
        }
        i = i + 1;
    }
    out
}

} // verus!
