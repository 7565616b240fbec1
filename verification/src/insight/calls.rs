//! Call-site and attribute analysis of AL procedures: record operations that
//! fire table triggers, the arguments of event attributes, the role a
//! procedure plays in the event graph, and the fan-out threshold that picks
//! the files whose call edges are resolved eagerly.

use vstd::prelude::*;

use crate::text::{
    chars_of, contains, copy_range, eq_ignore_ascii_case, eq_ignore_case, find, find_char_in,
    first_index, index_of_char, lemma_first_index, lowercase, push_str, rfind_char, rindex_of_char, seqs_of,
    split_on, split_on_vec, string_of, strip_char, strip_char_vec, strs, to_lower, trim, trim_vec,
    vec_eq,
};

verus! {

// ---------------------------------------------------------------------------
// Record operations and call sites
// ---------------------------------------------------------------------------

/// A record operation that can fire table triggers.
#[derive(Debug, Clone, Copy, PartialEq, Eq, Structural)]
pub enum RecordOp {
    Insert,
    Modify,
    Delete,
    Validate,
}

/// The record operation that a lowercased method name denotes.
pub open spec fn record_op_named(l: Seq<char>) -> Option<RecordOp> {
    if l == "insert"@ {
        Some(RecordOp::Insert)
    } else if l == "modify"@ {
        Some(RecordOp::Modify)
    } else if l == "delete"@ {
        Some(RecordOp::Delete)
    } else if l == "validate"@ {
        Some(RecordOp::Validate)
    } else {
        None
    }
}

impl RecordOp {
    /// Parse from a method name, ignoring case: the name is lowercased as
    /// `str::to_lowercase` does and compared with the four operation names.
    pub fn from_method_name(name: &str) -> (r: Option<RecordOp>)
        ensures
            r == record_op_named(lowercase(name@)),
    {
        let l = to_lower(name);
        let v = chars_of(l.as_str());
        if vec_eq(&v, &chars_of("insert")) {
            Some(RecordOp::Insert)
        } else if vec_eq(&v, &chars_of("modify")) {
            Some(RecordOp::Modify)
        } else if vec_eq(&v, &chars_of("delete")) {
            Some(RecordOp::Delete)
        } else if vec_eq(&v, &chars_of("validate")) {
            Some(RecordOp::Validate)
        } else {
            None
        }
    }
}

/// A call site found in a procedure body.
#[derive(Debug, Clone)]
pub enum CallSite {
    /// A bare call: `Foo()` or `Foo(args)`.
    BareCall { name: String },
    /// A member or scope call: `Obj.Method()` or `Type::Method()`.
    MemberCall { object: String, method: String },
    /// A record operation: `Rec.Insert(true)`, `Rec.Modify()`, `Rec.Delete(false)`,
    /// `Rec.Validate(...)`.
    RecordOp { variable: String, op: RecordOp, run_trigger: bool },
}

/// The capitalised name of a record operation.
pub open spec fn op_word(op: RecordOp) -> Seq<char> {
    match op {
        RecordOp::Insert => "Insert"@,
        RecordOp::Modify => "Modify"@,
        RecordOp::Delete => "Delete"@,
        RecordOp::Validate => "Validate"@,
    }
}

/// The table events a record operation fires: `OnBefore{Op}Event` and
/// `OnAfter{Op}Event`.
pub open spec fn event_names(op: RecordOp) -> (Seq<char>, Seq<char>) {
    ("OnBefore"@ + op_word(op) + "Event"@, "OnAfter"@ + op_word(op) + "Event"@)
}

/// The names of the before and after table events of a record operation.
pub fn record_op_event_names(op: RecordOp) -> (r: (String, String))
    ensures
        r.0@ == event_names(op).0,
        r.1@ == event_names(op).1,
{
    let w: &str = match op {
        RecordOp::Insert => "Insert",
        RecordOp::Modify => "Modify",
        RecordOp::Delete => "Delete",
        RecordOp::Validate => "Validate",
    };
    assert(w@ == op_word(op));
    let mut before = String::new();
    push_str(&mut before, "OnBefore");
    push_str(&mut before, w);
    push_str(&mut before, "Event");
    let mut after = String::new();
    push_str(&mut after, "OnAfter");
    push_str(&mut after, w);
    push_str(&mut after, "Event");
    (before, after)
}

// ---------------------------------------------------------------------------
// Attribute arguments
// ---------------------------------------------------------------------------

/// The text between the first `(` and the last `)` of an attribute, when
/// both are there and the first comes before the last with room between.
pub open spec fn attr_inner(t: Seq<char>) -> Option<Seq<char>> {
    let o = index_of_char(t, '(');
    if o >= t.len() {
        None
    } else {
        match rindex_of_char(t, ')') {
            None => None,
            Some(e) => if e <= o + 1 {
                None
            } else {
                Some(t.subrange(o + 1 as int, e as int))
            },
        }
    }
}

pub(crate) fn attr_inner_of(t: &Vec<char>) -> (r: Option<Vec<char>>)
    ensures
        match r {
            Some(v) => attr_inner(t@) == Some(v@),
            None => attr_inner(t@) is None,
        },
{
    let o = find_char_in(t, '(', 0, t.len());
    assert(t@.subrange(0, t@.len() as int) =~= t@);
    if o == t.len() {
        return None;
    }
    let e = match rfind_char(t, ')') {
        Some(e) => e,
        None => {
            return None;
        },
    };
    if e <= o + 1 {
        return None;
    }
    Some(copy_range(t, o + 1, e))
}

/// The pieces of `ps`, trimmed, without those that trim to nothing.
pub open spec fn trimmed_nonempty(ps: Seq<Seq<char>>) -> Seq<Seq<char>>
    decreases ps.len(),
{
    if ps.len() == 0 {
        seq![]
    } else {
        let r = trimmed_nonempty(ps.drop_last());
        let t = trim(ps.last());
        if t.len() > 0 {
            r.push(t)
        } else {
            r
        }
    }
}

/// The arguments of an attribute split at every comma, trimmed, empty ones
/// dropped: `[IntegrationEvent(false, false)]` gives `false`, `false`.
pub open spec fn plain_attr_args(t: Seq<char>) -> Seq<Seq<char>> {
    match attr_inner(t) {
        None => seq![],
        Some(inner) => trimmed_nonempty(split_on(inner, ',')),
    }
}

/// The arguments of an attribute split at every comma (no regard for quotes
/// or nesting), trimmed, empty ones dropped.
pub fn parse_attr_args_from_text(attr_text: &str) -> (r: Vec<String>)
    ensures
        strs(r@) == plain_attr_args(attr_text@),
{
    let t = chars_of(attr_text);
    let inner = match attr_inner_of(&t) {
        Some(v) => v,
        None => {
            return Vec::new();
        },
    };
    let pieces = split_on_vec(&inner, ',');
    let ghost ps = seqs_of(pieces@);
    let mut out: Vec<String> = Vec::new();
    let mut j: usize = 0;
    assert(ps.take(0) =~= Seq::<Seq<char>>::empty());
    while j < pieces.len()
        invariant
            j <= pieces@.len(),
            ps == seqs_of(pieces@),
            ps == split_on(inner@, ','),
            strs(out@) == trimmed_nonempty(ps.take(j as int)),
        decreases pieces@.len() - j,
    {
        let t = trim_vec(&pieces[j]);
        assert(ps.take(j + 1).drop_last() =~= ps.take(j as int));
        assert(ps.take(j + 1).last() == pieces@[j as int]@);
        if t.len() > 0 {
            let ghost o0 = strs(out@);
            out.push(string_of(&t));
            assert(strs(out@) =~= o0.push(t@));
        }
        j = j + 1;
    }
    assert(ps.take(pieces@.len() as int) =~= ps);
    out
}

/// The arguments that a scan of `s` from `i` yields, given the arguments
/// found so far, the argument being read, the bracket depth and whether the
/// scan is inside a single- or double-quoted string.  A comma ends an
/// argument only outside quotes and brackets; a doubled `"` inside a
/// double-quoted string is an escaped quote.  Each argument is trimmed; the
/// last one is kept only when it is not blank.
pub open spec fn scan_args(
    s: Seq<char>,
    i: int,
    args: Seq<Seq<char>>,
    cur: Seq<char>,
    depth: int,
    sq: bool,
    dq: bool,
) -> Seq<Seq<char>>
    decreases s.len() - i,
{
    if i >= s.len() || i < 0 {
        if trim(cur).len() > 0 {
            args.push(trim(cur))
        } else {
            args
        }
    } else {
        let ch = s[i];
        if ch == '\'' && !dq {
            scan_args(s, i + 1, args, cur.push(ch), depth, !sq, dq)
        } else if ch == '"' && !sq {
            if dq {
                if i + 1 < s.len() && s[i + 1] == '"' {
                    scan_args(s, i + 2, args, cur.push('"').push('"'), depth, sq, true)
                } else {
                    scan_args(s, i + 1, args, cur.push(ch), depth, sq, false)
                }
            } else {
                scan_args(s, i + 1, args, cur.push(ch), depth, sq, true)
            }
        } else if ch == '(' && !sq && !dq {
            scan_args(s, i + 1, args, cur.push(ch), depth + 1, sq, dq)
        } else if ch == ')' && !sq && !dq {
            scan_args(s, i + 1, args, cur.push(ch), depth - 1, sq, dq)
        } else if ch == ',' && !sq && !dq && depth == 0 {
            scan_args(s, i + 1, args.push(trim(cur)), seq![], depth, sq, dq)
        } else {
            scan_args(s, i + 1, args, cur.push(ch), depth, sq, dq)
        }
    }
}

/// The comma-separated arguments of an attribute, commas inside quotes or
/// brackets not counting.
pub open spec fn attribute_args(t: Seq<char>) -> Seq<Seq<char>> {
    match attr_inner(t) {
        None => seq![],
        Some(inner) => scan_args(inner, 0, seq![], seq![], 0, false, false),
    }
}

fn scan_attribute_args(s: &Vec<char>) -> (r: Vec<String>)
    ensures
        strs(r@) == scan_args(s@, 0, seq![], seq![], 0, false, false),
{
    let mut args: Vec<String> = Vec::new();
    let mut cur: Vec<char> = Vec::new();
    let mut depth: i128 = 0;
    let mut sq = false;
    let mut dq = false;
    let mut i: usize = 0;
    assert(strs(args@) =~= Seq::<Seq<char>>::empty());
    assert(cur@ =~= Seq::<char>::empty());
    while i < s.len()
        invariant
            i <= s@.len(),
            -(i as int) <= depth <= i,
            scan_args(s@, 0, seq![], seq![], 0, false, false) == scan_args(
                s@,
                i as int,
                strs(args@),
                cur@,
                depth as int,
                sq,
                dq,
            ),
        decreases s@.len() - i,
    {
        let ch = s[i];
        if ch == '\'' && !dq {
            sq = !sq;
            cur.push(ch);
            i = i + 1;
        } else if ch == '"' && !sq {
            if dq {
                if i + 1 < s.len() && s[i + 1] == '"' {
                    cur.push('"');
                    cur.push('"');
                    i = i + 2;
                } else {
                    dq = false;
                    cur.push(ch);
                    i = i + 1;
                }
            } else {
                dq = true;
                cur.push(ch);
                i = i + 1;
            }
        } else if ch == '(' && !sq && !dq {
            depth = depth + 1;
            cur.push(ch);
            i = i + 1;
        } else if ch == ')' && !sq && !dq {
            depth = depth - 1;
            cur.push(ch);
            i = i + 1;
        } else if ch == ',' && !sq && !dq && depth == 0 {
            let t = trim_vec(&cur);
            let ghost a0 = strs(args@);
            args.push(string_of(&t));
            assert(strs(args@) =~= a0.push(t@));
            cur = Vec::new();
            assert(cur@ =~= Seq::<char>::empty());
            i = i + 1;
        } else {
            cur.push(ch);
            i = i + 1;
        }
    }
    let t = trim_vec(&cur);
    if t.len() > 0 {
        let ghost a0 = strs(args@);
        args.push(string_of(&t));
        assert(strs(args@) =~= a0.push(t@));
    }
    args
}

/// The comma-separated arguments of an attribute text such as
/// `[Attr(a, b, c)]`, respecting brackets and single- and double-quoted
/// strings (with `""` as an escaped quote).
pub fn extract_attribute_args(attr_text: &str) -> (r: Vec<String>)
    ensures
        strs(r@) == attribute_args(attr_text@),
{
    let t = chars_of(attr_text);
    match attr_inner_of(&t) {
        Some(inner) => scan_attribute_args(&inner),
        None => Vec::new(),
    }
}

/// What follows the first `::` of `t`, or `t` when it has none.
pub open spec fn after_scope(t: Seq<char>) -> Seq<char> {
    if contains(t, "::"@) {
        t.skip(first_index(t, "::"@) + 2)
    } else {
        t
    }
}

/// An attribute argument cleaned of a type prefix such as `Codeunit::` and
/// of surrounding `"` and then `'` quotes, and trimmed.
pub open spec fn cleaned_arg(s: Seq<char>) -> Seq<char> {
    trim(strip_char(strip_char(after_scope(trim(s)), '"'), '\''))
}

/// Clean an attribute argument: trim it, drop everything up to and
/// including the first `::`, strip surrounding `"` and then `'`, trim again.
pub fn clean_attr_arg(s: &str) -> (r: String)
    ensures
        r@ == cleaned_arg(s@),
{
    let t = trim_vec(&chars_of(s));
    let sep = chars_of("::");
    proof {
        reveal_strlit("::");
    }
    let u = match find(&t, &sep) {
        Some(i) => {
            proof {
                lemma_first_index(t@, "::"@, i as int);
                assert("::"@.len() == 2);
                assert(t@.subrange(i + 2, t@.len() as int) =~= t@.skip(i + 2));
            }
            assert(i + 2 <= t.len());
            copy_range(&t, i + 2, t.len())
        },
        None => t,
    };
    let a = strip_char_vec(&u, '"');
    let b = strip_char_vec(&a, '\'');
    string_of(&trim_vec(&b))
}

/// Attribute names and their texts, as character sequences.
pub open spec fn attr_pairs(v: Seq<(String, String)>) -> Seq<(Seq<char>, Seq<char>)> {
    v.map_values(|p: (String, String)| (p.0@, p.1@))
}

/// The `k`-th argument cleaned, or nothing when there are fewer.
pub open spec fn cleaned_arg_at(args: Seq<Seq<char>>, k: int) -> Seq<char> {
    if 0 <= k < args.len() {
        cleaned_arg(args[k])
    } else {
        seq![]
    }
}

/// The target object and event of the first `EventSubscriber` attribute:
/// its second and third arguments, cleaned; empty when there is none.
pub open spec fn subscriber_target(attrs: Seq<(Seq<char>, Seq<char>)>) -> (Seq<char>, Seq<char>)
    decreases attrs.len(),
{
    if attrs.len() == 0 {
        (seq![], seq![])
    } else if attrs[0].0 == "EventSubscriber"@ {
        let args = attribute_args(attrs[0].1);
        (cleaned_arg_at(args, 1), cleaned_arg_at(args, 2))
    } else {
        subscriber_target(attrs.drop_first())
    }
}

fn cleaned_arg_of(args: &Vec<String>, k: usize) -> (r: String)
    ensures
        r@ == cleaned_arg_at(strs(args@), k as int),
{
    if k < args.len() {
        clean_attr_arg(args[k].as_str())
    } else {
        String::new()
    }
}

/// The target object and event named by the `EventSubscriber` attribute
/// among `(name, text)` pairs, such as `Sales-Post` and `OnAfterPost` for
/// `[EventSubscriber(ObjectType::Codeunit, Codeunit::"Sales-Post", 'OnAfterPost', '', false, false)]`.
pub fn parse_subscriber_target_from_attrs(attrs: &Vec<(String, String)>) -> (r: (String, String))
    ensures
        (r.0@, r.1@) == subscriber_target(attr_pairs(attrs@)),
{
    let ghost all = attr_pairs(attrs@);
    let mut i: usize = 0;
    assert(all.skip(0) =~= all);
    while i < attrs.len()
        invariant
            i <= attrs@.len(),
            all == attr_pairs(attrs@),
            subscriber_target(all) == subscriber_target(all.skip(i as int)),
        decreases attrs@.len() - i,
    {
        let ghost rest = all.skip(i as int);
        assert(rest[0] == (attrs@[i as int].0@, attrs@[i as int].1@));
        if vec_eq(&chars_of(attrs[i].0.as_str()), &chars_of("EventSubscriber")) {
            let args = extract_attribute_args(attrs[i].1.as_str());
            return (cleaned_arg_of(&args, 1), cleaned_arg_of(&args, 2));
        }
        assert(rest.drop_first() =~= all.skip(i + 1));
        i = i + 1;
    }
    assert(all.skip(i as int) =~= Seq::<(Seq<char>, Seq<char>)>::empty());
    (String::new(), String::new())
}

// ---------------------------------------------------------------------------
// Procedure declarations
// ---------------------------------------------------------------------------

/// Some attribute of `attrs` is called `name`.
pub open spec fn has_attr(attrs: Seq<(Seq<char>, Seq<char>)>, name: Seq<char>) -> bool {
    exists|i: int| 0 <= i < attrs.len() && #[trigger] attrs[i].0 == name
}

fn has_attribute(attrs: &Vec<(String, String)>, name: &str) -> (b: bool)
    ensures
        b == has_attr(attr_pairs(attrs@), name@),
{
    let ghost all = attr_pairs(attrs@);
    let n = chars_of(name);
    let mut i: usize = 0;
    while i < attrs.len()
        invariant
            i <= attrs@.len(),
            all == attr_pairs(attrs@),
            n@ == name@,
            forall|j: int| 0 <= j < i ==> #[trigger] all[j].0 != name@,
        decreases attrs@.len() - i,
    {
        assert(all[i as int].0 == attrs@[i as int].0@);
        if vec_eq(&chars_of(attrs[i].0.as_str()), &n) {
            return true;
        }
        i = i + 1;
    }
    false
}

/// The part a procedure plays in the event graph.
#[derive(Debug, Clone)]
pub enum ProcedureRole {
    /// An integration or business event publisher.
    Event { business: bool },
    /// An event subscriber, with the object and event it subscribes to.
    Subscriber { target_object: String, target_event: String },
    /// An ordinary procedure.
    Procedure { is_local: bool },
}

/// A procedure with these attributes publishes an event.
pub open spec fn publishes_event(attrs: Seq<(Seq<char>, Seq<char>)>) -> bool {
    has_attr(attrs, "IntegrationEvent"@) || has_attr(attrs, "BusinessEvent"@)
}

/// The role of a procedure with attributes `attrs` (`(name, text)` pairs):
/// an `IntegrationEvent` or `BusinessEvent` attribute makes it an event (a
/// business event when the latter is there); otherwise an `EventSubscriber`
/// attribute makes it a subscriber; otherwise it is a plain procedure,
/// local or not.
pub fn procedure_role(attrs: &Vec<(String, String)>, is_local: bool) -> (r: ProcedureRole)
    ensures
        publishes_event(attr_pairs(attrs@)) ==> r == (ProcedureRole::Event {
            business: has_attr(attr_pairs(attrs@), "BusinessEvent"@),
        }),
        !publishes_event(attr_pairs(attrs@)) && has_attr(attr_pairs(attrs@), "EventSubscriber"@)
            ==> (r matches ProcedureRole::Subscriber { target_object, target_event } && (
        target_object@, target_event@) == subscriber_target(attr_pairs(attrs@))),
        !publishes_event(attr_pairs(attrs@)) && !has_attr(attr_pairs(attrs@), "EventSubscriber"@)
            ==> r == (ProcedureRole::Procedure { is_local }),
{
    let integration = has_attribute(attrs, "IntegrationEvent");
    let business = has_attribute(attrs, "BusinessEvent");
    if integration || business {
        ProcedureRole::Event { business }
    } else if has_attribute(attrs, "EventSubscriber") {
        let (target_object, target_event) = parse_subscriber_target_from_attrs(attrs);
        ProcedureRole::Subscriber { target_object, target_event }
    } else {
        ProcedureRole::Procedure { is_local }
    }
}

/// A declared procedure name: the raw text without surrounding `"`,
/// trimmed; none when nothing is left.
pub open spec fn declared_name_of(raw: Seq<char>) -> Option<Seq<char>> {
    let n = trim(strip_char(raw, '"'));
    if n.len() == 0 {
        None
    } else {
        Some(n)
    }
}

/// The name a procedure declaration gives, from the text of its name node.
pub fn declared_name(raw: &str) -> (r: Option<String>)
    ensures
        match declared_name_of(raw@) {
            Some(n) => r matches Some(s) && s@ == n,
            None => r is None,
        },
{
    let n = trim_vec(&strip_char_vec(&chars_of(raw), '"'));
    if n.len() == 0 {
        None
    } else {
        Some(string_of(&n))
    }
}

/// A member modifier is `local`, ignoring surrounding whitespace and ASCII
/// case.
pub fn is_local_modifier(text: &str) -> (b: bool)
    ensures
        b == eq_ignore_ascii_case(trim(text@), "local"@),
{
    eq_ignore_case(&trim_vec(&chars_of(text)), &chars_of("local"))
}

// ---------------------------------------------------------------------------
// Fan-out tiers
// ---------------------------------------------------------------------------

/// The order in which scores are ranked.
pub open spec fn score_leq() -> spec_fn(usize, usize) -> bool {
    |a: usize, b: usize| a <= b
}

proof fn lemma_score_leq_total()
    ensures
        vstd::relations::total_ordering(score_leq()),
{
}

/// The scores in ascending order.
pub fn sorted_scores(scores: &Vec<usize>) -> (r: Vec<usize>)
    ensures
        r@ == scores@.sort_by(score_leq()),
{
    broadcast use vstd::seq_lib::group_to_multiset_ensures;

    let mut out: Vec<usize> = Vec::new();
    let mut i: usize = 0;
    while i < scores.len()
        invariant
            i <= scores@.len(),
            vstd::relations::sorted_by(out@, score_leq()),
            out@.to_multiset() == scores@.take(i as int).to_multiset(),
        decreases scores@.len() - i,
    {
        let x = scores[i];
        let mut p: usize = 0;
        while p < out.len() && out[p] <= x
            invariant
                p <= out@.len(),
                forall|k: int| 0 <= k < p ==> out@[k] <= x,
            decreases out@.len() - p,
        {
            p = p + 1;
        }
        let ghost o0 = out@;
        out.insert(p, x);
        assert(out@ == o0.insert(p as int, x));
        assert forall|a: int, b: int| 0 <= a < b < out@.len() implies #[trigger] (score_leq())(
            out@[a],
            out@[b],
        ) by {
            if b < p {
                assert((score_leq())(o0[a], o0[b]));
            } else if a > p {
                assert((score_leq())(o0[a - 1], o0[b - 1]));
            } else if a == p {
                if b - 1 >= p {
                    assert(!(o0[p as int] <= x));
                    assert((score_leq())(o0[p as int], o0[b - 1]));
                }
            } else {
                assert(out@[a] == o0[a]);
            }
        }
        proof {
            broadcast use vstd::multiset::group_multiset_axioms;

            vstd::seq_lib::to_multiset_insert(o0, p as int, x);
            assert(scores@.take(i + 1) =~= scores@.take(i as int).push(x));
            vstd::seq_lib::to_multiset_build(scores@.take(i as int), x);
            assert(out@.to_multiset() =~= scores@.take(i + 1).to_multiset());
        }
        i = i + 1;
    }
    proof {
        assert(scores@.take(scores@.len() as int) =~= scores@);
        lemma_score_leq_total();
        scores@.lemma_sort_by_ensures(score_leq());
        vstd::seq_lib::lemma_sorted_unique(out@, scores@.sort_by(score_leq()), score_leq());
    }
    out
}

/// The score from which a file is resolved eagerly: files scoring at least
/// 5, or in the top fifth (at or above the score at index `8n/10` of the
/// `n` scores in ascending order, and at least 1), are; 5 when there are no
/// files.
pub open spec fn tier1_of(scores: Seq<usize>) -> int {
    if scores.len() == 0 {
        5
    } else {
        let p = scores.sort_by(score_leq())[(scores.len() * 8 / 10) as int];
        let q: int = if p >= 1 {
            p as int
        } else {
            1
        };
        if q <= 5 {
            q
        } else {
            5
        }
    }
}

/// The tier-1 fan-out threshold of a set of file scores.
pub fn tier1_threshold(scores: &Vec<usize>) -> (r: usize)
    ensures
        r == tier1_of(scores@),
{
    if scores.len() == 0 {
        return 5;
    }
    let sorted = sorted_scores(scores);
    proof {
        scores@.lemma_sort_by_ensures(score_leq());
        lemma_score_leq_total();
    }
    let n = scores.len();
    let k = n / 10 * 8 + n % 10 * 8 / 10;
    assert(k == n * 8 / 10) by (nonlinear_arith)
        requires
            k == n / 10 * 8 + n % 10 * 8 / 10,
    {
    }
    assert(k < n) by (nonlinear_arith)
        requires
            k == n * 8 / 10,
            n >= 1,
    {
    }
    assert(sorted@.len() == n) by {
        broadcast use vstd::seq_lib::group_to_multiset_ensures;

        assert(sorted@.to_multiset().len() == scores@.to_multiset().len());
    }
    let p = sorted[k];
    let q = if p >= 1 {
        p
    } else {
        1
    };
    if q <= 5 {
        q
    } else {
        5
    }
}

} // verus!
