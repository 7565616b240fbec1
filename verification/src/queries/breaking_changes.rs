//! Breaking changes between two versions of an app's symbols: removed
//! objects, public procedures, fields and enum values, and changed
//! procedure signatures.

use vstd::prelude::*;

use crate::numfmt::{digits, push_decimal};
use crate::text::{chars_of, lower_vec, lowercase, push_str, vec_eq};

verus! {

/// Kind of breaking change.
#[derive(Debug, Clone, Copy, PartialEq, Eq, Structural)]
pub enum BreakingChangeKind {
    /// An object was removed.
    ObjectRemoved,
    /// A procedure was removed from an object.
    ProcedureRemoved,
    /// A procedure's parameters changed.
    SignatureChanged,
    /// A procedure's return type changed.
    ReturnTypeChanged,
    /// A field was removed from a table or page.
    FieldRemoved,
    /// An enum value was removed.
    EnumValueRemoved,
}

/// One breaking change between the baseline and the current symbols.
#[derive(Debug, Clone)]
pub struct BreakingChange {
    pub kind: BreakingChangeKind,
    /// The object affected.
    pub object: String,
    /// The member affected, if any.
    pub member: Option<String>,
    pub description: String,
    /// Definitely breaking (not only possibly).
    pub is_breaking: bool,
}

/// A procedure parameter: its name and type.
#[derive(Debug, Clone)]
pub struct ParamSig {
    pub name: String,
    pub param_type: String,
}

/// A procedure's signature.
#[derive(Debug, Clone)]
pub struct MethodSig {
    pub name: String,
    pub parameters: Vec<ParamSig>,
    pub return_type: Option<String>,
    pub is_local: bool,
}

/// What the comparison reads of an object's symbols: its kind (as
/// displayed), name, procedures, field names and enum value names.
#[derive(Debug, Clone)]
pub struct ObjectSymbols {
    pub kind: String,
    pub name: String,
    pub methods: Vec<MethodSig>,
    pub fields: Vec<String>,
    pub enum_values: Vec<String>,
}

/// What `format!("{:?}", ..)` gives for an optional string (`None`, or
/// `Some(..)` around the string quoted and escaped).
pub uninterp spec fn debug_option_text(o: Option<Seq<char>>) -> Seq<char>;

/// `format!("{:?}", o)` on an optional string; the result is
/// [`debug_option_text`] of it (escaping rules not restated).
#[verifier::external_body]
fn debug_option(o: &Option<String>) -> (r: String)
    ensures
        r@ == debug_option_text(
            match o {
                Some(s) => Some(s@),
                None => None,
            },
        ),
{
    format!("{:?}", o)
}

/// A change as plain values: kind, object, member, description, breaking.
pub type ChangeV = (BreakingChangeKind, Seq<char>, Option<Seq<char>>, Seq<char>, bool);

pub open spec fn change_view(c: BreakingChange) -> ChangeV {
    (
        c.kind,
        c.object@,
        match c.member {
            Some(m) => Some(m@),
            None => None,
        },
        c.description@,
        c.is_breaking,
    )
}

pub open spec fn changes_view(v: Seq<BreakingChange>) -> Seq<ChangeV> {
    v.map_values(|c: BreakingChange| change_view(c))
}

pub open spec fn opt_text(o: Option<String>) -> Option<Seq<char>> {
    match o {
        Some(s) => Some(s@),
        None => None,
    }
}

// ---------------------------------------------------------------------------
// Signatures
// ---------------------------------------------------------------------------

/// Parameter type changes among the first `n` parameters (compared
/// lowercased), in order.
pub open spec fn param_changes(
    object: Seq<char>,
    method: Seq<char>,
    old: Seq<ParamSig>,
    new: Seq<ParamSig>,
    n: int,
) -> Seq<ChangeV>
    decreases n,
{
    if n <= 0 || n > old.len() || n > new.len() {
        seq![]
    } else {
        let prev = param_changes(object, method, old, new, n - 1);
        let (op, np) = (old[n - 1], new[n - 1]);
        if lowercase(op.param_type@) != lowercase(np.param_type@) {
            prev.push(
                (
                    BreakingChangeKind::SignatureChanged,
                    object,
                    Some(method),
                    "Parameter "@ + digits(n as nat) + " type changed from '"@ + op.param_type@
                        + "' to '"@ + np.param_type@ + "' in '"@ + method + "'"@,
                    true,
                ),
            )
        } else {
            prev
        }
    }
}

/// The signature changes of a procedure kept in the current version: a
/// different return type; a different parameter count (breaking only when
/// parameters were removed); or else each parameter whose type changed.
pub open spec fn signature_changes(object: Seq<char>, old: MethodSig, new: MethodSig) -> Seq<ChangeV> {
    let ret = if opt_text(old.return_type) != opt_text(new.return_type) {
        seq![
            (
                BreakingChangeKind::ReturnTypeChanged,
                object,
                Some(old.name@),
                "Return type of '"@ + old.name@ + "' changed from '"@ + debug_option_text(
                    opt_text(old.return_type),
                ) + "' to '"@ + debug_option_text(opt_text(new.return_type)) + "'"@,
                true,
            ),
        ]
    } else {
        seq![]
    };
    let oc = old.parameters@.len();
    let nc = new.parameters@.len();
    ret + if oc != nc {
        seq![
            (
                BreakingChangeKind::SignatureChanged,
                object,
                Some(old.name@),
                "Procedure '"@ + old.name@ + "' parameter count changed from "@ + digits(oc) + " to "@
                    + digits(nc),
                nc < oc,
            ),
        ]
    } else {
        param_changes(object, old.name@, old.parameters@, new.parameters@, oc as int)
    }
}

fn copy_str(s: &str) -> (r: String)
    ensures
        r@ == s@,
{
    let mut r = String::new();
    push_str(&mut r, s);
    r
}

fn push_change(
    out: &mut Vec<BreakingChange>,
    kind: BreakingChangeKind,
    object: &str,
    member: &str,
    description: String,
    is_breaking: bool,
)
    ensures
        changes_view(final(out)@) == changes_view(old(out)@).push(
            (kind, object@, Some(member@), description@, is_breaking),
        ),
{
    let c = BreakingChange {
        kind,
        object: copy_str(object),
        member: Some(copy_str(member)),
        description,
        is_breaking,
    };
    let ghost v0 = changes_view(out@);
    out.push(c);
    assert(changes_view(out@) =~= v0.push(change_view(c)));
}

fn same_text(a: &Option<String>, b: &Option<String>) -> (r: bool)
    ensures
        r == (opt_text(*a) == opt_text(*b)),
{
    match (a, b) {
        (Some(x), Some(y)) => vec_eq(&chars_of(x.as_str()), &chars_of(y.as_str())),
        (None, None) => true,
        _ => false,
    }
}

fn check_signature_change(
    object_name: &str,
    old_m: &MethodSig,
    new_m: &MethodSig,
    changes: &mut Vec<BreakingChange>,
)
    ensures
        changes_view(final(changes)@) == changes_view(old(changes)@) + signature_changes(
            object_name@,
            *old_m,
            *new_m,
        ),
{
    let ghost c0 = changes_view(changes@);
    if !same_text(&old_m.return_type, &new_m.return_type) {
        let mut d = copy_str("Return type of '");
        push_str(&mut d, old_m.name.as_str());
        push_str(&mut d, "' changed from '");
        let a = debug_option(&old_m.return_type);
        push_str(&mut d, a.as_str());
        push_str(&mut d, "' to '");
        let b = debug_option(&new_m.return_type);
        push_str(&mut d, b.as_str());
        push_str(&mut d, "'");
        push_change(
            changes,
            BreakingChangeKind::ReturnTypeChanged,
            object_name,
            old_m.name.as_str(),
            d,
            true,
        );
    }
    let ghost c1 = changes_view(changes@);
    let oc = old_m.parameters.len();
    let nc = new_m.parameters.len();
    if oc != nc {
        let mut d = copy_str("Procedure '");
        push_str(&mut d, old_m.name.as_str());
        push_str(&mut d, "' parameter count changed from ");
        push_decimal(&mut d, oc as u64);
        push_str(&mut d, " to ");
        push_decimal(&mut d, nc as u64);
        push_change(
            changes,
            BreakingChangeKind::SignatureChanged,
            object_name,
            old_m.name.as_str(),
            d,
            nc < oc,
        );
    } else {
        let mut i: usize = 0;
        assert(c1 + param_changes(object_name@, old_m.name@, old_m.parameters@, new_m.parameters@, 0)
            =~= c1);
        while i < oc
            invariant
                i <= oc,
                oc == old_m.parameters@.len(),
                oc == new_m.parameters@.len(),
                changes_view(changes@) == c1 + param_changes(
                    object_name@,
                    old_m.name@,
                    old_m.parameters@,
                    new_m.parameters@,
                    i as int,
                ),
            decreases oc - i,
        {
            let op = &old_m.parameters[i];
            let np = &new_m.parameters[i];
            if !vec_eq(
                &lower_vec(&chars_of(op.param_type.as_str())),
                &lower_vec(&chars_of(np.param_type.as_str())),
            ) {
                let mut d = copy_str("Parameter ");
                push_decimal(&mut d, (i + 1) as u64);
                push_str(&mut d, " type changed from '");
                push_str(&mut d, op.param_type.as_str());
                push_str(&mut d, "' to '");
                push_str(&mut d, np.param_type.as_str());
                push_str(&mut d, "' in '");
                push_str(&mut d, old_m.name.as_str());
                push_str(&mut d, "'");
                push_change(
                    changes,
                    BreakingChangeKind::SignatureChanged,
                    object_name,
                    old_m.name.as_str(),
                    d,
                    true,
                );
            }
            i = i + 1;
        }
    }
    proof {
        assert(changes_view(changes@) =~= c0 + signature_changes(object_name@, *old_m, *new_m));
    }
}

// ---------------------------------------------------------------------------
// Objects
// ---------------------------------------------------------------------------

/// Procedure `i` is public and no later public procedure has its name
/// (compared lowercased).
pub open spec fn last_public(ms: Seq<MethodSig>, i: int) -> bool {
    !ms[i].is_local && forall|j: int|
        i < j < ms.len() ==> !(!(#[trigger] ms[j]).is_local && lowercase(ms[j].name@) == lowercase(
            ms[i].name@,
        ))
}

/// The last public procedure whose lowercased name is `k`.
pub open spec fn find_public(ms: Seq<MethodSig>, k: Seq<char>) -> Option<int>
    decreases ms.len(),
{
    if ms.len() == 0 {
        None
    } else if !ms.last().is_local && lowercase(ms.last().name@) == k {
        Some(ms.len() - 1)
    } else {
        find_public(ms.drop_last(), k)
    }
}

/// The changes of the public procedures among the first `n` of `old`: a
/// procedure with no public namesake in `new` was removed; otherwise its
/// signature is compared with the namesake's.
pub open spec fn method_changes(
    obj: Seq<char>,
    old: Seq<MethodSig>,
    new: Seq<MethodSig>,
    n: int,
) -> Seq<ChangeV>
    decreases n,
{
    if n <= 0 || n > old.len() {
        seq![]
    } else {
        let prev = method_changes(obj, old, new, n - 1);
        let m = old[n - 1];
        if last_public(old, n - 1) {
            prev + match find_public(new, lowercase(m.name@)) {
                None => seq![
                    (
                        BreakingChangeKind::ProcedureRemoved,
                        obj,
                        Some(m.name@),
                        "Public procedure '"@ + m.name@ + "' was removed from '"@ + obj + "'"@,
                        true,
                    ),
                ],
                Some(j) => signature_changes(obj, m, new[j]),
            }
        } else {
            prev
        }
    }
}

/// No later name of `names` equals name `i`, lowercased.
pub open spec fn last_name(names: Seq<String>, i: int) -> bool {
    forall|j: int| i < j < names.len() ==> lowercase((#[trigger] names[j])@) != lowercase(names[i]@)
}

/// Some name of `names` is `k` when lowercased.
pub open spec fn has_name(names: Seq<String>, k: Seq<char>) -> bool {
    exists|j: int| 0 <= j < names.len() && lowercase((#[trigger] names[j])@) == k
}

/// Fields among the first `n` of `old` (the last of each lowercased name)
/// with no field of that name in `new`.
pub open spec fn field_changes(obj: Seq<char>, old: Seq<String>, new: Seq<String>, n: int) -> Seq<
    ChangeV,
>
    decreases n,
{
    if n <= 0 || n > old.len() {
        seq![]
    } else {
        let prev = field_changes(obj, old, new, n - 1);
        let f = old[n - 1]@;
        if last_name(old, n - 1) && !has_name(new, lowercase(f)) {
            prev.push(
                (
                    BreakingChangeKind::FieldRemoved,
                    obj,
                    Some(f),
                    "Field '"@ + f + "' was removed from '"@ + obj + "'"@,
                    true,
                ),
            )
        } else {
            prev
        }
    }
}

/// Enum values among the first `n` of `old` with no value of that name
/// (lowercased) in `new`.
pub open spec fn enum_changes(obj: Seq<char>, old: Seq<String>, new: Seq<String>, n: int) -> Seq<
    ChangeV,
>
    decreases n,
{
    if n <= 0 || n > old.len() {
        seq![]
    } else {
        let prev = enum_changes(obj, old, new, n - 1);
        let v = old[n - 1]@;
        if !has_name(new, lowercase(v)) {
            prev.push(
                (
                    BreakingChangeKind::EnumValueRemoved,
                    obj,
                    Some(v),
                    "Enum value '"@ + v + "' was removed from '"@ + obj + "'"@,
                    true,
                ),
            )
        } else {
            prev
        }
    }
}

/// The changes inside an object that still exists.
pub open spec fn object_diff(old: ObjectSymbols, new: ObjectSymbols) -> Seq<ChangeV> {
    method_changes(old.name@, old.methods@, new.methods@, old.methods@.len() as int)
        + field_changes(old.name@, old.fields@, new.fields@, old.fields@.len() as int)
        + enum_changes(old.name@, old.enum_values@, new.enum_values@, old.enum_values@.len() as int)
}

/// An object's identity: its kind and lowercased name.
pub open spec fn object_key(o: ObjectSymbols) -> (Seq<char>, Seq<char>) {
    (o.kind@, lowercase(o.name@))
}

/// No later object has the identity of object `i`.
pub open spec fn last_object(s: Seq<ObjectSymbols>, i: int) -> bool {
    forall|j: int| i < j < s.len() ==> object_key(#[trigger] s[j]) != object_key(s[i])
}

/// The last object with identity `k`.
pub open spec fn find_object(s: Seq<ObjectSymbols>, k: (Seq<char>, Seq<char>)) -> Option<int>
    decreases s.len(),
{
    if s.len() == 0 {
        None
    } else if object_key(s.last()) == k {
        Some(s.len() - 1)
    } else {
        find_object(s.drop_last(), k)
    }
}

/// The breaking changes from the first `n` baseline objects (the last of
/// each identity): removed objects, and the changes inside the others.
pub open spec fn object_changes(base: Seq<ObjectSymbols>, cur: Seq<ObjectSymbols>, n: int) -> Seq<
    ChangeV,
>
    decreases n,
{
    if n <= 0 || n > base.len() {
        seq![]
    } else {
        let prev = object_changes(base, cur, n - 1);
        let o = base[n - 1];
        if last_object(base, n - 1) {
            prev + match find_object(cur, object_key(o)) {
                None => seq![
                    (
                        BreakingChangeKind::ObjectRemoved,
                        o.name@,
                        None,
                        "Object '"@ + o.name@ + "' ("@ + o.kind@ + ") was removed"@,
                        true,
                    ),
                ],
                Some(j) => object_diff(o, cur[j]),
            }
        } else {
            prev
        }
    }
}

/// The namesake looked up in the current object is the last procedure that
/// is public and whose lowercased name is `k`; there is none exactly when
/// every procedure of that name is local.
pub proof fn lemma_find_public_is_public_namesake(ms: Seq<MethodSig>, k: Seq<char>)
    ensures
        find_public(ms, k) is None <==> (forall|j: int|
            0 <= j < ms.len() ==> (#[trigger] ms[j]).is_local || lowercase(ms[j].name@) != k),
        find_public(ms, k) matches Some(j) ==> {
            &&& 0 <= j < ms.len()
            &&& !ms[j].is_local
            &&& lowercase(ms[j].name@) == k
            &&& forall|t: int| j < t < ms.len() ==> (#[trigger] ms[t]).is_local || lowercase(ms[t].name@) != k
        },
    decreases ms.len(),
{
    if ms.len() > 0 {
        let d = ms.drop_last();
        lemma_find_public_is_public_namesake(d, k);
        assert forall|j: int| 0 <= j < d.len() implies #[trigger] d[j] == ms[j] by {}
        if !ms.last().is_local && lowercase(ms.last().name@) == k {
            assert(ms[ms.len() - 1] == ms.last());
        } else {
            if find_public(d, k) is None {
                assert forall|j: int| 0 <= j < ms.len() implies (#[trigger] ms[j]).is_local || lowercase(ms[j].name@) != k by {
                    if j < d.len() {
                        assert(d[j] == ms[j]);
                    }
                }
            } else {
                let j = find_public(d, k)->0;
                assert(d[j] == ms[j]);
                assert(!(ms[j].is_local || lowercase(ms[j].name@) != k));
                assert forall|t: int| j < t < ms.len() implies (#[trigger] ms[t]).is_local || lowercase(ms[t].name@) != k by {
                    if t < d.len() {
                        assert(d[t] == ms[t]);
                    }
                }
            }
        }
    }
}

/// A public baseline procedure (the last of its name) whose name no public
/// procedure of the current object has is reported removed, as a breaking
/// change; when the current object has a public namesake, its signature is
/// compared instead.
pub proof fn lemma_public_procedure_removed(obj: Seq<char>, old: Seq<MethodSig>, new: Seq<MethodSig>, i: int)
    requires
        0 <= i < old.len(),
        last_public(old, i),
    ensures
        (forall|j: int| 0 <= j < new.len() ==> (#[trigger] new[j]).is_local || lowercase(new[j].name@) != lowercase(
            old[i].name@,
        )) ==> method_changes(obj, old, new, i + 1) == method_changes(obj, old, new, i) + seq![
            (
                BreakingChangeKind::ProcedureRemoved,
                obj,
                Some(old[i].name@),
                "Public procedure '"@ + old[i].name@ + "' was removed from '"@ + obj + "'"@,
                true,
            ),
        ],
        (exists|j: int| 0 <= j < new.len() && !(#[trigger] new[j]).is_local && lowercase(new[j].name@) == lowercase(
            old[i].name@,
        )) ==> exists|j: int|
            0 <= j < new.len() && !(#[trigger] new[j]).is_local && lowercase(new[j].name@) == lowercase(old[i].name@)
                && method_changes(obj, old, new, i + 1) == method_changes(obj, old, new, i) + signature_changes(
                obj,
                old[i],
                new[j],
            ),
{
    lemma_find_public_is_public_namesake(new, lowercase(old[i].name@));
    let f = find_public(new, lowercase(old[i].name@));
    if f is Some {
        let j = f->0;
        assert(!new[j].is_local && lowercase(new[j].name@) == lowercase(old[i].name@));
    } else {
        if exists|j: int| 0 <= j < new.len() && !(#[trigger] new[j]).is_local && lowercase(new[j].name@) == lowercase(
            old[i].name@,
        ) {
            let j = choose|j: int| 0 <= j < new.len() && !(#[trigger] new[j]).is_local && lowercase(new[j].name@) == lowercase(
                old[i].name@,
            );
            assert(new[j].is_local || lowercase(new[j].name@) != lowercase(old[i].name@));
        }
    }
}

/// A local baseline procedure is never reported: it adds no change.
pub proof fn lemma_local_procedure_ignored(obj: Seq<char>, old: Seq<MethodSig>, new: Seq<MethodSig>, i: int)
    requires
        0 <= i < old.len(),
        old[i].is_local,
    ensures
        method_changes(obj, old, new, i + 1) == method_changes(obj, old, new, i),
{
}

proof fn lemma_find_public_range(ms: Seq<MethodSig>, k: Seq<char>)
    ensures
        find_public(ms, k) matches Some(j) ==> 0 <= j < ms.len(),
    decreases ms.len(),
{
    if ms.len() > 0 {
        lemma_find_public_range(ms.drop_last(), k);
    }
}

proof fn lemma_find_object_range(s: Seq<ObjectSymbols>, k: (Seq<char>, Seq<char>))
    ensures
        find_object(s, k) matches Some(j) ==> 0 <= j < s.len(),
    decreases s.len(),
{
    if s.len() > 0 {
        lemma_find_object_range(s.drop_last(), k);
    }
}

fn lower_of(s: &String) -> (r: Vec<char>)
    ensures
        r@ == lowercase(s@),
{
    lower_vec(&chars_of(s.as_str()))
}

fn is_last_public(ms: &Vec<MethodSig>, i: usize) -> (b: bool)
    requires
        i < ms@.len(),
    ensures
        b == last_public(ms@, i as int),
{
    if ms[i].is_local {
        return false;
    }
    let k = lower_of(&ms[i].name);
    let len = ms.len();
    let mut j: usize = i + 1;
    while j < ms.len()
        invariant
            i < j <= ms@.len(),
            !ms@[i as int].is_local,
            k@ == lowercase(ms@[i as int].name@),
            forall|m: int|
                i < m < j ==> !(!(#[trigger] ms@[m]).is_local && lowercase(ms@[m].name@) == lowercase(
                    ms@[i as int].name@,
                )),
        decreases ms@.len() - j,
    {
        if !ms[j].is_local && vec_eq(&lower_of(&ms[j].name), &k) {
            return false;
        }
        j = j + 1;
    }
    true
}

fn find_public_method(ms: &Vec<MethodSig>, k: &Vec<char>) -> (r: Option<usize>)
    ensures
        r matches Some(j) ==> find_public(ms@, k@) == Some(j as int) && j < ms@.len(),
        r is None ==> find_public(ms@, k@) is None,
{
    proof {
        lemma_find_public_range(ms@, k@);
    }
    let mut n: usize = ms.len();
    assert(ms@.take(n as int) =~= ms@);
    while n > 0
        invariant
            n <= ms@.len(),
            find_public(ms@, k@) == find_public(ms@.take(n as int), k@),
        decreases n,
    {
        assert(ms@.take(n as int).last() == ms@[n - 1]);
        assert(ms@.take(n as int).drop_last() =~= ms@.take(n - 1));
        if !ms[n - 1].is_local && vec_eq(&lower_of(&ms[n - 1].name), k) {
            return Some(n - 1);
        }
        n = n - 1;
    }
    None
}

fn is_last_name(names: &Vec<String>, i: usize) -> (b: bool)
    requires
        i < names@.len(),
    ensures
        b == last_name(names@, i as int),
{
    let k = lower_of(&names[i]);
    let len = names.len();
    let mut j: usize = i + 1;
    while j < names.len()
        invariant
            i < j <= names@.len(),
            k@ == lowercase(names@[i as int]@),
            forall|m: int| i < m < j ==> lowercase((#[trigger] names@[m])@) != lowercase(names@[i as int]@),
        decreases names@.len() - j,
    {
        if vec_eq(&lower_of(&names[j]), &k) {
            return false;
        }
        j = j + 1;
    }
    true
}

fn has_name_vec(names: &Vec<String>, k: &Vec<char>) -> (b: bool)
    ensures
        b == has_name(names@, k@),
{
    let mut j: usize = 0;
    while j < names.len()
        invariant
            j <= names@.len(),
            forall|m: int| 0 <= m < j ==> lowercase((#[trigger] names@[m])@) != k@,
        decreases names@.len() - j,
    {
        if vec_eq(&lower_of(&names[j]), k) {
            return true;
        }
        j = j + 1;
    }
    false
}

fn diff_object(old_o: &ObjectSymbols, new_o: &ObjectSymbols, changes: &mut Vec<BreakingChange>)
    ensures
        changes_view(final(changes)@) == changes_view(old(changes)@) + object_diff(*old_o, *new_o),
{
    let ghost c0 = changes_view(changes@);
    let obj = old_o.name.as_str();
    let mut i: usize = 0;
    assert(c0 + method_changes(obj@, old_o.methods@, new_o.methods@, 0) =~= c0);
    while i < old_o.methods.len()
        invariant
            i <= old_o.methods@.len(),
            obj@ == old_o.name@,
            changes_view(changes@) == c0 + method_changes(
                obj@,
                old_o.methods@,
                new_o.methods@,
                i as int,
            ),
        decreases old_o.methods@.len() - i,
    {
        if is_last_public(&old_o.methods, i) {
            let m = &old_o.methods[i];
            let ghost before = changes_view(changes@);
            assert(old_o.methods@[i as int] == *m);
            match find_public_method(&new_o.methods, &lower_of(&m.name)) {
                None => {
                    let mut d = copy_str("Public procedure '");
                    push_str(&mut d, m.name.as_str());
                    push_str(&mut d, "' was removed from '");
                    push_str(&mut d, obj);
                    push_str(&mut d, "'");
                    push_change(
                        changes,
                        BreakingChangeKind::ProcedureRemoved,
                        obj,
                        m.name.as_str(),
                        d,
                        true,
                    );
                    assert(changes_view(changes@) =~= c0 + method_changes(
                        obj@,
                        old_o.methods@,
                        new_o.methods@,
                        i + 1,
                    ));
                },
                Some(j) => {
                    check_signature_change(obj, m, &new_o.methods[j], changes);
                    assert(changes_view(changes@) =~= c0 + method_changes(
                        obj@,
                        old_o.methods@,
                        new_o.methods@,
                        i + 1,
                    ));
                },
            }
            assert(changes_view(changes@) =~= c0 + method_changes(
                obj@,
                old_o.methods@,
                new_o.methods@,
                i + 1,
            ));
        }
        i = i + 1;
    }
    let ghost c1 = changes_view(changes@);
    let mut i: usize = 0;
    assert(c1 + field_changes(obj@, old_o.fields@, new_o.fields@, 0) =~= c1);
    while i < old_o.fields.len()
        invariant
            i <= old_o.fields@.len(),
            obj@ == old_o.name@,
            changes_view(changes@) == c1 + field_changes(obj@, old_o.fields@, new_o.fields@, i as int),
        decreases old_o.fields@.len() - i,
    {
        let f = &old_o.fields[i];
        if is_last_name(&old_o.fields, i) && !has_name_vec(&new_o.fields, &lower_of(f)) {
            let mut d = copy_str("Field '");
            push_str(&mut d, f.as_str());
            push_str(&mut d, "' was removed from '");
            push_str(&mut d, obj);
            push_str(&mut d, "'");
            let ghost before = changes_view(changes@);
            push_change(changes, BreakingChangeKind::FieldRemoved, obj, f.as_str(), d, true);
            assert(changes_view(changes@) =~= c1 + field_changes(
                obj@,
                old_o.fields@,
                new_o.fields@,
                i + 1,
            ));
        }
        i = i + 1;
    }
    let ghost c2 = changes_view(changes@);
    let mut i: usize = 0;
    assert(c2 + enum_changes(obj@, old_o.enum_values@, new_o.enum_values@, 0) =~= c2);
    while i < old_o.enum_values.len()
        invariant
            i <= old_o.enum_values@.len(),
            obj@ == old_o.name@,
            changes_view(changes@) == c2 + enum_changes(
                obj@,
                old_o.enum_values@,
                new_o.enum_values@,
                i as int,
            ),
        decreases old_o.enum_values@.len() - i,
    {
        let v = &old_o.enum_values[i];
        if !has_name_vec(&new_o.enum_values, &lower_of(v)) {
            let mut d = copy_str("Enum value '");
            push_str(&mut d, v.as_str());
            push_str(&mut d, "' was removed from '");
            push_str(&mut d, obj);
            push_str(&mut d, "'");
            let ghost before = changes_view(changes@);
            push_change(changes, BreakingChangeKind::EnumValueRemoved, obj, v.as_str(), d, true);
            assert(changes_view(changes@) =~= c2 + enum_changes(
                obj@,
                old_o.enum_values@,
                new_o.enum_values@,
                i + 1,
            ));
        }
        i = i + 1;
    }
    proof {
        assert(changes_view(changes@) =~= c0 + object_diff(*old_o, *new_o));
    }
}

fn same_object(a: &ObjectSymbols, b: &ObjectSymbols) -> (r: bool)
    ensures
        r == (object_key(*a) == object_key(*b)),
{
    vec_eq(&chars_of(a.kind.as_str()), &chars_of(b.kind.as_str())) && vec_eq(
        &lower_of(&a.name),
        &lower_of(&b.name),
    )
}

fn is_last_object(s: &Vec<ObjectSymbols>, i: usize) -> (b: bool)
    requires
        i < s@.len(),
    ensures
        b == last_object(s@, i as int),
{
    let len = s.len();
    let mut j: usize = i + 1;
    while j < s.len()
        invariant
            i < j <= s@.len(),
            forall|m: int| i < m < j ==> object_key(#[trigger] s@[m]) != object_key(s@[i as int]),
        decreases s@.len() - j,
    {
        if same_object(&s[j], &s[i]) {
            return false;
        }
        j = j + 1;
    }
    true
}

fn find_object_vec(s: &Vec<ObjectSymbols>, o: &ObjectSymbols) -> (r: Option<usize>)
    ensures
        r matches Some(j) ==> find_object(s@, object_key(*o)) == Some(j as int) && j < s@.len(),
        r is None ==> find_object(s@, object_key(*o)) is None,
{
    proof {
        lemma_find_object_range(s@, object_key(*o));
    }
    let mut n: usize = s.len();
    assert(s@.take(n as int) =~= s@);
    while n > 0
        invariant
            n <= s@.len(),
            find_object(s@, object_key(*o)) == find_object(s@.take(n as int), object_key(*o)),
        decreases n,
    {
        assert(s@.take(n as int).last() == s@[n - 1]);
        assert(s@.take(n as int).drop_last() =~= s@.take(n - 1));
        if same_object(&s[n - 1], o) {
            return Some(n - 1);
        }
        n = n - 1;
    }
    None
}

/// The breaking changes from `baseline` to `current`: for each baseline
/// object (kind and lowercased name; the last entry of each), its removal,
/// or else its removed public procedures, changed signatures, removed
/// fields and removed enum values.
pub fn analyze_breaking_changes(baseline: &Vec<ObjectSymbols>, current: &Vec<ObjectSymbols>) -> (r:
    Vec<BreakingChange>)
    ensures
        changes_view(r@) == object_changes(baseline@, current@, baseline@.len() as int),
{
    let mut changes: Vec<BreakingChange> = Vec::new();
    let mut i: usize = 0;
    assert(changes_view(changes@) =~= Seq::<ChangeV>::empty());
    while i < baseline.len()
        invariant
            i <= baseline@.len(),
            changes_view(changes@) == object_changes(baseline@, current@, i as int),
        decreases baseline@.len() - i,
    {
        if is_last_object(baseline, i) {
            let o = &baseline[i];
            let ghost before = changes_view(changes@);
            match find_object_vec(current, o) {
                None => {
                    let mut d = copy_str("Object '");
                    push_str(&mut d, o.name.as_str());
                    push_str(&mut d, "' (");
                    push_str(&mut d, o.kind.as_str());
                    push_str(&mut d, ") was removed");
                    let c = BreakingChange {
                        kind: BreakingChangeKind::ObjectRemoved,
                        object: o.name.clone(),
                        member: None,
                        description: d,
                        is_breaking: true,
                    };
                    changes.push(c);
                    assert(changes_view(changes@) =~= before.push(change_view(c)));
                },
                Some(j) => {
                    diff_object(o, &current[j], &mut changes);
                },
            }
            assert(changes_view(changes@) =~= object_changes(baseline@, current@, i + 1));
        }
        i = i + 1;
    }
    changes
}

} // verus!
