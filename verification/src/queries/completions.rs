//! Code completion entries.

use vstd::prelude::*;

use crate::insight::discovery::{ins, isort, keys_match, sort_by_keys, SortKey};
use crate::queries::{count_detail_params, param_count};
use crate::numfmt::{digits, push_decimal, push_padded, zero_pad};
use crate::queries::code_actions::AlObjectKind;
use crate::text::{
    ascii_lower_seq, ascii_lower_vec, chars_of, lower_vec, lowercase, opt_view, push_chars, push_str,
    vec_eq,
};

verus! {

/// A completion item.
#[derive(Debug, Clone)]
pub struct CompletionEntry {
    pub label: String,
    pub kind: CompletionKind,
    pub detail: Option<String>,
    pub documentation: Option<String>,
    pub insert_text: Option<String>,
    pub sort_text: Option<String>,
}

/// Completion item kinds.
#[derive(Debug, Clone, Copy, PartialEq, Eq, Structural)]
pub enum CompletionKind {
    Keyword,
    Snippet,
    Field,
    Property,
    Method,
    Function,
    Variable,
    Class,
    Module,
    Enum,
    EnumMember,
    Value,
    Text,
    Struct,
    Reference,
}

/// The LSP `CompletionItemKind` number of a kind.
pub open spec fn lsp_kind_number(k: CompletionKind) -> u32 {
    match k {
        CompletionKind::Text => 1,
        CompletionKind::Method => 2,
        CompletionKind::Function => 3,
        CompletionKind::Field => 5,
        CompletionKind::Variable => 6,
        CompletionKind::Class => 7,
        CompletionKind::Module => 9,
        CompletionKind::Property => 10,
        CompletionKind::Value => 12,
        CompletionKind::Enum => 13,
        CompletionKind::Keyword => 14,
        CompletionKind::Snippet => 15,
        CompletionKind::Reference => 18,
        CompletionKind::EnumMember => 20,
        CompletionKind::Struct => 22,
    }
}

impl CompletionKind {
    /// The number under which the kind is sent to LSP clients.
    pub fn lsp_kind(&self) -> (n: u32)
        ensures
            n == lsp_kind_number(*self),
    {
        match self {
            CompletionKind::Text => 1,
            CompletionKind::Method => 2,
            CompletionKind::Function => 3,
            CompletionKind::Field => 5,
            CompletionKind::Variable => 6,
            CompletionKind::Class => 7,
            CompletionKind::Module => 9,
            CompletionKind::Property => 10,
            CompletionKind::Value => 12,
            CompletionKind::Enum => 13,
            CompletionKind::Keyword => 14,
            CompletionKind::Snippet => 15,
            CompletionKind::Reference => 18,
            CompletionKind::EnumMember => 20,
            CompletionKind::Struct => 22,
        }
    }
}

/// A completion item as the semantic bridge reports it, with its kind as
/// a name.
#[derive(Debug, Clone)]
pub struct BridgeCompletion {
    pub label: String,
    pub kind: String,
    pub detail: Option<String>,
    pub documentation: Option<String>,
}

/// The completion kind a bridge kind name stands for; unknown names are
/// plain text.
pub open spec fn bridge_kind_of(s: Seq<char>) -> CompletionKind {
    if s == "Method"@ || s == "Function"@ {
        CompletionKind::Method
    } else if s == "Property"@ || s == "Field"@ {
        CompletionKind::Field
    } else if s == "Variable"@ {
        CompletionKind::Variable
    } else if s == "Enum"@ || s == "EnumMember"@ {
        CompletionKind::EnumMember
    } else if s == "Class"@ || s == "Struct"@ {
        CompletionKind::Class
    } else if s == "Module"@ || s == "Namespace"@ {
        CompletionKind::Module
    } else if s == "Keyword"@ {
        CompletionKind::Keyword
    } else if s == "Snippet"@ {
        CompletionKind::Snippet
    } else {
        CompletionKind::Text
    }
}

fn is(v: &Vec<char>, lit: &str) -> (b: bool)
    ensures
        b == (v@ == lit@),
{
    vec_eq(v, &chars_of(lit))
}

/// The completion kind of a bridge kind name.
pub fn bridge_kind(s: &str) -> (k: CompletionKind)
    ensures
        k == bridge_kind_of(s@),
{
    let v = chars_of(s);
    if is(&v, "Method") || is(&v, "Function") {
        CompletionKind::Method
    } else if is(&v, "Property") || is(&v, "Field") {
        CompletionKind::Field
    } else if is(&v, "Variable") {
        CompletionKind::Variable
    } else if is(&v, "Enum") || is(&v, "EnumMember") {
        CompletionKind::EnumMember
    } else if is(&v, "Class") || is(&v, "Struct") {
        CompletionKind::Class
    } else if is(&v, "Module") || is(&v, "Namespace") {
        CompletionKind::Module
    } else if is(&v, "Keyword") {
        CompletionKind::Keyword
    } else if is(&v, "Snippet") {
        CompletionKind::Snippet
    } else {
        CompletionKind::Text
    }
}

/// The entry a bridge item becomes: its label, detail and documentation,
/// its kind mapped by [`bridge_kind_of`], sorted after native items by
/// `2_` and the ASCII-lowercased label, with no insert text.
pub open spec fn bridge_entry_ok(e: CompletionEntry, b: BridgeCompletion) -> bool {
    &&& e.label@ == b.label@
    &&& e.kind == bridge_kind_of(b.kind@)
    &&& e.detail == b.detail
    &&& e.documentation == b.documentation
    &&& e.insert_text is None
    &&& e.sort_text matches Some(t) && t@ == "2_"@ + ascii_lower_seq(b.label@)
}

/// The completion entries of the bridge's items, in order.
pub fn bridge_entries(items: Vec<BridgeCompletion>) -> (r: Vec<CompletionEntry>)
    ensures
        r@.len() == items@.len(),
        forall|i: int| 0 <= i < r@.len() ==> bridge_entry_ok(#[trigger] r@[i], items@[i]),
{
    let ghost all = items@;
    let mut out: Vec<CompletionEntry> = Vec::new();
    let mut rest = items;
    let mut i: usize = 0;
    assert(all.skip(0) =~= all);
    assert(all.len() == rest.len());
    while rest.len() > 0
        invariant
            all.len() <= usize::MAX,
            i + rest@.len() == all.len(),
            rest@ == all.skip(i as int),
            out@.len() == i,
            forall|t: int| 0 <= t < i ==> bridge_entry_ok(#[trigger] out@[t], all[t]),
        decreases rest@.len(),
    {
        let b = rest.remove(0);
        assert(b == all[i as int]);
        let mut sort = String::new();
        push_str(&mut sort, "2_");
        push_chars(&mut sort, &ascii_lower_vec(&chars_of(b.label.as_str())));
        let kind = bridge_kind(b.kind.as_str());
        let ghost bv = b;
        out.push(
            CompletionEntry {
                label: b.label,
                kind,
                detail: b.detail,
                documentation: b.documentation,
                insert_text: None,
                sort_text: Some(sort),
            },
        );
        assert(bridge_entry_ok(out@[i as int], all[i as int])) by {
            assert(sort@ =~= "2_"@ + ascii_lower_seq(bv.label@));
        }
        assert(rest@ =~= all.skip(i + 1));
        i = i + 1;
    }
    out
}

// ---------------------------------------------------------------------------
// Ordering the items offered
// ---------------------------------------------------------------------------

/// A completion entry as plain values: label, kind, detail, documentation,
/// insert text, sort text.
pub type EntryV = (Seq<char>, CompletionKind, Option<Seq<char>>, Option<Seq<char>>, Option<Seq<char>>, Option<Seq<char>>);

pub open spec fn entry_view(e: CompletionEntry) -> EntryV {
    (e.label@, e.kind, opt_view(e.detail), opt_view(e.documentation), opt_view(e.insert_text), opt_view(e.sort_text))
}

pub open spec fn entries_view(s: Seq<CompletionEntry>) -> Seq<EntryV> {
    s.map_values(|e: CompletionEntry| entry_view(e))
}

/// An entry with the number of parameters its detail lists.
pub type CountedV = (EntryV, usize);

/// The entries of `s` that are keywords (`kw`) or that are not, in order.
pub open spec fn keyword_part(s: Seq<CountedV>, kw: bool) -> Seq<CountedV>
    decreases s.len(),
{
    if s.len() == 0 {
        seq![]
    } else if (s.last().0.1 == CompletionKind::Keyword) == kw {
        keyword_part(s.drop_last(), kw).push(s.last())
    } else {
        keyword_part(s.drop_last(), kw)
    }
}

/// Some entry of `s` has a label equal to `l` once lowercased.
pub open spec fn has_label(s: Seq<CountedV>, l: Seq<char>) -> bool {
    exists|j: int| 0 <= j < s.len() && lowercase((#[trigger] s[j]).0.0) == l
}

/// The first entry of each lowercased label, in order.
pub open spec fn first_per_label(s: Seq<CountedV>) -> Seq<CountedV>
    decreases s.len(),
{
    if s.len() == 0 {
        seq![]
    } else {
        let prev = first_per_label(s.drop_last());
        if has_label(prev, lowercase(s.last().0.0)) {
            prev
        } else {
            prev.push(s.last())
        }
    }
}

/// The sort text an entry ends up with: its own when it has one; else
/// `1_`, then for a function or method its parameter count padded to two
/// digits and `_`, then the lowercased label.
pub open spec fn with_sort_text(p: CountedV) -> EntryV {
    let e = p.0;
    match e.5 {
        Some(_) => e,
        None => {
            let l = lowercase(e.0);
            let t = if e.1 == CompletionKind::Function || e.1 == CompletionKind::Method {
                "1_"@ + zero_pad(digits(p.1 as nat), 2) + "_"@ + l
            } else {
                "1_"@ + l
            };
            (e.0, e.1, e.2, e.3, e.4, Some(t))
        },
    }
}

/// The sort key of an entry: its sort text (characters compared in turn).
pub open spec fn sort_text_key(e: EntryV) -> SortKey {
    (
        match e.5 {
            Some(t) => t,
            None => seq![],
        },
        seq![],
    )
}

/// The finished list: non-keywords before keywords (each group in order),
/// the first entry of each label (ignoring case) kept, sort texts filled
/// in, then sorted by sort text, equal texts keeping their order.
pub open spec fn finalized(s: Seq<CountedV>) -> Seq<EntryV> {
    let kept = first_per_label(keyword_part(s, false) + keyword_part(s, true));
    isort(kept.map_values(|p: CountedV| with_sort_text(p)), |e: EntryV| sort_text_key(e))
}

proof fn lemma_ins_map(s: Seq<CompletionEntry>, x: CompletionEntry)
    ensures
        entries_view(ins(s, x, |e: CompletionEntry| sort_text_key(entry_view(e)))) == ins(
            entries_view(s),
            entry_view(x),
            |e: EntryV| sort_text_key(e),
        ),
    decreases s.len(),
{
    let k1 = |e: CompletionEntry| sort_text_key(entry_view(e));
    let k2 = |e: EntryV| sort_text_key(e);
    if s.len() == 0 {
        assert(entries_view(seq![x]) =~= seq![entry_view(x)]);
    } else {
        assert(entries_view(s)[0] == entry_view(s[0]));
        if crate::insight::discovery::key_lt(k1(x), k1(s[0])) {
            assert(entries_view(seq![x] + s) =~= seq![entry_view(x)] + entries_view(s));
        } else {
            lemma_ins_map(s.drop_first(), x);
            assert(entries_view(s.drop_first()) =~= entries_view(s).drop_first());
            assert(entries_view(seq![s[0]] + ins(s.drop_first(), x, k1)) =~= seq![entry_view(s[0])]
                + entries_view(ins(s.drop_first(), x, k1)));
        }
    }
}

proof fn lemma_isort_map(s: Seq<CompletionEntry>)
    ensures
        entries_view(isort(s, |e: CompletionEntry| sort_text_key(entry_view(e)))) == isort(
            entries_view(s),
            |e: EntryV| sort_text_key(e),
        ),
    decreases s.len(),
{
    if s.len() > 0 {
        lemma_isort_map(s.drop_last());
        assert(entries_view(s.drop_last()) =~= entries_view(s).drop_last());
        lemma_ins_map(isort(s.drop_last(), |e: CompletionEntry| sort_text_key(entry_view(e))), s.last());
    } else {
        assert(entries_view(s) =~= Seq::<EntryV>::empty());
    }
}

fn has_lower(seen: &Vec<Vec<char>>, l: &Vec<char>) -> (b: bool)
    ensures
        b == exists|j: int| 0 <= j < seen@.len() && (#[trigger] seen@[j])@ == l@,
{
    let mut j: usize = 0;
    while j < seen.len()
        invariant
            j <= seen@.len(),
            forall|t: int| 0 <= t < j ==> (#[trigger] seen@[t])@ != l@,
        decreases seen@.len() - j,
    {
        if vec_eq(&seen[j], l) {
            return true;
        }
        j = j + 1;
    }
    false
}

pub open spec fn counted_view(s: Seq<(CompletionEntry, usize)>) -> Seq<CountedV> {
    s.map_values(|p: (CompletionEntry, usize)| (entry_view(p.0), p.1))
}

/// The number of parameters an item's detail lists (none without a
/// detail).
pub open spec fn detail_params(e: CompletionEntry) -> usize {
    match e.detail {
        Some(d) => param_count(d@) as usize,
        None => 0,
    }
}

/// Orders the completion items offered (see [`finalized`]), each function
/// or method ranked by the number of parameters its detail lists.
pub fn finalize_completion_items(items: &mut Vec<CompletionEntry>)
    ensures
        entries_view(final(items)@) == finalized(
            Seq::new(old(items)@.len(), |i: int| (entry_view(old(items)@[i]), detail_params(old(items)@[i]))),
        ),
{
    let mut counts: Vec<usize> = Vec::new();
    let mut i: usize = 0;
    while i < items.len()
        invariant
            i <= items@.len(),
            counts@.len() == i,
            forall|j: int| 0 <= j < i ==> counts@[j] == detail_params(#[trigger] items@[j]),
        decreases items@.len() - i,
    {
        let n = match &items[i].detail {
            Some(d) => count_detail_params(d.as_str()),
            None => 0,
        };
        counts.push(n);
        i = i + 1;
    }
    let ghost before = items@;
    finalize_with_param_counts(items, &counts);
    assert(Seq::new(before.len(), |i: int| (entry_view(before[i]), counts@[i])) =~= Seq::new(
        before.len(),
        |i: int| (entry_view(before[i]), detail_params(before[i])),
    ));
}

/// Orders the completion items offered (see [`finalized`]);
/// `param_counts[i]` is the number of parameters the detail of item `i`
/// lists.
pub fn finalize_with_param_counts(items: &mut Vec<CompletionEntry>, param_counts: &Vec<usize>)
    requires
        old(items)@.len() == param_counts@.len(),
    ensures
        entries_view(final(items)@) == finalized(
            Seq::new(old(items)@.len(), |i: int| (entry_view(old(items)@[i]), param_counts@[i])),
        ),
{
    let ghost input = Seq::new(items@.len(), |i: int| (entry_view(items@[i]), param_counts@[i]));
    let mut rest: Vec<CompletionEntry> = Vec::new();
    std::mem::swap(items, &mut rest);
    let ghost all = rest@;
    // Non-keywords first, then keywords, each in order.
    let mut plain: Vec<(CompletionEntry, usize)> = Vec::new();
    let mut kws: Vec<(CompletionEntry, usize)> = Vec::new();
    let mut i: usize = 0;
    assert(all.skip(0) =~= all);
    assert(all.len() == rest.len());
    assert(input.take(0) =~= Seq::<CountedV>::empty());
    assert(counted_view(plain@) =~= Seq::<CountedV>::empty());
    assert(counted_view(kws@) =~= Seq::<CountedV>::empty());
    while rest.len() > 0
        invariant
            all.len() <= usize::MAX,
            all.len() == param_counts@.len(),
            input == Seq::new(all.len(), |k: int| (entry_view(all[k]), param_counts@[k])),
            i + rest@.len() == all.len(),
            rest@ == all.skip(i as int),
            counted_view(plain@) == keyword_part(input.take(i as int), false),
            counted_view(kws@) == keyword_part(input.take(i as int), true),
        decreases rest@.len(),
    {
        let e = rest.remove(0);
        assert(e == all[i as int]);
        assert(input.take(i + 1).drop_last() =~= input.take(i as int));
        assert(input.take(i + 1).last() == (entry_view(e), param_counts@[i as int]));
        let c = param_counts[i];
        let is_kw = match e.kind {
            CompletionKind::Keyword => true,
            _ => false,
        };
        if is_kw {
            let ghost k0 = counted_view(kws@);
            kws.push((e, c));
            assert(counted_view(kws@) =~= k0.push((entry_view(e), c)));
        } else {
            let ghost p0 = counted_view(plain@);
            plain.push((e, c));
            assert(counted_view(plain@) =~= p0.push((entry_view(e), c)));
        }
        assert(rest@ =~= all.skip(i + 1));
        i = i + 1;
    }
    assert(input.take(all.len() as int) =~= input);
    // Join the two groups.
    let ghost joined = counted_view(plain@) + counted_view(kws@);
    let mut combined = plain;
    let ghost kw0 = kws@;
    let mut krest = kws;
    let mut j: usize = 0;
    assert(kw0.skip(0) =~= kw0);
    assert(kw0.len() == krest.len());
    while krest.len() > 0
        invariant
            kw0.len() <= usize::MAX,
            j + krest@.len() == kw0.len(),
            krest@ == kw0.skip(j as int),
            joined == keyword_part(input, false) + counted_view(kw0),
            counted_view(combined@) == keyword_part(input, false) + counted_view(kw0).take(j as int),
        decreases krest@.len(),
    {
        let p = krest.remove(0);
        assert(p == kw0[j as int]);
        let ghost c0 = counted_view(combined@);
        combined.push(p);
        assert(counted_view(combined@) =~= c0.push((entry_view(p.0), p.1)));
        assert(counted_view(kw0).take(j + 1) =~= counted_view(kw0).take(j as int).push(
            (entry_view(p.0), p.1),
        ));
        assert(krest@ =~= kw0.skip(j + 1));
        j = j + 1;
    }
    assert(counted_view(kw0).take(kw0.len() as int) =~= counted_view(kw0));
    assert(counted_view(combined@) == joined);
    // Keep the first entry of each label.
    let ghost cj = combined@;
    let mut crest = combined;
    let mut kept: Vec<(CompletionEntry, usize)> = Vec::new();
    let mut seen: Vec<Vec<char>> = Vec::new();
    let mut t: usize = 0;
    assert(cj.skip(0) =~= cj);
    assert(cj.len() == crest.len());
    assert(joined.take(0) =~= Seq::<CountedV>::empty());
    assert(counted_view(kept@) =~= Seq::<CountedV>::empty());
    while crest.len() > 0
        invariant
            cj.len() <= usize::MAX,
            counted_view(cj) == joined,
            t + crest@.len() == cj.len(),
            crest@ == cj.skip(t as int),
            counted_view(kept@) == first_per_label(joined.take(t as int)),
            seen@.len() == kept@.len(),
            forall|x: int| 0 <= x < seen@.len() ==> (#[trigger] seen@[x])@ == lowercase(kept@[x].0.label@),
        decreases crest@.len(),
    {
        let p = crest.remove(0);
        assert(p == cj[t as int]);
        assert(joined.take(t + 1).drop_last() =~= joined.take(t as int));
        assert(joined.take(t + 1).last() == (entry_view(p.0), p.1));
        let l = lower_vec(&chars_of(p.0.label.as_str()));
        let ghost kv = counted_view(kept@);
        let dup = has_lower(&seen, &l);
        proof {
            if dup {
                let x = choose|x: int| 0 <= x < seen@.len() && (#[trigger] seen@[x])@ == l@;
                assert(kv[x].0.0 == kept@[x].0.label@);
                assert(has_label(kv, l@));
            } else {
                assert forall|x: int| 0 <= x < kv.len() implies lowercase((#[trigger] kv[x]).0.0) != l@ by {
                    assert(kv[x].0.0 == kept@[x].0.label@);
                    assert(seen@[x]@ != l@);
                }
            }
        }
        if !dup {
            kept.push(p);
            seen.push(l);
            assert(counted_view(kept@) =~= kv.push((entry_view(p.0), p.1)));
        }
        assert(crest@ =~= cj.skip(t + 1));
        t = t + 1;
    }
    assert(joined.take(cj.len() as int) =~= joined);
    let ghost kept_v = counted_view(kept@);
    // Fill in the sort texts.
    let ghost kp = kept@;
    let mut krest2 = kept;
    let mut out: Vec<CompletionEntry> = Vec::new();
    let mut keys: Vec<(Vec<char>, Vec<char>)> = Vec::new();
    let ghost key = |e: CompletionEntry| sort_text_key(entry_view(e));
    let mut u: usize = 0;
    assert(kp.skip(0) =~= kp);
    assert(kp.len() == krest2.len());
    assert(entries_view(out@) =~= Seq::<EntryV>::empty());
    while krest2.len() > 0
        invariant
            kp.len() <= usize::MAX,
            kept_v == counted_view(kp),
            u + krest2@.len() == kp.len(),
            krest2@ == kp.skip(u as int),
            entries_view(out@) == kept_v.take(u as int).map_values(|p: CountedV| with_sort_text(p)),
            keys_match(out@, keys@, key),
            key == (|e: CompletionEntry| sort_text_key(entry_view(e))),
        decreases krest2@.len(),
    {
        let p = krest2.remove(0);
        assert(p == kp[u as int]);
        let (e, c) = p;
        let ghost pv = (entry_view(e), c);
        assert(kept_v[u as int] == pv);
        let is_call = match e.kind {
            CompletionKind::Function => true,
            CompletionKind::Method => true,
            _ => false,
        };
        let e2 = match e.sort_text {
            Some(_) => e,
            None => {
                let l = lower_vec(&chars_of(e.label.as_str()));
                let mut st = String::new();
                push_str(&mut st, "1_");
                if is_call {
                    push_padded(&mut st, c as u64, 2);
                    push_str(&mut st, "_");
                }
                push_chars(&mut st, &l);
                proof {
                    reveal_strlit("1_");
                    reveal_strlit("_");
                }
                CompletionEntry {
                    label: e.label,
                    kind: e.kind,
                    detail: e.detail,
                    documentation: e.documentation,
                    insert_text: e.insert_text,
                    sort_text: Some(st),
                }
            },
        };
        assert(entry_view(e2) == with_sort_text(pv));
        let k: Vec<char> = match &e2.sort_text {
            Some(st) => chars_of(st.as_str()),
            None => Vec::new(),
        };
        assert(k@ == sort_text_key(entry_view(e2)).0);
        assert(key(e2) == sort_text_key(entry_view(e2)));
        assert((k@, Seq::<char>::empty()) == key(e2));
        let ghost o0 = out@;
        let ghost k0 = keys@;
        out.push(e2);
        keys.push((k, Vec::new()));
        proof {
            assert(entries_view(out@) =~= entries_view(o0).push(entry_view(e2)));
            assert(kept_v.take(u + 1) =~= kept_v.take(u as int).push(pv));
            assert(kept_v.take(u + 1).map_values(|p: CountedV| with_sort_text(p)) =~= kept_v.take(
                u as int,
            ).map_values(|p: CountedV| with_sort_text(p)).push(with_sort_text(pv)));
            assert forall|x: int| 0 <= x < keys@.len() implies (#[trigger] keys@[x]).0@ == key(out@[x]).0
                && keys@[x].1@ == key(out@[x]).1 by {
                if x < k0.len() {
                    assert(keys@[x] == k0[x]);
                    assert(out@[x] == o0[x]);
                }
            }
        }
        assert(krest2@ =~= kp.skip(u + 1));
        u = u + 1;
    }
    assert(kept_v.take(kp.len() as int) =~= kept_v);
    let sorted = sort_by_keys(out, keys, Ghost(key));
    proof {
        lemma_isort_map(out@);
    }
    *items = sorted;
}


// ---------------------------------------------------------------------------
// Building the items offered
// ---------------------------------------------------------------------------

/// An object of the symbol index: its name, kind, the kind as the index
/// writes it, and its id.
#[derive(Debug, Clone)]
pub struct IndexedObject {
    pub name: String,
    pub kind: AlObjectKind,
    pub kind_name: String,
    pub id: u32,
}

/// A variable in scope at the cursor: name, type, optional subtype, and the
/// label of its scope.
#[derive(Debug, Clone)]
pub struct ScopedVariable {
    pub name: String,
    pub var_type: String,
    pub type_subtype: Option<String>,
    pub scope_label: String,
}

/// A variable every trigger has (`Rec`, `xRec`, `CurrPage`, ...): name,
/// type and what it is.
#[derive(Debug, Clone)]
pub struct ImplicitVariable {
    pub name: String,
    pub var_type: String,
    pub description: String,
}

/// A procedure of the document: name and signature detail.
#[derive(Debug, Clone)]
pub struct DocumentProcedure {
    pub name: String,
    pub detail: Option<String>,
}

/// An item with only a label, kind, detail and sort text.
pub open spec fn plain_item(
    label: Seq<char>,
    kind: CompletionKind,
    detail: Option<Seq<char>>,
    sort_text: Option<Seq<char>>,
) -> EntryV {
    (label, kind, detail, None, None, sort_text)
}

pub open spec fn keyword_item(k: String) -> EntryV {
    plain_item(k@, CompletionKind::Keyword, None, None)
}

pub open spec fn implicit_item(v: ImplicitVariable) -> EntryV {
    plain_item(v.name@, CompletionKind::Variable, Some(v.var_type@ + " — "@ + v.description@), None)
}

pub open spec fn procedure_item(p: DocumentProcedure) -> EntryV {
    plain_item(p.name@, CompletionKind::Function, opt_view(p.detail), None)
}

/// A variable in scope: detail `<type> "<subtype>" (<scope>)`, ranked
/// before everything else.
pub open spec fn variable_item(v: ScopedVariable) -> EntryV {
    let subtype = match v.type_subtype {
        Some(s) => " \""@ + s@ + "\""@,
        None => Seq::<char>::empty(),
    };
    plain_item(
        v.name@,
        CompletionKind::Variable,
        Some(v.var_type@ + subtype + " ("@ + v.scope_label@ + ")"@),
        Some("0_"@ + v.name@),
    )
}

/// The completion kind an indexed object is offered as.
pub open spec fn object_completion_kind(k: AlObjectKind) -> CompletionKind {
    match k {
        AlObjectKind::Table | AlObjectKind::TableExtension => CompletionKind::Struct,
        AlObjectKind::Codeunit => CompletionKind::Module,
        AlObjectKind::Page | AlObjectKind::PageExtension => CompletionKind::Class,
        AlObjectKind::Enum | AlObjectKind::EnumExtension => CompletionKind::Enum,
        _ => CompletionKind::Reference,
    }
}

pub open spec fn object_detail(o: IndexedObject) -> Seq<char> {
    o.kind_name@ + " "@ + digits(o.id as nat)
}

pub open spec fn object_item(o: IndexedObject) -> EntryV {
    plain_item(o.name@, object_completion_kind(o.kind), Some(object_detail(o)), None)
}

pub open spec fn builtin_item(name: String) -> EntryV {
    plain_item(name@, CompletionKind::Class, Some("built-in type"@), None)
}

/// An object offered in a type position: its quoted name, as a class.
pub open spec fn type_object_item(o: IndexedObject) -> EntryV {
    plain_item("\""@ + o.name@ + "\""@, CompletionKind::Class, Some(object_detail(o)), None)
}

fn new_item(label: String, kind: CompletionKind, detail: Option<String>, sort_text: Option<String>) -> (r: CompletionEntry)
    ensures
        entry_view(r) == plain_item(label@, kind, opt_view(detail), opt_view(sort_text)),
{
    CompletionEntry { label, kind, detail, documentation: None, insert_text: None, sort_text }
}

/// Adds a keyword item for each keyword.
pub fn push_keyword_items(items: &mut Vec<CompletionEntry>, keywords: &Vec<String>)
    ensures
        entries_view(final(items)@) == entries_view(old(items)@) + keywords@.map_values(|k: String| keyword_item(k)),
{
    let ghost start = entries_view(items@);
    let mut i: usize = 0;
    while i < keywords.len()
        invariant
            i <= keywords@.len(),
            entries_view(items@) == start + keywords@.take(i as int).map_values(|k: String| keyword_item(k)),
        decreases keywords@.len() - i,
    {
        let e = new_item(keywords[i].clone(), CompletionKind::Keyword, None, None);
        let ghost prev = entries_view(items@);
        let ghost ev = entry_view(e);
        items.push(e);
        assert(entries_view(items@) =~= prev.push(ev));
        assert(entries_view(items@) =~= start + keywords@.take(i + 1).map_values(|k: String| keyword_item(k)));
        i = i + 1;
    }
    assert(keywords@.take(keywords@.len() as int) =~= keywords@);
}

/// Adds an item for each implicit trigger variable: detail `<type> — <what
/// it is>`.
pub fn push_implicit_items(items: &mut Vec<CompletionEntry>, vars: &Vec<ImplicitVariable>)
    ensures
        entries_view(final(items)@) == entries_view(old(items)@) + vars@.map_values(|v: ImplicitVariable| implicit_item(v)),
{
    let ghost start = entries_view(items@);
    let mut i: usize = 0;
    while i < vars.len()
        invariant
            i <= vars@.len(),
            entries_view(items@) == start + vars@.take(i as int).map_values(|v: ImplicitVariable| implicit_item(v)),
        decreases vars@.len() - i,
    {
        let v = &vars[i];
        let mut d = String::new();
        push_str(&mut d, v.var_type.as_str());
        push_str(&mut d, " — ");
        push_str(&mut d, v.description.as_str());
        let e = new_item(v.name.clone(), CompletionKind::Variable, Some(d), None);
        let ghost prev = entries_view(items@);
        let ghost ev = entry_view(e);
        items.push(e);
        assert(entries_view(items@) =~= prev.push(ev));
        assert(entries_view(items@) =~= start + vars@.take(i + 1).map_values(|v: ImplicitVariable| implicit_item(v)));
        i = i + 1;
    }
    assert(vars@.take(vars@.len() as int) =~= vars@);
}

/// Adds a function item for each procedure of the document.
pub fn push_procedure_items(items: &mut Vec<CompletionEntry>, procs: &Vec<DocumentProcedure>)
    ensures
        entries_view(final(items)@) == entries_view(old(items)@) + procs@.map_values(|p: DocumentProcedure| procedure_item(p)),
{
    let ghost start = entries_view(items@);
    let mut i: usize = 0;
    while i < procs.len()
        invariant
            i <= procs@.len(),
            entries_view(items@) == start + procs@.take(i as int).map_values(|p: DocumentProcedure| procedure_item(p)),
        decreases procs@.len() - i,
    {
        let p = &procs[i];
        let detail = match &p.detail {
            Some(d) => Some(d.clone()),
            None => None,
        };
        let e = new_item(p.name.clone(), CompletionKind::Function, detail, None);
        let ghost prev = entries_view(items@);
        let ghost ev = entry_view(e);
        items.push(e);
        assert(entries_view(items@) =~= prev.push(ev));
        assert(entries_view(items@) =~= start + procs@.take(i + 1).map_values(|p: DocumentProcedure| procedure_item(p)));
        i = i + 1;
    }
    assert(procs@.take(procs@.len() as int) =~= procs@);
}

/// Adds an item for each variable in scope (see [`variable_item`]).
pub fn push_variable_items(items: &mut Vec<CompletionEntry>, vars: &Vec<ScopedVariable>)
    ensures
        entries_view(final(items)@) == entries_view(old(items)@) + vars@.map_values(|v: ScopedVariable| variable_item(v)),
{
    let ghost start = entries_view(items@);
    let mut i: usize = 0;
    while i < vars.len()
        invariant
            i <= vars@.len(),
            entries_view(items@) == start + vars@.take(i as int).map_values(|v: ScopedVariable| variable_item(v)),
        decreases vars@.len() - i,
    {
        let v = &vars[i];
        let mut d = String::new();
        push_str(&mut d, v.var_type.as_str());
        match &v.type_subtype {
            Some(s) => {
                push_str(&mut d, " \"");
                push_str(&mut d, s.as_str());
                push_str(&mut d, "\"");
            },
            None => {},
        }
        push_str(&mut d, " (");
        push_str(&mut d, v.scope_label.as_str());
        push_str(&mut d, ")");
        let mut st = String::new();
        push_str(&mut st, "0_");
        push_str(&mut st, v.name.as_str());
        let e = new_item(v.name.clone(), CompletionKind::Variable, Some(d), Some(st));
        assert(entry_view(e) == variable_item(*v));
        let ghost prev = entries_view(items@);
        let ghost ev = entry_view(e);
        items.push(e);
        assert(entries_view(items@) =~= prev.push(ev));
        assert(entries_view(items@) =~= start + vars@.take(i + 1).map_values(|v: ScopedVariable| variable_item(v)));
        i = i + 1;
    }
    assert(vars@.take(vars@.len() as int) =~= vars@);
}

fn object_detail_text(o: &IndexedObject) -> (r: String)
    ensures
        r@ == object_detail(*o),
{
    let mut d = String::new();
    push_str(&mut d, o.kind_name.as_str());
    push_str(&mut d, " ");
    push_decimal(&mut d, o.id as u64);
    d
}

fn object_kind_to_completion(k: AlObjectKind) -> (r: CompletionKind)
    ensures
        r == object_completion_kind(k),
{
    match k {
        AlObjectKind::Table | AlObjectKind::TableExtension => CompletionKind::Struct,
        AlObjectKind::Codeunit => CompletionKind::Module,
        AlObjectKind::Page | AlObjectKind::PageExtension => CompletionKind::Class,
        AlObjectKind::Enum | AlObjectKind::EnumExtension => CompletionKind::Enum,
        _ => CompletionKind::Reference,
    }
}

/// Adds an item for each object of the symbol index (see [`object_item`]).
pub fn push_object_items(items: &mut Vec<CompletionEntry>, objects: &Vec<IndexedObject>)
    ensures
        entries_view(final(items)@) == entries_view(old(items)@) + objects@.map_values(|o: IndexedObject| object_item(o)),
{
    let ghost start = entries_view(items@);
    let mut i: usize = 0;
    while i < objects.len()
        invariant
            i <= objects@.len(),
            entries_view(items@) == start + objects@.take(i as int).map_values(|o: IndexedObject| object_item(o)),
        decreases objects@.len() - i,
    {
        let o = &objects[i];
        let e = new_item(o.name.clone(), object_kind_to_completion(o.kind), Some(object_detail_text(o)), None);
        let ghost prev = entries_view(items@);
        let ghost ev = entry_view(e);
        items.push(e);
        assert(entries_view(items@) =~= prev.push(ev));
        assert(entries_view(items@) =~= start + objects@.take(i + 1).map_values(|o: IndexedObject| object_item(o)));
        i = i + 1;
    }
    assert(objects@.take(objects@.len() as int) =~= objects@);
}

/// Adds a class item for each built-in type.
pub fn push_builtin_items(items: &mut Vec<CompletionEntry>, builtins: &Vec<String>)
    ensures
        entries_view(final(items)@) == entries_view(old(items)@) + builtins@.map_values(|b: String| builtin_item(b)),
{
    let ghost start = entries_view(items@);
    let mut i: usize = 0;
    proof {
        reveal_strlit("built-in type");
    }
    while i < builtins.len()
        invariant
            i <= builtins@.len(),
            entries_view(items@) == start + builtins@.take(i as int).map_values(|b: String| builtin_item(b)),
        decreases builtins@.len() - i,
    {
        let e = new_item(builtins[i].clone(), CompletionKind::Class, Some("built-in type".to_string()), None);
        let ghost prev = entries_view(items@);
        let ghost ev = entry_view(e);
        items.push(e);
        assert(entries_view(items@) =~= prev.push(ev));
        assert(entries_view(items@) =~= start + builtins@.take(i + 1).map_values(|b: String| builtin_item(b)));
        i = i + 1;
    }
    assert(builtins@.take(builtins@.len() as int) =~= builtins@);
}

/// The items of the default context after the implicit variables: the
/// control and operator keywords, the document's procedures, the variables
/// in scope, the objects of the symbol index and the built-in types, in
/// that order.
pub fn add_default_completions(
    items: &mut Vec<CompletionEntry>,
    keywords: &Vec<String>,
    procedures: &Vec<DocumentProcedure>,
    variables: &Vec<ScopedVariable>,
    objects: &Vec<IndexedObject>,
    builtins: &Vec<String>,
)
    ensures
        entries_view(final(items)@) == entries_view(old(items)@) + keywords@.map_values(|k: String| keyword_item(k))
            + procedures@.map_values(|p: DocumentProcedure| procedure_item(p)) + variables@.map_values(
            |v: ScopedVariable| variable_item(v),
        ) + objects@.map_values(|o: IndexedObject| object_item(o)) + builtins@.map_values(
            |b: String| builtin_item(b),
        ),
{
    push_keyword_items(items, keywords);
    push_procedure_items(items, procedures);
    push_variable_items(items, variables);
    push_object_items(items, objects);
    push_builtin_items(items, builtins);
}

/// At most this many objects of each kind are offered in a type position.
pub const TYPE_OBJECTS_PER_KIND: usize = 50;

/// Which of the kinds offered in a type position (table, enum, codeunit,
/// interface) an object is; -1 for the others.
pub open spec fn type_slot(k: AlObjectKind) -> int {
    match k {
        AlObjectKind::Table => 0,
        AlObjectKind::Enum => 1,
        AlObjectKind::Codeunit => 2,
        AlObjectKind::Interface => 3,
        _ => -1,
    }
}

/// How many of the first `n` objects are of slot `slot`.
pub open spec fn slot_count(objs: Seq<IndexedObject>, n: int, slot: int) -> nat
    decreases n,
{
    if n <= 0 || n > objs.len() {
        0
    } else {
        slot_count(objs, n - 1, slot) + (if type_slot(objs[n - 1].kind) == slot { 1nat } else { 0nat })
    }
}

/// The objects offered in a type position among the first `n`: those of
/// the four kinds, the first 50 of each kind, in order.
pub open spec fn type_objects(objs: Seq<IndexedObject>, n: int) -> Seq<EntryV>
    decreases n,
{
    if n <= 0 || n > objs.len() {
        seq![]
    } else {
        let prev = type_objects(objs, n - 1);
        let o = objs[n - 1];
        let s = type_slot(o.kind);
        if s >= 0 && slot_count(objs, n - 1, s) < 50 {
            prev.push(type_object_item(o))
        } else {
            prev
        }
    }
}

fn slot_of(k: AlObjectKind) -> (r: Option<usize>)
    ensures
        match r {
            Some(s) => s == type_slot(k) && s < 4,
            None => type_slot(k) < 0,
        },
{
    match k {
        AlObjectKind::Table => Some(0),
        AlObjectKind::Enum => Some(1),
        AlObjectKind::Codeunit => Some(2),
        AlObjectKind::Interface => Some(3),
        _ => None,
    }
}

/// The items of a type position: a keyword item for each type keyword,
/// then the quoted names of tables, enums, codeunits and interfaces of the
/// symbol index, the first 50 of each kind.
pub fn push_type_position_items(
    items: &mut Vec<CompletionEntry>,
    type_keywords: &Vec<String>,
    objects: &Vec<IndexedObject>,
)
    ensures
        entries_view(final(items)@) == entries_view(old(items)@) + type_keywords@.map_values(
            |k: String| keyword_item(k),
        ) + type_objects(objects@, objects@.len() as int),
{
    push_keyword_items(items, type_keywords);
    let ghost start = entries_view(items@);
    let mut counts: Vec<usize> = vec![0, 0, 0, 0];
    let mut i: usize = 0;
    while i < objects.len()
        invariant
            i <= objects@.len(),
            counts@.len() == 4,
            forall|s: int|
                0 <= s < 4 ==> #[trigger] counts@[s] == (if slot_count(objects@, i as int, s) < 50 {
                    slot_count(objects@, i as int, s)
                } else {
                    50
                }),
            entries_view(items@) == start + type_objects(objects@, i as int),
        decreases objects@.len() - i,
    {
        let o = &objects[i];
        assert(forall|s: int| #[trigger] slot_count(objects@, i + 1, s) == slot_count(objects@, i as int, s) + (
        if type_slot(objects@[i as int].kind) == s {
            1nat
        } else {
            0nat
        }));
        match slot_of(o.kind) {
            Some(s) => {
                if counts[s] < TYPE_OBJECTS_PER_KIND {
                    counts.set(s, counts[s] + 1);
                    let mut label = String::new();
                    push_str(&mut label, "\"");
                    push_str(&mut label, o.name.as_str());
                    push_str(&mut label, "\"");
                    let e = new_item(label, CompletionKind::Class, Some(object_detail_text(o)), None);
                    let ghost prev = entries_view(items@);
                    let ghost ev = entry_view(e);
                    items.push(e);
                    assert(entries_view(items@) =~= prev.push(ev));
                }
            },
            None => {},
        }
        assert(entries_view(items@) =~= start + type_objects(objects@, i + 1));
        i = i + 1;
    }
}


/// The number of parameters a detail lists, on an item's plain values.
pub open spec fn entry_params(e: EntryV) -> usize {
    match e.2 {
        Some(d) => param_count(d) as usize,
        None => 0,
    }
}

/// The items offered: none when there are none, else ordered by
/// [`finalized`].
pub open spec fn offered(s: Seq<EntryV>) -> Seq<EntryV> {
    if s.len() == 0 {
        s
    } else {
        finalized(Seq::new(s.len(), |i: int| (s[i], entry_params(s[i]))))
    }
}

fn finalize_if_any(items: &mut Vec<CompletionEntry>)
    ensures
        entries_view(final(items)@) == offered(entries_view(old(items)@)),
{
    if items.len() > 0 {
        let ghost before = items@;
        finalize_completion_items(items);
        let ghost v = entries_view(before);
        assert(Seq::new(before.len(), |i: int| (entry_view(before[i]), detail_params(before[i]))) =~= Seq::new(
            v.len(),
            |i: int| (v[i], entry_params(v[i])),
        ));
    } else {
        assert(entries_view(items@) =~= Seq::<EntryV>::empty());
    }
}

/// The completions of the default context: the implicit trigger
/// variables, then the items of [`add_default_completions`], ordered (see
/// [`offered`]).
pub fn default_context_completions(
    implicit: &Vec<ImplicitVariable>,
    keywords: &Vec<String>,
    procedures: &Vec<DocumentProcedure>,
    variables: &Vec<ScopedVariable>,
    objects: &Vec<IndexedObject>,
    builtins: &Vec<String>,
) -> (r: Vec<CompletionEntry>)
    ensures
        entries_view(r@) == offered(
            implicit@.map_values(|v: ImplicitVariable| implicit_item(v)) + keywords@.map_values(
                |k: String| keyword_item(k),
            ) + procedures@.map_values(|p: DocumentProcedure| procedure_item(p)) + variables@.map_values(
                |v: ScopedVariable| variable_item(v),
            ) + objects@.map_values(|o: IndexedObject| object_item(o)) + builtins@.map_values(
                |b: String| builtin_item(b),
            ),
        ),
{
    let mut items: Vec<CompletionEntry> = Vec::new();
    assert(entries_view(items@) =~= Seq::<EntryV>::empty());
    push_implicit_items(&mut items, implicit);
    assert(entries_view(items@) =~= implicit@.map_values(|v: ImplicitVariable| implicit_item(v)));
    add_default_completions(&mut items, keywords, procedures, variables, objects, builtins);
    finalize_if_any(&mut items);
    items
}

/// The completions of a type position: the type keywords, then the
/// quoted names of tables, enums, codeunits and interfaces, the first 50
/// of each kind, ordered (see [`offered`]).
pub fn type_position_completions(type_keywords: &Vec<String>, objects: &Vec<IndexedObject>) -> (r: Vec<
    CompletionEntry,
>)
    ensures
        entries_view(r@) == offered(
            type_keywords@.map_values(|k: String| keyword_item(k)) + type_objects(objects@, objects@.len() as int),
        ),
{
    let mut items: Vec<CompletionEntry> = Vec::new();
    assert(entries_view(items@) =~= Seq::<EntryV>::empty());
    push_type_position_items(&mut items, type_keywords, objects);
    assert(entries_view(items@) =~= type_keywords@.map_values(|k: String| keyword_item(k)) + type_objects(
        objects@,
        objects@.len() as int,
    ));
    finalize_if_any(&mut items);
    items
}

} // verus!
