//! Event discovery results: the events published in the workspace, their
//! subscribers, and subscribers whose event no longer exists.

use vstd::prelude::*;

use super::index::NodeId;
use crate::text::{ascii_lower_seq, ascii_lower_vec, chars_of};

verus! {

/// Where an event is published.
#[derive(Debug, Clone)]
pub struct PublisherInfo {
    pub object_kind: String,
    pub object_name: String,
    pub event_name: String,
    pub event_type: String,
}

/// Where an event subscriber is.
#[derive(Debug, Clone)]
pub struct SubscriberInfo {
    pub object_kind: String,
    pub object_name: String,
    pub method_name: String,
}

/// An event with its publisher and all its subscribers in the workspace.
#[derive(Debug, Clone)]
pub struct DiscoveredEvent {
    pub event_name: String,
    pub publisher: PublisherInfo,
    pub subscribers: Vec<SubscriberInfo>,
    /// Number of subscribers.
    pub subscriber_count: usize,
    /// Whether any subscriber is attached.
    pub has_subscribers: bool,
}

/// A subscriber whose target event is not published in the workspace.
#[derive(Debug, Clone)]
pub struct OrphanSubscriber {
    pub object_kind: String,
    pub object_name: String,
    pub method_name: String,
    /// The publisher object it targets.
    pub target_object: String,
    /// The event it targets.
    pub target_event: String,
}

/// The result of an event discovery.
#[derive(Debug, Clone)]
pub struct EventDiscoveryResult {
    pub events: Vec<DiscoveredEvent>,
    pub orphan_subscribers: Vec<OrphanSubscriber>,
    /// Number of events.
    pub total_events: usize,
    /// Number of orphan subscribers.
    pub total_orphans: usize,
}

// ---------------------------------------------------------------------------
// Ordering: ASCII-lowercased names, compared character by character
// ---------------------------------------------------------------------------

/// `a` comes before `b` lexicographically by character code (a proper
/// prefix first).
pub open spec fn lex_lt(a: Seq<char>, b: Seq<char>) -> bool
    decreases a.len(),
{
    if a.len() == 0 {
        b.len() > 0
    } else if b.len() == 0 {
        false
    } else if a[0] != b[0] {
        (a[0] as u32) < (b[0] as u32)
    } else {
        lex_lt(a.drop_first(), b.drop_first())
    }
}

/// A sort key: two names, compared in turn.
pub type SortKey = (Seq<char>, Seq<char>);

/// `a` comes strictly before `b`.
pub open spec fn key_lt(a: SortKey, b: SortKey) -> bool {
    lex_lt(a.0, b.0) || (a.0 == b.0 && lex_lt(a.1, b.1))
}

/// `s` with `x` inserted before the first element that `x` precedes (after
/// all the elements that do not come after it).
pub open spec fn ins<V>(s: Seq<V>, x: V, key: spec_fn(V) -> SortKey) -> Seq<V>
    decreases s.len(),
{
    if s.len() == 0 {
        seq![x]
    } else if key_lt(key(x), key(s[0])) {
        seq![x] + s
    } else {
        seq![s[0]] + ins(s.drop_first(), x, key)
    }
}

/// `s` sorted by `key`, equal keys keeping their order (insertion sort).
pub open spec fn isort<V>(s: Seq<V>, key: spec_fn(V) -> SortKey) -> Seq<V>
    decreases s.len(),
{
    if s.len() == 0 {
        seq![]
    } else {
        ins(isort(s.drop_last(), key), s.last(), key)
    }
}

/// No element of `s` comes strictly before an earlier one.
pub open spec fn sorted_by_key<V>(s: Seq<V>, key: spec_fn(V) -> SortKey) -> bool {
    forall|i: int, j: int| 0 <= i < j < s.len() ==> !key_lt(key(s[j]), key(s[i]))
}

proof fn lemma_lex_irrefl(a: Seq<char>)
    ensures
        !lex_lt(a, a),
    decreases a.len(),
{
    if a.len() > 0 {
        lemma_lex_irrefl(a.drop_first());
    }
}

proof fn lemma_lex_trans(a: Seq<char>, b: Seq<char>, c: Seq<char>)
    requires
        lex_lt(a, b),
        lex_lt(b, c),
    ensures
        lex_lt(a, c),
    decreases a.len(),
{
    if a.len() > 0 && b.len() > 0 && c.len() > 0 && a[0] == b[0] && b[0] == c[0] {
        lemma_lex_trans(a.drop_first(), b.drop_first(), c.drop_first());
    }
}

proof fn lemma_key_trans(a: SortKey, b: SortKey, c: SortKey)
    requires
        key_lt(a, b),
        key_lt(b, c),
    ensures
        key_lt(a, c),
{
    if lex_lt(a.0, b.0) && lex_lt(b.0, c.0) {
        lemma_lex_trans(a.0, b.0, c.0);
    } else if a.0 == b.0 && b.0 == c.0 {
        if lex_lt(a.1, b.1) && lex_lt(b.1, c.1) {
            lemma_lex_trans(a.1, b.1, c.1);
        }
    }
}

proof fn lemma_ins_members<V>(s: Seq<V>, x: V, key: spec_fn(V) -> SortKey)
    ensures
        ins(s, x, key).len() == s.len() + 1,
        ins(s, x, key).to_multiset() == s.to_multiset().insert(x),
        forall|y: V| ins(s, x, key).contains(y) ==> y == x || s.contains(y),
    decreases s.len(),
{
    broadcast use vstd::seq_lib::group_to_multiset_ensures;
    broadcast use vstd::multiset::group_multiset_axioms;

    if s.len() == 0 {
        assert(seq![x].to_multiset() =~= Seq::<V>::empty().to_multiset().insert(x)) by {
            assert(seq![x] =~= Seq::<V>::empty().push(x));
        }
    } else if key_lt(key(x), key(s[0])) {
        assert(seq![x] + s =~= s.insert(0, x));
        vstd::seq_lib::to_multiset_insert(s, 0, x);
    } else {
        let r = s.drop_first();
        lemma_ins_members(r, x, key);
        assert(seq![s[0]] + ins(r, x, key) =~= ins(r, x, key).insert(0, s[0]));
        vstd::seq_lib::to_multiset_insert(ins(r, x, key), 0, s[0]);
        assert(s =~= r.insert(0, s[0]));
        vstd::seq_lib::to_multiset_insert(r, 0, s[0]);
        assert forall|y: V| ins(s, x, key).contains(y) implies y == x || s.contains(y) by {
            let k = choose|k: int| 0 <= k < ins(s, x, key).len() && ins(s, x, key)[k] == y;
            if k > 0 {
                assert(ins(r, x, key)[k - 1] == y);
                if y != x {
                    assert(r.contains(y));
                    let m = choose|m: int| 0 <= m < r.len() && r[m] == y;
                    assert(s[m + 1] == y);
                }
            }
        }
    }
}

proof fn lemma_ins_sorted<V>(s: Seq<V>, x: V, key: spec_fn(V) -> SortKey)
    requires
        sorted_by_key(s, key),
    ensures
        sorted_by_key(ins(s, x, key), key),
    decreases s.len(),
{
    if s.len() == 0 {
    } else if key_lt(key(x), key(s[0])) {
        let t = seq![x] + s;
        assert forall|i: int, j: int| 0 <= i < j < t.len() implies !key_lt(key(t[j]), key(t[i])) by {
            if i == 0 {
                assert(t[j] == s[j - 1]);
                if key_lt(key(s[j - 1]), key(x)) {
                    lemma_key_trans(key(s[j - 1]), key(x), key(s[0]));
                    if j - 1 == 0 {
                        lemma_lex_irrefl(key(s[0]).0);
                        lemma_lex_irrefl(key(s[0]).1);
                    }
                }
            } else {
                assert(t[i] == s[i - 1]);
                assert(t[j] == s[j - 1]);
            }
        }
    } else {
        let r = s.drop_first();
        assert(sorted_by_key(r, key)) by {
            assert forall|i: int, j: int| 0 <= i < j < r.len() implies !key_lt(
                key(r[j]),
                key(r[i]),
            ) by {
                assert(r[i] == s[i + 1]);
                assert(r[j] == s[j + 1]);
            }
        }
        lemma_ins_sorted(r, x, key);
        lemma_ins_members(r, x, key);
        let u = ins(r, x, key);
        let t = seq![s[0]] + u;
        assert forall|i: int, j: int| 0 <= i < j < t.len() implies !key_lt(key(t[j]), key(t[i])) by {
            if i == 0 {
                assert(t[j] == u[j - 1]);
                assert(u.contains(u[j - 1]));
                if u[j - 1] != x {
                    assert(r.contains(u[j - 1]));
                    let m = choose|m: int| 0 <= m < r.len() && r[m] == u[j - 1];
                    assert(s[m + 1] == u[j - 1]);
                }
            } else {
                assert(t[i] == u[i - 1]);
                assert(t[j] == u[j - 1]);
            }
        }
    }
}

/// Sorting sorts, and keeps every element (as often as it occurs).
pub proof fn lemma_isort<V>(s: Seq<V>, key: spec_fn(V) -> SortKey)
    ensures
        sorted_by_key(isort(s, key), key),
        isort(s, key).to_multiset() == s.to_multiset(),
    decreases s.len(),
{
    broadcast use vstd::seq_lib::group_to_multiset_ensures;

    if s.len() > 0 {
        lemma_isort(s.drop_last(), key);
        lemma_ins_sorted(isort(s.drop_last(), key), s.last(), key);
        lemma_ins_members(isort(s.drop_last(), key), s.last(), key);
        assert(s =~= s.drop_last().push(s.last()));
    } else {
        assert(isort(s, key) =~= s);
    }
}

fn lex_lt_vec(a: &Vec<char>, b: &Vec<char>) -> (r: bool)
    ensures
        r == lex_lt(a@, b@),
{
    let mut i: usize = 0;
    assert(a@.skip(0) =~= a@);
    assert(b@.skip(0) =~= b@);
    loop
        invariant
            i <= a@.len(),
            i <= b@.len(),
            lex_lt(a@, b@) == lex_lt(a@.skip(i as int), b@.skip(i as int)),
        decreases a@.len() - i,
    {
        if i == a.len() {
            return i < b.len();
        }
        if i == b.len() {
            return false;
        }
        if a[i] != b[i] {
            return (a[i] as u32) < (b[i] as u32);
        }
        assert(a@.skip(i as int).drop_first() =~= a@.skip(i + 1));
        assert(b@.skip(i as int).drop_first() =~= b@.skip(i + 1));
        i = i + 1;
    }
}

fn key_lt_vec(a: &(Vec<char>, Vec<char>), b: &(Vec<char>, Vec<char>)) -> (r: bool)
    ensures
        r == key_lt((a.0@, a.1@), (b.0@, b.1@)),
{
    if lex_lt_vec(&a.0, &b.0) {
        return true;
    }
    crate::text::vec_eq(&a.0, &b.0) && lex_lt_vec(&a.1, &b.1)
}

/// The keys held beside `out` are the keys of its elements.
pub open spec fn keys_match<T>(out: Seq<T>, keys: Seq<(Vec<char>, Vec<char>)>, key: spec_fn(T) -> SortKey) -> bool {
    &&& out.len() == keys.len()
    &&& forall|i: int| 0 <= i < keys.len() ==> (#[trigger] keys[i]).0@ == key(out[i]).0 && keys[i].1@
        == key(out[i]).1
}

fn insert_sorted<T>(
    out: &mut Vec<T>,
    keys: &mut Vec<(Vec<char>, Vec<char>)>,
    x: T,
    k: (Vec<char>, Vec<char>),
    Ghost(key): Ghost<spec_fn(T) -> SortKey>,
)
    requires
        keys_match(old(out)@, old(keys)@, key),
        (k.0@, k.1@) == key(x),
    ensures
        final(out)@ == ins(old(out)@, x, key),
        keys_match(final(out)@, final(keys)@, key),
{
    let ghost o0 = out@;
    let mut p: usize = 0;
    assert(o0.skip(0) =~= o0);
    while p < keys.len() && !key_lt_vec(&k, &keys[p])
        invariant
            p <= keys@.len(),
            keys_match(out@, keys@, key),
            out@ == o0,
            (k.0@, k.1@) == key(x),
            ins(o0, x, key) == o0.take(p as int) + ins(o0.skip(p as int), x, key),
        decreases keys@.len() - p,
    {
        proof {
            let r = o0.skip(p as int);
            assert(r[0] == o0[p as int]);
            assert(r.drop_first() =~= o0.skip(p + 1));
            assert(o0.take(p as int) + (seq![o0[p as int]] + ins(o0.skip(p + 1), x, key))
                =~= o0.take(p + 1) + ins(o0.skip(p + 1), x, key));
        }
        p = p + 1;
    }
    proof {
        let r = o0.skip(p as int);
        if p < o0.len() {
            assert(r[0] == o0[p as int]);
        }
        assert(ins(r, x, key) == seq![x] + r);
        assert(o0.take(p as int) + (seq![x] + r) =~= o0.insert(p as int, x));
    }
    out.insert(p, x);
    keys.insert(p, k);
    proof {
        assert forall|i: int| 0 <= i < keys@.len() implies (#[trigger] keys@[i]).0@ == key(
            out@[i],
        ).0 && keys@[i].1@ == key(out@[i]).1 by {
            if i > p {
                assert(keys@[i] == old(keys)@[i - 1]);
                assert(out@[i] == o0[i - 1]);
            } else if i < p {
                assert(keys@[i] == old(keys)@[i]);
                assert(out@[i] == o0[i]);
            }
        }
    }
}

/// Insertion sort of a vector by the keys of its elements.
pub(crate) fn sort_by_keys<T>(
    items: Vec<T>,
    keys_in: Vec<(Vec<char>, Vec<char>)>,
    Ghost(key): Ghost<spec_fn(T) -> SortKey>,
) -> (r: Vec<T>)
    requires
        keys_match(items@, keys_in@, key),
    ensures
        r@ == isort(items@, key),
{
    let ghost all = items@;
    let ghost all_keys = keys_in@;
    let mut rest = items;
    let mut rest_keys = keys_in;
    let mut out: Vec<T> = Vec::new();
    let mut out_keys: Vec<(Vec<char>, Vec<char>)> = Vec::new();
    let mut i: usize = 0;
    assert(all.take(0) =~= Seq::<T>::empty());
    assert(all.len() == rest.len());
    while rest.len() > 0
        invariant
            all.len() <= usize::MAX,
            i + rest@.len() == all.len(),
            rest@ == all.skip(i as int),
            rest_keys@ == all_keys.skip(i as int),
            keys_match(all, all_keys, key),
            keys_match(out@, out_keys@, key),
            out@ == isort(all.take(i as int), key),
        decreases rest@.len(),
    {
        let x = rest.remove(0);
        let k = rest_keys.remove(0);
        assert(x == all[i as int]);
        assert(k == all_keys[i as int]);
        insert_sorted(&mut out, &mut out_keys, x, k, Ghost(key));
        assert(all.take(i + 1).drop_last() =~= all.take(i as int));
        assert(all.take(i + 1).last() == x);
        assert(rest@ =~= all.skip(i + 1));
        assert(rest_keys@ =~= all_keys.skip(i + 1));
        i = i + 1;
    }
    assert(all.take(all.len() as int) =~= all);
    out
}

// ---------------------------------------------------------------------------
// Discovery
// ---------------------------------------------------------------------------

/// An event node of the insight graph.
#[derive(Debug, Clone)]
pub struct EventNode {
    pub id: NodeId,
    pub object_kind: String,
    pub object_name: String,
    pub name: String,
    /// `Integration` or `Business`.
    pub event_type: String,
}

/// A subscriber node of the insight graph, with the event nodes its
/// subscription edges lead to.
#[derive(Debug, Clone)]
pub struct SubscriberNode {
    pub object_kind: String,
    pub object_name: String,
    pub name: String,
    pub target_object: String,
    pub target_event: String,
    pub subscribed: Vec<NodeId>,
}

/// A subscriber as plain values: object kind, object name, method.
pub type SubV = (Seq<char>, Seq<char>, Seq<char>);

pub open spec fn sub_view(s: SubscriberInfo) -> SubV {
    (s.object_kind@, s.object_name@, s.method_name@)
}

pub open spec fn sub_key(v: SubV) -> SortKey {
    (ascii_lower_seq(v.1), ascii_lower_seq(v.2))
}

/// An event as plain values: name, publisher (kind, object, event, type),
/// subscribers, their count, whether there are any.
pub type EventV = (Seq<char>, (Seq<char>, Seq<char>, Seq<char>, Seq<char>), Seq<SubV>, nat, bool);

pub open spec fn event_view(e: DiscoveredEvent) -> EventV {
    (
        e.event_name@,
        (
            e.publisher.object_kind@,
            e.publisher.object_name@,
            e.publisher.event_name@,
            e.publisher.event_type@,
        ),
        e.subscribers@.map_values(|s: SubscriberInfo| sub_view(s)),
        e.subscriber_count as nat,
        e.has_subscribers,
    )
}

pub open spec fn event_key(v: EventV) -> SortKey {
    (ascii_lower_seq(v.1.1), ascii_lower_seq(v.0))
}

/// An orphan as plain values: kind, object, method, target object, target
/// event.
pub type OrphanV = (Seq<char>, Seq<char>, Seq<char>, Seq<char>, Seq<char>);

pub open spec fn orphan_view(o: OrphanSubscriber) -> OrphanV {
    (o.object_kind@, o.object_name@, o.method_name@, o.target_object@, o.target_event@)
}

pub open spec fn orphan_key(v: OrphanV) -> SortKey {
    (ascii_lower_seq(v.1), ascii_lower_seq(v.2))
}

/// The subscribers of event `id`, in the order of `subs`, once per
/// subscription edge to it.
pub open spec fn subs_for(subs: Seq<SubscriberNode>, id: NodeId) -> Seq<SubV>
    decreases subs.len(),
{
    if subs.len() == 0 {
        seq![]
    } else {
        let s = subs.last();
        subs_for(subs.drop_last(), id) + edges_to_id(
            s.subscribed@,
            id,
            (s.object_kind@, s.object_name@, s.name@),
        )
    }
}

/// One copy of `v` per occurrence of `id` in `ids`.
pub open spec fn edges_to_id(ids: Seq<NodeId>, id: NodeId, v: SubV) -> Seq<SubV>
    decreases ids.len(),
{
    if ids.len() == 0 {
        seq![]
    } else if ids.last() == id {
        edges_to_id(ids.drop_last(), id, v).push(v)
    } else {
        edges_to_id(ids.drop_last(), id, v)
    }
}

/// The discovered form of event `e`: its subscribers sorted by object and
/// method name (ASCII case ignored).
pub open spec fn discovered(e: EventNode, subs: Seq<SubscriberNode>) -> EventV {
    let s = isort(subs_for(subs, e.id), |v: SubV| sub_key(v));
    (
        e.name@,
        (e.object_kind@, e.object_name@, e.name@, e.event_type@),
        s,
        s.len(),
        s.len() > 0,
    )
}

/// The events among the first `n` of `evs`, each node once (at its first
/// occurrence), in order.
pub open spec fn events_upto(evs: Seq<EventNode>, subs: Seq<SubscriberNode>, n: int) -> Seq<EventV>
    decreases n,
{
    if n <= 0 || n > evs.len() {
        seq![]
    } else {
        let prev = events_upto(evs, subs, n - 1);
        if evs.take(n - 1).map_values(|e: EventNode| e.id).contains(evs[n - 1].id) {
            prev
        } else {
            prev.push(discovered(evs[n - 1], subs))
        }
    }
}

/// The orphans among the first `n` of `subs`: those with no subscription
/// edge, in order.
pub open spec fn orphans_upto(subs: Seq<SubscriberNode>, n: int) -> Seq<OrphanV>
    decreases n,
{
    if n <= 0 || n > subs.len() {
        seq![]
    } else {
        let prev = orphans_upto(subs, n - 1);
        let s = subs[n - 1];
        if s.subscribed@.len() == 0 {
            prev.push(
                (s.object_kind@, s.object_name@, s.name@, s.target_object@, s.target_event@),
            )
        } else {
            prev
        }
    }
}

proof fn lemma_ins_map<T, V>(
    s: Seq<T>,
    x: T,
    f: spec_fn(T) -> V,
    kt: spec_fn(T) -> SortKey,
    kv: spec_fn(V) -> SortKey,
)
    requires
        forall|t: T| #[trigger] kt(t) == kv(f(t)),
    ensures
        ins(s, x, kt).map_values(f) == ins(s.map_values(f), f(x), kv),
    decreases s.len(),
{
    let m = s.map_values(f);
    if s.len() == 0 {
        assert(ins(s, x, kt).map_values(f) =~= seq![f(x)]);
    } else {
        assert(kt(x) == kv(f(x)));
        assert(kt(s[0]) == kv(f(s[0])));
        assert(m[0] == f(s[0]));
        if key_lt(kt(x), kt(s[0])) {
            assert((seq![x] + s).map_values(f) =~= seq![f(x)] + m);
        } else {
            lemma_ins_map(s.drop_first(), x, f, kt, kv);
            assert(s.drop_first().map_values(f) =~= m.drop_first());
            assert((seq![s[0]] + ins(s.drop_first(), x, kt)).map_values(f) =~= seq![m[0]] + ins(
                m.drop_first(),
                f(x),
                kv,
            ));
        }
    }
}

/// Sorting commutes with taking views, when the key of an element is the
/// key of its view.
proof fn lemma_isort_map<T, V>(
    s: Seq<T>,
    f: spec_fn(T) -> V,
    kt: spec_fn(T) -> SortKey,
    kv: spec_fn(V) -> SortKey,
)
    requires
        forall|t: T| #[trigger] kt(t) == kv(f(t)),
    ensures
        isort(s, kt).map_values(f) == isort(s.map_values(f), kv),
    decreases s.len(),
{
    if s.len() == 0 {
        assert(isort(s, kt).map_values(f) =~= Seq::<V>::empty());
        assert(s.map_values(f) =~= Seq::<V>::empty());
    } else {
        lemma_isort_map(s.drop_last(), f, kt, kv);
        lemma_ins_map(isort(s.drop_last(), kt), s.last(), f, kt, kv);
        assert(s.drop_last().map_values(f) =~= s.map_values(f).drop_last());
        assert(s.map_values(f).last() == f(s.last()));
    }
}

fn lower_key(a: &String, b: &String) -> (k: (Vec<char>, Vec<char>))
    ensures
        k.0@ == ascii_lower_seq(a@),
        k.1@ == ascii_lower_seq(b@),
{
    (ascii_lower_vec(&chars_of(a.as_str())), ascii_lower_vec(&chars_of(b.as_str())))
}

pub open spec fn subs_view(v: Seq<SubscriberInfo>) -> Seq<SubV> {
    v.map_values(|s: SubscriberInfo| sub_view(s))
}

/// The subscribers of event `id`, sorted.
fn subscribers_of_event(subscribers: &Vec<SubscriberNode>, id: NodeId) -> (r: Vec<SubscriberInfo>)
    ensures
        subs_view(r@) == isort(subs_for(subscribers@, id), |v: SubV| sub_key(v)),
{
    let ghost kt = |s: SubscriberInfo| sub_key(sub_view(s));
    let mut list: Vec<SubscriberInfo> = Vec::new();
    let mut keys: Vec<(Vec<char>, Vec<char>)> = Vec::new();
    let mut j: usize = 0;
    assert(subs_view(list@) =~= Seq::<SubV>::empty());
    while j < subscribers.len()
        invariant
            j <= subscribers@.len(),
            keys_match(list@, keys@, kt),
            kt == (|s: SubscriberInfo| sub_key(sub_view(s))),
            subs_view(list@) == subs_for(subscribers@.take(j as int), id),
        decreases subscribers@.len() - j,
    {
        let s = &subscribers[j];
        let ghost v: SubV = (s.object_kind@, s.object_name@, s.name@);
        let ghost base = subs_view(list@);
        let mut k: usize = 0;
        assert(s.subscribed@.take(0) =~= Seq::<NodeId>::empty());
        assert(base + edges_to_id(s.subscribed@.take(0), id, v) =~= base);
        while k < s.subscribed.len()
            invariant
                k <= s.subscribed@.len(),
                keys_match(list@, keys@, kt),
                kt == (|s: SubscriberInfo| sub_key(sub_view(s))),
                subs_view(list@) == base + edges_to_id(s.subscribed@.take(k as int), id, v),
                v == (s.object_kind@, s.object_name@, s.name@),
            decreases s.subscribed@.len() - k,
        {
            assert(s.subscribed@.take(k + 1).drop_last() =~= s.subscribed@.take(k as int));
            if s.subscribed[k] == id {
                let info = SubscriberInfo {
                    object_kind: s.object_kind.clone(),
                    object_name: s.object_name.clone(),
                    method_name: s.name.clone(),
                };
                let key = lower_key(&info.object_name, &info.method_name);
                assert(sub_view(info) == v);
                let ghost l0 = subs_view(list@);
                let ghost lst0 = list@;
                let ghost k0 = keys@;
                list.push(info);
                keys.push(key);
                assert(list@.last() == info);
                assert(list@.drop_last() =~= lst0);
                assert(subs_view(list@) =~= l0.push(v));
                assert forall|i: int| 0 <= i < keys@.len() implies (#[trigger] keys@[i]).0@ == kt(
                    list@[i],
                ).0 && keys@[i].1@ == kt(list@[i]).1 by {
                    if i < keys@.len() - 1 {
                        assert(keys@[i] == k0[i]);
                        assert(list@[i] == lst0[i]);
                    }
                }
            }
            k = k + 1;
        }
        assert(s.subscribed@.take(s.subscribed@.len() as int) =~= s.subscribed@);
        assert(subscribers@.take(j + 1).drop_last() =~= subscribers@.take(j as int));
        j = j + 1;
    }
    assert(subscribers@.take(subscribers@.len() as int) =~= subscribers@);
    let sorted = sort_by_keys(list, keys, Ghost(kt));
    proof {
        lemma_isort_map(list@, |s: SubscriberInfo| sub_view(s), kt, |v: SubV| sub_key(v));
    }
    sorted
}

/// The subscribers of an event are sorted by object, then method name.
pub open spec fn subscribers_sorted(v: EventV) -> bool {
    sorted_by_key(v.2, |v: SubV| sub_key(v))
}

proof fn lemma_events_upto_sorted(evs: Seq<EventNode>, subs: Seq<SubscriberNode>, n: int)
    ensures
        forall|k: int|
            0 <= k < events_upto(evs, subs, n).len() ==> subscribers_sorted(
                #[trigger] events_upto(evs, subs, n)[k],
            ),
    decreases n,
{
    if 0 < n <= evs.len() {
        lemma_events_upto_sorted(evs, subs, n - 1);
        lemma_isort(subs_for(subs, evs[n - 1].id), |v: SubV| sub_key(v));
        let prev = events_upto(evs, subs, n - 1);
        let cur = events_upto(evs, subs, n);
        assert forall|k: int| 0 <= k < cur.len() implies subscribers_sorted(#[trigger] cur[k]) by {
            if k < prev.len() {
                assert(cur[k] == prev[k]);
            }
        }
    }
}

pub open spec fn events_view(v: Seq<DiscoveredEvent>) -> Seq<EventV> {
    v.map_values(|e: DiscoveredEvent| event_view(e))
}

pub open spec fn orphans_view(v: Seq<OrphanSubscriber>) -> Seq<OrphanV> {
    v.map_values(|o: OrphanSubscriber| orphan_view(o))
}

/// Whether some event before index `i` is node `id`.
fn seen_before(events: &Vec<EventNode>, i: usize, id: NodeId) -> (b: bool)
    requires
        i <= events@.len(),
    ensures
        b == events@.take(i as int).map_values(|e: EventNode| e.id).contains(id),
{
    let ghost ids = events@.take(i as int).map_values(|e: EventNode| e.id);
    let mut m: usize = 0;
    while m < i
        invariant
            m <= i <= events@.len(),
            ids == events@.take(i as int).map_values(|e: EventNode| e.id),
            forall|k: int| 0 <= k < m ==> ids[k] != id,
        decreases i - m,
    {
        assert(ids[m as int] == events@[m as int].id);
        if events[m].id == id {
            assert(ids[m as int] == id);
            return true;
        }
        m = m + 1;
    }
    false
}

/// The events published among `events`, each with its subscribers among
/// `subscribers` (sorted by object name, then method name, ASCII case
/// ignored), sorted by publisher object, then event name; and the
/// subscribers that subscribe to no event node, sorted by object name,
/// then method name.  Equal keys keep the order of the input.
pub fn discover_events(events: &Vec<EventNode>, subscribers: &Vec<SubscriberNode>) -> (r:
    EventDiscoveryResult)
    ensures
        events_view(r.events@) == isort(
            events_upto(events@, subscribers@, events@.len() as int),
            |v: EventV| event_key(v),
        ),
        orphans_view(r.orphan_subscribers@) == isort(
            orphans_upto(subscribers@, subscribers@.len() as int),
            |v: OrphanV| orphan_key(v),
        ),
        r.total_events == r.events@.len(),
        r.total_orphans == r.orphan_subscribers@.len(),
        sorted_by_key(events_view(r.events@), |v: EventV| event_key(v)),
        forall|k: int|
            0 <= k < r.events@.len() ==> subscribers_sorted(#[trigger] event_view(r.events@[k])),
        sorted_by_key(orphans_view(r.orphan_subscribers@), |v: OrphanV| orphan_key(v)),
        events_view(r.events@).to_multiset() == events_upto(
            events@,
            subscribers@,
            events@.len() as int,
        ).to_multiset(),
        orphans_view(r.orphan_subscribers@).to_multiset() == orphans_upto(
            subscribers@,
            subscribers@.len() as int,
        ).to_multiset(),
{
    proof {
        lemma_isort(
            events_upto(events@, subscribers@, events@.len() as int),
            |v: EventV| event_key(v),
        );
        lemma_isort(orphans_upto(subscribers@, subscribers@.len() as int), |v: OrphanV| orphan_key(v));
        lemma_events_upto_sorted(events@, subscribers@, events@.len() as int);
    }
    let ghost kte = |e: DiscoveredEvent| event_key(event_view(e));
    let mut evs: Vec<DiscoveredEvent> = Vec::new();
    let mut ekeys: Vec<(Vec<char>, Vec<char>)> = Vec::new();
    let mut i: usize = 0;
    assert(events_view(evs@) =~= Seq::<EventV>::empty());
    while i < events.len()
        invariant
            i <= events@.len(),
            keys_match(evs@, ekeys@, kte),
            kte == (|e: DiscoveredEvent| event_key(event_view(e))),
            events_view(evs@) == events_upto(events@, subscribers@, i as int),
        decreases events@.len() - i,
    {
        let e = &events[i];
        assert(events@.take(i as int) =~= events@.take(i + 1 - 1));
        if !seen_before(events, i, e.id) {
            let subs = subscribers_of_event(subscribers, e.id);
            let n = subs.len();
            let de = DiscoveredEvent {
                event_name: e.name.clone(),
                publisher: PublisherInfo {
                    object_kind: e.object_kind.clone(),
                    object_name: e.object_name.clone(),
                    event_name: e.name.clone(),
                    event_type: e.event_type.clone(),
                },
                subscribers: subs,
                subscriber_count: n,
                has_subscribers: n > 0,
            };
            let key = lower_key(&de.publisher.object_name, &de.event_name);
            assert(event_view(de) == discovered(events@[i as int], subscribers@));
            let ghost v0 = events_view(evs@);
            let ghost e0 = evs@;
            let ghost k0 = ekeys@;
            evs.push(de);
            ekeys.push(key);
            assert(evs@.drop_last() =~= e0);
            assert(events_view(evs@) =~= v0.push(event_view(de)));
            assert forall|j: int| 0 <= j < ekeys@.len() implies (#[trigger] ekeys@[j]).0@ == kte(
                evs@[j],
            ).0 && ekeys@[j].1@ == kte(evs@[j]).1 by {
                if j < ekeys@.len() - 1 {
                    assert(ekeys@[j] == k0[j]);
                    assert(evs@[j] == e0[j]);
                }
            }
        }
        i = i + 1;
    }
    let ghost unsorted_events = evs@;
    let sorted_events = sort_by_keys(evs, ekeys, Ghost(kte));
    proof {
        lemma_isort_map(unsorted_events, |e: DiscoveredEvent| event_view(e), kte, |v: EventV| event_key(v));
    }
    let ghost kto = |o: OrphanSubscriber| orphan_key(orphan_view(o));
    let mut orphans: Vec<OrphanSubscriber> = Vec::new();
    let mut okeys: Vec<(Vec<char>, Vec<char>)> = Vec::new();
    let mut j: usize = 0;
    assert(orphans_view(orphans@) =~= Seq::<OrphanV>::empty());
    while j < subscribers.len()
        invariant
            j <= subscribers@.len(),
            keys_match(orphans@, okeys@, kto),
            kto == (|o: OrphanSubscriber| orphan_key(orphan_view(o))),
            orphans_view(orphans@) == orphans_upto(subscribers@, j as int),
        decreases subscribers@.len() - j,
    {
        let s = &subscribers[j];
        if s.subscribed.len() == 0 {
            let o = OrphanSubscriber {
                object_kind: s.object_kind.clone(),
                object_name: s.object_name.clone(),
                method_name: s.name.clone(),
                target_object: s.target_object.clone(),
                target_event: s.target_event.clone(),
            };
            let key = lower_key(&o.object_name, &o.method_name);
            let ghost v0 = orphans_view(orphans@);
            let ghost o0 = orphans@;
            let ghost k0 = okeys@;
            let ghost ov = orphan_view(o);
            orphans.push(o);
            okeys.push(key);
            assert(orphans@.drop_last() =~= o0);
            assert(orphans_view(orphans@) =~= v0.push(ov));
            assert forall|m: int| 0 <= m < okeys@.len() implies (#[trigger] okeys@[m]).0@ == kto(
                orphans@[m],
            ).0 && okeys@[m].1@ == kto(orphans@[m]).1 by {
                if m < okeys@.len() - 1 {
                    assert(okeys@[m] == k0[m]);
                    assert(orphans@[m] == o0[m]);
                }
            }
        }
        j = j + 1;
    }
    let ghost unsorted_orphans = orphans@;
    let sorted_orphans = sort_by_keys(orphans, okeys, Ghost(kto));
    proof {
        lemma_isort_map(
            unsorted_orphans,
            |o: OrphanSubscriber| orphan_view(o),
            kto,
            |v: OrphanV| orphan_key(v),
        );
    }
    proof {
        broadcast use vstd::seq_lib::group_to_multiset_ensures;

        let all = events_upto(events@, subscribers@, events@.len() as int);
        assert forall|k: int| 0 <= k < sorted_events@.len() implies subscribers_sorted(
            #[trigger] event_view(sorted_events@[k]),
        ) by {
            let v = event_view(sorted_events@[k]);
            assert(events_view(sorted_events@)[k] == v);
            assert(events_view(sorted_events@).contains(v));
            assert(all.to_multiset().count(v) > 0);
            assert(all.contains(v));
            let m = choose|m: int| 0 <= m < all.len() && all[m] == v;
            assert(subscribers_sorted(all[m]));
        }
    }
    let total_events = sorted_events.len();
    let total_orphans = sorted_orphans.len();
    EventDiscoveryResult {
        events: sorted_events,
        orphan_subscribers: sorted_orphans,
        total_events,
        total_orphans,
    }
}

} // verus!
