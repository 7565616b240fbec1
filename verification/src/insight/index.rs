//! The procedure-level call graph.
//!
//! Edges are kept twice: per source node (`outgoing`) and per target node
//! (`incoming`), so that both "what does X call" and "who calls X" are a
//! lookup.  The contracts speak of one sequence, [`CallGraph::edges`]: every
//! distinct edge in the order it was first added.  Both indexes are views of
//! that sequence, which is the invariant [`CallGraph::wf`] states.

use vstd::prelude::*;

verus! {

/// Identifier of a node of the call graph.
#[derive(Debug, Clone, Copy, PartialEq, Eq, Hash, Structural)]
pub struct NodeId(pub usize);

/// The kind of relationship an edge represents.
#[derive(Debug, Clone, Copy, PartialEq, Eq, Structural)]
pub enum EdgeKind {
    /// A direct procedure-to-procedure call (source-derived).
    DirectCall,
    /// A subscriber procedure subscribes to an event publisher.
    EventSubscription,
    /// A trigger invokes a procedure.
    TriggerInvocation,
    /// A record operation (Insert/Modify/Delete/Validate) triggers table events.
    RecordTrigger,
}

/// The label of an edge kind.
pub open spec fn edge_kind_label(k: EdgeKind) -> Seq<char> {
    match k {
        EdgeKind::DirectCall => "direct_call"@,
        EdgeKind::EventSubscription => "event_subscription"@,
        EdgeKind::TriggerInvocation => "trigger_invocation"@,
        EdgeKind::RecordTrigger => "record_trigger"@,
    }
}

impl EdgeKind {
    /// The snake-case label of the kind, as it appears in exported data.
    pub fn as_str(&self) -> (r: &'static str)
        ensures
            r@ == edge_kind_label(*self),
    {
        match self {
            EdgeKind::DirectCall => "direct_call",
            EdgeKind::EventSubscription => "event_subscription",
            EdgeKind::TriggerInvocation => "trigger_invocation",
            EdgeKind::RecordTrigger => "record_trigger",
        }
    }
}

/// Whether a procedure's call edges have been extracted.
#[derive(Debug, Clone, Copy, PartialEq, Eq, Structural)]
pub enum EdgeResolutionState {
    Unresolved,
    Resolving,
    Resolved,
}

/// A single directed edge in the call graph.
#[derive(Debug, Clone, Copy, PartialEq, Eq, Structural)]
pub struct CallEdge {
    /// The caller / source node.
    pub from: NodeId,
    /// The callee / target node.
    pub to: NodeId,
    /// Relationship kind.
    pub kind: EdgeKind,
}

/// A lightweight description of a node returned by call-graph queries.
#[derive(Debug, Clone, PartialEq, Eq)]
pub struct NodeInfo {
    pub id: NodeId,
    pub node_type: String,
    pub name: String,
    pub object: String,
}

// ---------------------------------------------------------------------------
// Edge sequences
// ---------------------------------------------------------------------------

/// The edges of `log` that leave `n`, in order.
pub open spec fn edges_from(log: Seq<CallEdge>, n: NodeId) -> Seq<CallEdge>
    decreases log.len(),
{
    if log.len() == 0 {
        Seq::empty()
    } else {
        let rest = edges_from(log.drop_last(), n);
        if log.last().from == n {
            rest.push(log.last())
        } else {
            rest
        }
    }
}

/// The edges of `log` that enter `n`, in order.
pub open spec fn edges_to(log: Seq<CallEdge>, n: NodeId) -> Seq<CallEdge>
    decreases log.len(),
{
    if log.len() == 0 {
        Seq::empty()
    } else {
        let rest = edges_to(log.drop_last(), n);
        if log.last().to == n {
            rest.push(log.last())
        } else {
            rest
        }
    }
}

/// `log` without the edges that leave `n`.
pub open spec fn drop_from(log: Seq<CallEdge>, n: NodeId) -> Seq<CallEdge>
    decreases log.len(),
{
    if log.len() == 0 {
        Seq::empty()
    } else {
        let rest = drop_from(log.drop_last(), n);
        if log.last().from != n {
            rest.push(log.last())
        } else {
            rest
        }
    }
}

/// The sources of the event-subscription edges of `list`, in order.
pub open spec fn sub_sources(list: Seq<CallEdge>) -> Seq<NodeId>
    decreases list.len(),
{
    if list.len() == 0 {
        Seq::empty()
    } else {
        let rest = sub_sources(list.drop_last());
        if list.last().kind == EdgeKind::EventSubscription {
            rest.push(list.last().from)
        } else {
            rest
        }
    }
}

/// `log` after adding `e`: unchanged when `e` is already there.
pub open spec fn with_edge(log: Seq<CallEdge>, e: CallEdge) -> Seq<CallEdge> {
    if log.contains(e) {
        log
    } else {
        log.push(e)
    }
}

/// The node metadata that registering `ns` in order leaves: the last entry
/// for each node.
pub open spec fn nodes_map(ns: Seq<(NodeId, NodeInfo)>) -> Map<NodeId, NodeInfo>
    decreases ns.len(),
{
    if ns.len() == 0 {
        Map::empty()
    } else {
        nodes_map(ns.drop_last()).insert(ns.last().0, ns.last().1)
    }
}

/// `log` after adding an event-subscription edge for each
/// `(subscriber, event)` pair of `subs`, in order.
pub open spec fn with_subscriptions(log: Seq<CallEdge>, subs: Seq<(NodeId, NodeId)>) -> Seq<CallEdge>
    decreases subs.len(),
{
    if subs.len() == 0 {
        log
    } else {
        with_subscriptions(
            with_edge(log, edge_of(subs[0].0, subs[0].1, EdgeKind::EventSubscription)),
            subs.drop_first(),
        )
    }
}

/// The edge of kind `kind` from `from` to `to`.
pub open spec fn edge_of(from: NodeId, to: NodeId, kind: EdgeKind) -> CallEdge {
    CallEdge { from, to, kind }
}

proof fn lemma_push_views(log: Seq<CallEdge>, e: CallEdge, n: NodeId)
    ensures
        edges_from(log.push(e), n) == (if e.from == n {
            edges_from(log, n).push(e)
        } else {
            edges_from(log, n)
        }),
        edges_to(log.push(e), n) == (if e.to == n {
            edges_to(log, n).push(e)
        } else {
            edges_to(log, n)
        }),
{
    assert(log.push(e).drop_last() =~= log);
}

proof fn lemma_edges_from_members(log: Seq<CallEdge>, n: NodeId)
    ensures
        forall|e: CallEdge|
            #![trigger edges_from(log, n).contains(e)]
            #![trigger log.contains(e)]
            edges_from(log, n).contains(e) <==> (log.contains(e) && e.from == n),
    decreases log.len(),
{
    if log.len() > 0 {
        let l = log.drop_last();
        let x = log.last();
        lemma_edges_from_members(l, n);
        assert(log =~= l.push(x));
        assert(edges_from(log, n) == (if x.from == n { edges_from(l, n).push(x) } else { edges_from(l, n) }));
        assert forall|e: CallEdge| log.contains(e) <==> (l.contains(e) || e == x) by {
            vstd::seq_lib::lemma_seq_contains_after_push(l, x, e);
        }
        assert forall|e: CallEdge| edges_from(log, n).contains(e) <==> (log.contains(e) && e.from == n) by {
            vstd::seq_lib::lemma_seq_contains_after_push(l, x, e);
            vstd::seq_lib::lemma_seq_contains_after_push(edges_from(l, n), x, e);
        }
    }
}

proof fn lemma_edges_to_members(log: Seq<CallEdge>, n: NodeId)
    ensures
        forall|e: CallEdge|
            #![trigger edges_to(log, n).contains(e)]
            #![trigger log.contains(e)]
            edges_to(log, n).contains(e) <==> (log.contains(e) && e.to == n),
    decreases log.len(),
{
    if log.len() > 0 {
        let l = log.drop_last();
        let x = log.last();
        lemma_edges_to_members(l, n);
        assert(log =~= l.push(x));
        assert(edges_to(log, n) == (if x.to == n { edges_to(l, n).push(x) } else { edges_to(l, n) }));
        assert forall|e: CallEdge| log.contains(e) <==> (l.contains(e) || e == x) by {
            vstd::seq_lib::lemma_seq_contains_after_push(l, x, e);
        }
        assert forall|e: CallEdge| edges_to(log, n).contains(e) <==> (log.contains(e) && e.to == n) by {
            vstd::seq_lib::lemma_seq_contains_after_push(l, x, e);
            vstd::seq_lib::lemma_seq_contains_after_push(edges_to(l, n), x, e);
        }
    }
}

proof fn lemma_drop_from_members(log: Seq<CallEdge>, n: NodeId)
    ensures
        forall|e: CallEdge|
            #![trigger drop_from(log, n).contains(e)]
            #![trigger log.contains(e)]
            drop_from(log, n).contains(e) <==> (log.contains(e) && e.from != n),
    decreases log.len(),
{
    if log.len() > 0 {
        let l = log.drop_last();
        let x = log.last();
        lemma_drop_from_members(l, n);
        assert(log =~= l.push(x));
        assert(drop_from(log, n) == (if x.from != n { drop_from(l, n).push(x) } else { drop_from(l, n) }));
        assert forall|e: CallEdge| log.contains(e) <==> (l.contains(e) || e == x) by {
            vstd::seq_lib::lemma_seq_contains_after_push(l, x, e);
        }
        assert forall|e: CallEdge| drop_from(log, n).contains(e) <==> (log.contains(e) && e.from != n) by {
            vstd::seq_lib::lemma_seq_contains_after_push(l, x, e);
            vstd::seq_lib::lemma_seq_contains_after_push(drop_from(l, n), x, e);
            if e == x {
                assert(log.contains(e));
            } else {
                assert(drop_from(log, n).contains(e) <==> drop_from(l, n).contains(e));
            }
        }
    }
}

proof fn lemma_drop_from_views(log: Seq<CallEdge>, a: NodeId, n: NodeId)
    ensures
        edges_from(drop_from(log, a), n) == (if n == a {
            Seq::<CallEdge>::empty()
        } else {
            edges_from(log, n)
        }),
        edges_to(drop_from(log, a), n) == drop_from(edges_to(log, n), a),
    decreases log.len(),
{
    if log.len() > 0 {
        let l = log.drop_last();
        let e = log.last();
        lemma_drop_from_views(l, a, n);
        if e.from != a {
            lemma_push_views(drop_from(l, a), e, n);
        }
        if e.to == n {
            assert(edges_to(log, n).drop_last() =~= edges_to(l, n));
        }
    }
}

proof fn lemma_drop_from_no_dups(log: Seq<CallEdge>, a: NodeId)
    requires
        log.no_duplicates(),
    ensures
        drop_from(log, a).no_duplicates(),
    decreases log.len(),
{
    if log.len() > 0 {
        let l = log.drop_last();
        assert(l.no_duplicates());
        lemma_drop_from_no_dups(l, a);
        lemma_drop_from_members(l, a);
        if log.last().from != a {
            assert(!l.contains(log.last())) by {
                if l.contains(log.last()) {
                    let k = choose|k: int| 0 <= k < l.len() && l[k] == log.last();
                    assert(log[k] == log[log.len() - 1]);
                }
            }
        }
    }
}

proof fn lemma_drop_from_none(log: Seq<CallEdge>, n: NodeId)
    requires
        forall|j: int| 0 <= j < log.len() ==> (#[trigger] log[j]).from != n,
    ensures
        drop_from(log, n) == log,
    decreases log.len(),
{
    if log.len() > 0 {
        let l = log.drop_last();
        assert forall|j: int| 0 <= j < l.len() implies (#[trigger] l[j]).from != n by {
            assert(l[j] == log[j]);
        }
        lemma_drop_from_none(l, n);
        assert(log[log.len() - 1].from != n);
        assert(l.push(log.last()) =~= log);
    }
}

/// The number of edges of `log` that leave the nodes keyed in `s`.
pub open spec fn sum_from(log: Seq<CallEdge>, s: Seq<(NodeId, Vec<CallEdge>)>) -> int
    decreases s.len(),
{
    if s.len() == 0 {
        0
    } else {
        sum_from(log, s.drop_last()) + edges_from(log, s.last().0).len()
    }
}

/// How many entries of `s` are keyed `n`.
pub open spec fn key_count<V>(s: Seq<(NodeId, V)>, n: NodeId) -> int
    decreases s.len(),
{
    if s.len() == 0 {
        0
    } else {
        key_count(s.drop_last(), n) + (if s.last().0 == n {
            1int
        } else {
            0
        })
    }
}

/// No two entries of `s` share a key.
pub open spec fn keys_unique<V>(s: Seq<(NodeId, V)>) -> bool {
    forall|i: int, j: int| 0 <= i < j < s.len() ==> #[trigger] s[i].0 != #[trigger] s[j].0
}

/// Some entry of `s` is keyed `n`.
pub open spec fn has_key<V>(s: Seq<(NodeId, V)>, n: NodeId) -> bool {
    exists|i: int| 0 <= i < s.len() && #[trigger] s[i].0 == n
}

proof fn lemma_sum_from_nonneg(log: Seq<CallEdge>, s: Seq<(NodeId, Vec<CallEdge>)>)
    ensures
        sum_from(log, s) >= 0,
    decreases s.len(),
{
    if s.len() > 0 {
        lemma_sum_from_nonneg(log, s.drop_last());
    }
}

proof fn lemma_sum_from_push(log: Seq<CallEdge>, e: CallEdge, s: Seq<(NodeId, Vec<CallEdge>)>)
    ensures
        sum_from(log.push(e), s) == sum_from(log, s) + key_count(s, e.from),
    decreases s.len(),
{
    if s.len() > 0 {
        lemma_sum_from_push(log, e, s.drop_last());
        lemma_push_views(log, e, s.last().0);
    }
}

proof fn lemma_sum_from_empty(s: Seq<(NodeId, Vec<CallEdge>)>)
    ensures
        sum_from(Seq::empty(), s) == 0,
    decreases s.len(),
{
    if s.len() > 0 {
        lemma_sum_from_empty(s.drop_last());
    }
}

proof fn lemma_key_count_unique<V>(s: Seq<(NodeId, V)>, n: NodeId)
    requires
        keys_unique(s),
        has_key(s, n),
    ensures
        key_count(s, n) == 1,
    decreases s.len(),
{
    let l = s.drop_last();
    assert(keys_unique(l)) by {
        assert forall|i: int, j: int| 0 <= i < j < l.len() implies #[trigger] l[i].0
            != #[trigger] l[j].0 by {
            assert(s[i].0 != s[j].0);
        }
    }
    if s.last().0 == n {
        assert(!has_key(l, n)) by {
            if has_key(l, n) {
                let i = choose|i: int| 0 <= i < l.len() && #[trigger] l[i].0 == n;
                assert(s[i].0 != s[s.len() - 1].0);
            }
        }
        lemma_key_count_absent(l, n);
    } else {
        let i = choose|i: int| 0 <= i < s.len() && #[trigger] s[i].0 == n;
        assert(l[i].0 == n);
        lemma_key_count_unique(l, n);
    }
}

proof fn lemma_key_count_absent<V>(s: Seq<(NodeId, V)>, n: NodeId)
    requires
        !has_key(s, n),
    ensures
        key_count(s, n) == 0,
    decreases s.len(),
{
    if s.len() > 0 {
        let l = s.drop_last();
        assert(!has_key(l, n)) by {
            if has_key(l, n) {
                let i = choose|i: int| 0 <= i < l.len() && #[trigger] l[i].0 == n;
                assert(s[i].0 == n);
            }
        }
        lemma_key_count_absent(l, n);
        assert(s[s.len() - 1].0 != n);
    }
}

/// With unique keys covering every source, the out-lists partition `log`.
proof fn lemma_partition(log: Seq<CallEdge>, s: Seq<(NodeId, Vec<CallEdge>)>)
    requires
        keys_unique(s),
        forall|j: int| 0 <= j < log.len() ==> has_key(s, #[trigger] log[j].from),
    ensures
        sum_from(log, s) == log.len(),
    decreases log.len(),
{
    if log.len() == 0 {
        lemma_sum_from_empty(s);
        assert(log =~= Seq::<CallEdge>::empty());
    } else {
        let l = log.drop_last();
        assert forall|j: int| 0 <= j < l.len() implies has_key(s, #[trigger] l[j].from) by {
            assert(log[j] == l[j]);
        }
        lemma_partition(l, s);
        assert(has_key(s, log[log.len() - 1].from));
        lemma_key_count_unique(s, log.last().from);
        lemma_sum_from_push(l, log.last(), s);
        assert(l.push(log.last()) =~= log);
    }
}

// ---------------------------------------------------------------------------
// Association lists keyed by node
// ---------------------------------------------------------------------------

/// The map that an association list denotes.
pub open spec fn assoc_map<V>(s: Seq<(NodeId, V)>) -> Map<NodeId, V>
    decreases s.len(),
{
    if s.len() == 0 {
        Map::empty()
    } else {
        assoc_map(s.drop_last()).insert(s.last().0, s.last().1)
    }
}

proof fn lemma_assoc_unique_prefix<V>(s: Seq<(NodeId, V)>)
    requires
        keys_unique(s),
        s.len() > 0,
    ensures
        keys_unique(s.drop_last()),
{
    let l = s.drop_last();
    assert forall|i: int, j: int| 0 <= i < j < l.len() implies #[trigger] l[i].0
        != #[trigger] l[j].0 by {
        assert(l[i] == s[i] && l[j] == s[j]);
        assert(s[i].0 != s[j].0);
    }
}

proof fn lemma_assoc_dom<V>(s: Seq<(NodeId, V)>)
    ensures
        assoc_map(s).dom().finite(),
        forall|n: NodeId| assoc_map(s).dom().contains(n) <==> has_key(s, n),
        keys_unique(s) ==> assoc_map(s).dom().len() == s.len(),
    decreases s.len(),
{
    if s.len() > 0 {
        let l = s.drop_last();
        lemma_assoc_dom(l);
        assert forall|n: NodeId| assoc_map(s).dom().contains(n) <==> has_key(s, n) by {
            if has_key(l, n) {
                let i = choose|i: int| 0 <= i < l.len() && #[trigger] l[i].0 == n;
                assert(s[i].0 == n);
            }
            if has_key(s, n) && n != s.last().0 {
                let i = choose|i: int| 0 <= i < s.len() && #[trigger] s[i].0 == n;
                assert(l[i].0 == n);
            }
            if n == s.last().0 {
                assert(s[s.len() - 1].0 == n);
            }
        }
        if keys_unique(s) {
            lemma_assoc_unique_prefix(s);
            assert(!has_key(l, s.last().0)) by {
                if has_key(l, s.last().0) {
                    let i = choose|i: int| 0 <= i < l.len() && #[trigger] l[i].0 == s.last().0;
                    assert(s[i].0 != s[s.len() - 1].0);
                }
            }
        }
    }
}

proof fn lemma_assoc_lookup<V>(s: Seq<(NodeId, V)>, i: int)
    requires
        keys_unique(s),
        0 <= i < s.len(),
    ensures
        assoc_map(s).dom().contains(s[i].0),
        assoc_map(s)[s[i].0] == s[i].1,
    decreases s.len(),
{
    if i < s.len() - 1 {
        lemma_assoc_unique_prefix(s);
        assert(s.drop_last()[i] == s[i]);
        lemma_assoc_lookup(s.drop_last(), i);
        assert(s[i].0 != s[s.len() - 1].0);
    }
}

proof fn lemma_assoc_update<V>(s: Seq<(NodeId, V)>, i: int, v: V)
    requires
        keys_unique(s),
        0 <= i < s.len(),
    ensures
        keys_unique(s.update(i, (s[i].0, v))),
        assoc_map(s.update(i, (s[i].0, v))) == assoc_map(s).insert(s[i].0, v),
    decreases s.len(),
{
    let t = s.update(i, (s[i].0, v));
    assert(keys_unique(t)) by {
        assert forall|a: int, b: int| 0 <= a < b < t.len() implies #[trigger] t[a].0
            != #[trigger] t[b].0 by {
            assert(s[a].0 != s[b].0);
        }
    }
    let l = s.drop_last();
    lemma_assoc_unique_prefix(s);
    if i == s.len() - 1 {
        assert(t.drop_last() =~= l);
        assert(assoc_map(t) =~= assoc_map(s).insert(s[i].0, v));
    } else {
        assert(t.drop_last() =~= l.update(i, (s[i].0, v)));
        assert(l[i] == s[i]);
        lemma_assoc_update(l, i, v);
        assert(s[i].0 != s[s.len() - 1].0);
        assert(assoc_map(t) =~= assoc_map(s).insert(s[i].0, v));
    }
}

proof fn lemma_assoc_push<V>(s: Seq<(NodeId, V)>, n: NodeId, v: V)
    requires
        keys_unique(s),
        !has_key(s, n),
    ensures
        keys_unique(s.push((n, v))),
        assoc_map(s.push((n, v))) == assoc_map(s).insert(n, v),
{
    let t = s.push((n, v));
    assert(t.drop_last() =~= s);
    assert forall|a: int, b: int| 0 <= a < b < t.len() implies #[trigger] t[a].0
        != #[trigger] t[b].0 by {
        if b == s.len() {
            assert(s[a].0 != n);
        } else {
            assert(s[a].0 != s[b].0);
        }
    }
}

// ---------------------------------------------------------------------------
// Laws
// ---------------------------------------------------------------------------

/// Adding an edge that is already present changes nothing: duplicate edges
/// are silently ignored.
pub proof fn lemma_add_edge_idempotent(log: Seq<CallEdge>, e: CallEdge)
    ensures
        with_edge(with_edge(log, e), e) == with_edge(log, e),
{
    if !log.contains(e) {
        assert(log.push(e)[log.len() as int] == e);
    }
}

/// An edge of the graph is listed both among the callees of its source and
/// among the callers of its target, and nothing else is listed there: the
/// two adjacency indexes stay in sync.
pub proof fn lemma_edge_seen_from_both_ends(log: Seq<CallEdge>, e: CallEdge)
    ensures
        edges_from(log, e.from).contains(e) <==> log.contains(e),
        edges_to(log, e.to).contains(e) <==> log.contains(e),
{
    lemma_edges_from_members(log, e.from);
    lemma_edges_to_members(log, e.to);
}

/// Once an edge is added it is reported by both `callees_of(from)` and
/// `callers_of(to)`.
pub proof fn lemma_added_edge_is_listed(log: Seq<CallEdge>, e: CallEdge)
    ensures
        edges_from(with_edge(log, e), e.from).contains(e),
        edges_to(with_edge(log, e), e.to).contains(e),
{
    if !log.contains(e) {
        assert(log.push(e)[log.len() as int] == e);
    }
    lemma_edge_seen_from_both_ends(with_edge(log, e), e);
}

/// Removing the edges of `node` leaves it without callees, keeps the
/// callees of every other node, and leaves no caller entry that points back
/// at `node`.
pub proof fn lemma_remove_edges_from_effect(log: Seq<CallEdge>, node: NodeId, n: NodeId, m: NodeId)
    ensures
        edges_from(drop_from(log, node), node) == Seq::<CallEdge>::empty(),
        n != node ==> edges_from(drop_from(log, node), n) == edges_from(log, n),
        forall|e: CallEdge| #[trigger] edges_to(drop_from(log, node), m).contains(e) ==> e.from != node
            && edges_to(log, m).contains(e),
{
    lemma_drop_from_views(log, node, node);
    lemma_drop_from_views(log, node, n);
    lemma_edges_to_members(drop_from(log, node), m);
    lemma_drop_from_members(log, node);
    lemma_edges_to_members(log, m);
}

proof fn lemma_edges_from_distinct(log: Seq<CallEdge>, n: NodeId)
    requires
        log.no_duplicates(),
    ensures
        edges_from(log, n).no_duplicates(),
        forall|k: int| 0 <= k < edges_from(log, n).len() ==> (#[trigger] edges_from(log, n)[k]).from == n,
    decreases log.len(),
{
    if log.len() > 0 {
        let l = log.drop_last();
        assert(l.no_duplicates()) by {
            assert forall|i: int, j: int| 0 <= i < l.len() && 0 <= j < l.len() && i != j implies l[i] != l[j] by {
                assert(l[i] == log[i]);
                assert(l[j] == log[j]);
            }
        }
        lemma_edges_from_distinct(l, n);
        lemma_edges_from_members(l, n);
        if log.last().from == n {
            let r = edges_from(l, n);
            assert(!l.contains(log.last())) by {
                if l.contains(log.last()) {
                    let i = choose|i: int| 0 <= i < l.len() && l[i] == log.last();
                    assert(log[i] == log[log.len() - 1]);
                }
            }
            assert(!r.contains(log.last()));
            assert forall|i: int, j: int| 0 <= i < r.push(log.last()).len() && 0 <= j < r.push(log.last()).len() && i != j implies r.push(log.last())[i] != r.push(log.last())[j] by {
                if i < r.len() && j < r.len() {
                } else if i < r.len() {
                    assert(r.contains(r[i]));
                } else if j < r.len() {
                    assert(r.contains(r[j]));
                }
            }
        }
    }
}

proof fn lemma_edges_to_distinct(log: Seq<CallEdge>, n: NodeId)
    requires
        log.no_duplicates(),
    ensures
        edges_to(log, n).no_duplicates(),
        forall|k: int| 0 <= k < edges_to(log, n).len() ==> (#[trigger] edges_to(log, n)[k]).to == n,
    decreases log.len(),
{
    if log.len() > 0 {
        let l = log.drop_last();
        assert(l.no_duplicates()) by {
            assert forall|i: int, j: int| 0 <= i < l.len() && 0 <= j < l.len() && i != j implies l[i] != l[j] by {
                assert(l[i] == log[i]);
                assert(l[j] == log[j]);
            }
        }
        lemma_edges_to_distinct(l, n);
        lemma_edges_to_members(l, n);
        if log.last().to == n {
            let r = edges_to(l, n);
            assert(!l.contains(log.last())) by {
                if l.contains(log.last()) {
                    let i = choose|i: int| 0 <= i < l.len() && l[i] == log.last();
                    assert(log[i] == log[log.len() - 1]);
                }
            }
            assert(!r.contains(log.last()));
            assert forall|i: int, j: int| 0 <= i < r.push(log.last()).len() && 0 <= j < r.push(log.last()).len() && i != j implies r.push(log.last())[i] != r.push(log.last())[j] by {
                if i < r.len() && j < r.len() {
                } else if i < r.len() {
                    assert(r.contains(r[i]));
                } else if j < r.len() {
                    assert(r.contains(r[j]));
                }
            }
        }
    }
}

/// The distinct sources of the edges of `log`, in order of first appearance.
pub open spec fn sources(log: Seq<CallEdge>) -> Seq<NodeId>
    decreases log.len(),
{
    if log.len() == 0 {
        seq![]
    } else {
        let prev = sources(log.drop_last());
        if prev.contains(log.last().from) {
            prev
        } else {
            prev.push(log.last().from)
        }
    }
}

/// The number of edges of `log` leaving each of `ns`, summed.
pub open spec fn out_degree_sum(log: Seq<CallEdge>, ns: Seq<NodeId>) -> int
    decreases ns.len(),
{
    if ns.len() == 0 {
        0
    } else {
        out_degree_sum(log, ns.drop_last()) + edges_from(log, ns.last()).len()
    }
}

proof fn lemma_sources(log: Seq<CallEdge>)
    ensures
        sources(log).no_duplicates(),
        forall|e: CallEdge| log.contains(e) ==> sources(log).contains(e.from),
        forall|n: NodeId| sources(log).contains(n) ==> edges_from(log, n).len() > 0,
    decreases log.len(),
{
    if log.len() > 0 {
        let l = log.drop_last();
        lemma_sources(l);
        let prev = sources(l);
        assert forall|e: CallEdge| log.contains(e) implies sources(log).contains(e.from) by {
            let i = choose|i: int| 0 <= i < log.len() && log[i] == e;
            if i < l.len() {
                assert(l[i] == e);
                assert(l.contains(e));
                let k = choose|k: int| 0 <= k < prev.len() && prev[k] == e.from;
                if !prev.contains(log.last().from) {
                    assert(prev.push(log.last().from)[k] == e.from);
                }
            } else if !prev.contains(log.last().from) {
                assert(prev.push(log.last().from)[prev.len() as int] == e.from);
            }
        }
        assert forall|n: NodeId| sources(log).contains(n) implies edges_from(log, n).len() > 0 by {
            if prev.contains(n) {
                assert(edges_from(l, n).len() > 0);
            } else {
                let k = choose|k: int| 0 <= k < sources(log).len() && sources(log)[k] == n;
                assert(k == prev.len());
            }
        }
        if !prev.contains(log.last().from) {
            let q = prev.push(log.last().from);
            assert forall|i: int, j: int| 0 <= i < q.len() && 0 <= j < q.len() && i != j implies q[i] != q[j] by {
                if i < prev.len() && j < prev.len() {
                } else if i < prev.len() {
                    assert(prev.contains(prev[i]));
                } else if j < prev.len() {
                    assert(prev.contains(prev[j]));
                }
            }
        }
    }
}

proof fn lemma_out_degree_push(log: Seq<CallEdge>, e: CallEdge, ns: Seq<NodeId>)
    requires
        ns.no_duplicates(),
    ensures
        out_degree_sum(log.push(e), ns) == out_degree_sum(log, ns) + (if ns.contains(e.from) {
            1int
        } else {
            0
        }),
    decreases ns.len(),
{
    let l2 = log.push(e);
    assert(l2.drop_last() =~= log);
    if ns.len() > 0 {
        let p = ns.drop_last();
        assert(p.no_duplicates()) by {
            assert forall|i: int, j: int| 0 <= i < p.len() && 0 <= j < p.len() && i != j implies p[i] != p[j] by {
                assert(p[i] == ns[i]);
                assert(p[j] == ns[j]);
            }
        }
        lemma_out_degree_push(log, e, p);
        if ns.last() == e.from {
            assert(!p.contains(e.from)) by {
                if p.contains(e.from) {
                    let i = choose|i: int| 0 <= i < p.len() && p[i] == e.from;
                    assert(ns[i] == ns[ns.len() - 1]);
                }
            }
        } else {
            assert(ns.contains(e.from) == p.contains(e.from)) by {
                if ns.contains(e.from) {
                    let i = choose|i: int| 0 <= i < ns.len() && ns[i] == e.from;
                    assert(p[i] == e.from);
                }
                if p.contains(e.from) {
                    let i = choose|i: int| 0 <= i < p.len() && p[i] == e.from;
                    assert(ns[i] == e.from);
                }
            }
        }
    }
}

proof fn lemma_out_degree_empty_sources(log: Seq<CallEdge>, ns: Seq<NodeId>, n: NodeId)
    requires
        edges_from(log, n).len() == 0,
    ensures
        out_degree_sum(log, ns.push(n)) == out_degree_sum(log, ns),
{
    assert(ns.push(n).drop_last() =~= ns);
}

/// Every edge leaves exactly one node: the edge count is the sum of the
/// out-degrees of the distinct sources.
pub proof fn lemma_edge_count_is_out_degree_sum(log: Seq<CallEdge>)
    ensures
        log.len() == out_degree_sum(log, sources(log)),
    decreases log.len(),
{
    if log.len() > 0 {
        let l = log.drop_last();
        let e = log.last();
        assert(l.push(e) =~= log);
        lemma_edge_count_is_out_degree_sum(l);
        lemma_sources(l);
        lemma_out_degree_push(l, e, sources(l));
        if !sources(l).contains(e.from) {
            assert(sources(log) == sources(l).push(e.from));
            assert(edges_from(l, e.from).len() == 0) by {
                lemma_edges_from_members(l, e.from);
                if edges_from(l, e.from).len() > 0 {
                    let x = edges_from(l, e.from)[0];
                    assert(edges_from(l, e.from).contains(x));
                }
            }
            assert(edges_from(log, e.from) =~= edges_from(l, e.from).push(e));
            assert(sources(log).drop_last() =~= sources(l));
        }
    }
}

/// Every reported subscriber of an event has an event-subscription edge to
/// that event.
pub proof fn lemma_subscribers_subscribe(log: Seq<CallEdge>, event: NodeId, k: int)
    requires
        0 <= k < sub_sources(edges_to(log, event)).len(),
    ensures
        log.contains(
            edge_of(sub_sources(edges_to(log, event))[k], event, EdgeKind::EventSubscription),
        ),
{
    let list = edges_to(log, event);
    let j = lemma_sub_source_witness(list, k);
    lemma_edges_to_members(log, event);
    assert(list.contains(list[j]));
    assert(list[j] == edge_of(sub_sources(list)[k], event, EdgeKind::EventSubscription)) by {
        assert(list[j].to == event);
    }
}

proof fn lemma_sub_source_witness(list: Seq<CallEdge>, k: int) -> (j: int)
    requires
        0 <= k < sub_sources(list).len(),
    ensures
        0 <= j < list.len(),
        list[j].kind == EdgeKind::EventSubscription,
        list[j].from == sub_sources(list)[k],
    decreases list.len(),
{
    let l = list.drop_last();
    if list.last().kind == EdgeKind::EventSubscription && k == sub_sources(list).len() - 1 {
        list.len() - 1
    } else {
        let j = lemma_sub_source_witness(l, k);
        assert(l[j] == list[j]);
        j
    }
}

/// Index of the entry keyed `key`, if any.
fn find_key<V>(v: &Vec<(NodeId, V)>, key: NodeId) -> (r: Option<usize>)
    ensures
        r matches Some(i) ==> i < v@.len() && v@[i as int].0 == key,
        r is None ==> !has_key(v@, key),
{
    let mut i: usize = 0;
    while i < v.len()
        invariant
            i <= v@.len(),
            forall|j: int| 0 <= j < i ==> v@[j].0 != key,
        decreases v@.len() - i,
    {
        if v[i].0.0 == key.0 {
            return Some(i);
        }
        i = i + 1;
    }
    proof {
        if has_key(v@, key) {
            let j = choose|j: int| 0 <= j < v@.len() && #[trigger] v@[j].0 == key;
            assert(v@[j].0 != key);
        }
    }
    None
}

/// `list` without the edges leaving `node`.
fn without_from(list: &Vec<CallEdge>, node: NodeId) -> (r: Vec<CallEdge>)
    ensures
        r@ == drop_from(list@, node),
{
    let mut out: Vec<CallEdge> = Vec::new();
    let mut i: usize = 0;
    while i < list.len()
        invariant
            i <= list@.len(),
            out@ == drop_from(list@.take(i as int), node),
        decreases list@.len() - i,
    {
        let e = list[i];
        assert(list@.take(i + 1).drop_last() =~= list@.take(i as int));
        if e.from.0 != node.0 {
            out.push(e);
        }
        i = i + 1;
    }
    assert(list@.take(list@.len() as int) =~= list@);
    out
}

// ---------------------------------------------------------------------------
// The graph
// ---------------------------------------------------------------------------

/// A directed call graph over AL procedures, events, and subscribers.
///
/// Stored as adjacency lists: `outgoing[node]` are the edges leaving `node`,
/// and `incoming[node]` the same edges indexed by target.
pub struct CallGraph {
    /// Forward adjacency lists, one entry per source node.
    outgoing: Vec<(NodeId, Vec<CallEdge>)>,
    /// Reverse adjacency lists, one entry per target node.
    incoming: Vec<(NodeId, Vec<CallEdge>)>,
    /// Node metadata for display.
    nodes: Vec<(NodeId, NodeInfo)>,
    /// Edge-extraction progress per node.
    resolution: Vec<(NodeId, EdgeResolutionState)>,
    /// Every distinct edge, in the order it was first added.
    log: Ghost<Seq<CallEdge>>,
}

impl CallGraph {
    /// Every distinct edge of the graph, in the order it was first added.
    pub closed spec fn edges(&self) -> Seq<CallEdge> {
        self.log@
    }

    /// Node metadata by node.
    pub closed spec fn node_map(&self) -> Map<NodeId, NodeInfo> {
        assoc_map(self.nodes@)
    }

    /// Recorded resolution states by node.
    pub closed spec fn resolution_map(&self) -> Map<NodeId, EdgeResolutionState> {
        assoc_map(self.resolution@)
    }

    /// Both adjacency indexes are views of [`Self::edges`], which holds no
    /// edge twice; every map has one entry per key.
    pub closed spec fn wf(&self) -> bool {
        &&& keys_unique(self.outgoing@)
        &&& keys_unique(self.incoming@)
        &&& keys_unique(self.nodes@)
        &&& keys_unique(self.resolution@)
        &&& forall|i: int|
            0 <= i < self.outgoing@.len() ==> (#[trigger] self.outgoing@[i]).1@ == edges_from(
                self.log@,
                self.outgoing@[i].0,
            )
        &&& forall|i: int|
            0 <= i < self.incoming@.len() ==> (#[trigger] self.incoming@[i]).1@ == edges_to(
                self.log@,
                self.incoming@[i].0,
            )
        &&& forall|j: int|
            0 <= j < self.log@.len() ==> has_key(self.outgoing@, (#[trigger] self.log@[j]).from)
                && has_key(self.incoming@, self.log@[j].to)
        &&& self.log@.no_duplicates()
    }

    /// Create an empty call graph.
    pub fn new() -> (r: Self)
        ensures
            r.wf(),
            r.edges() == Seq::<CallEdge>::empty(),
            r.node_map() == Map::<NodeId, NodeInfo>::empty(),
            r.resolution_map() == Map::<NodeId, EdgeResolutionState>::empty(),
    {
        CallGraph {
            outgoing: Vec::new(),
            incoming: Vec::new(),
            nodes: Vec::new(),
            resolution: Vec::new(),
            log: Ghost(Seq::empty()),
        }
    }

    /// Add a direct-call edge (A calls B); an edge already present is ignored.
    pub fn add_direct_call(&mut self, from: NodeId, to: NodeId)
        requires
            old(self).wf(),
        ensures
            final(self).wf(),
            final(self).edges() == with_edge(
                old(self).edges(),
                edge_of(from, to, EdgeKind::DirectCall),
            ),
            final(self).node_map() == old(self).node_map(),
            final(self).resolution_map() == old(self).resolution_map(),
    {
        self.insert_edge(CallEdge { from, to, kind: EdgeKind::DirectCall });
    }

    /// Add a trigger-invocation edge (trigger calls procedure).
    pub fn add_trigger_invocation(&mut self, from: NodeId, to: NodeId)
        requires
            old(self).wf(),
        ensures
            final(self).wf(),
            final(self).edges() == with_edge(
                old(self).edges(),
                edge_of(from, to, EdgeKind::TriggerInvocation),
            ),
            final(self).node_map() == old(self).node_map(),
            final(self).resolution_map() == old(self).resolution_map(),
    {
        self.insert_edge(CallEdge { from, to, kind: EdgeKind::TriggerInvocation });
    }

    /// Add a record-trigger edge (a procedure's record operation raises a
    /// table event).
    pub fn add_trigger(&mut self, from: NodeId, to: NodeId)
        requires
            old(self).wf(),
        ensures
            final(self).wf(),
            final(self).edges() == with_edge(
                old(self).edges(),
                edge_of(from, to, EdgeKind::RecordTrigger),
            ),
            final(self).node_map() == old(self).node_map(),
            final(self).resolution_map() == old(self).resolution_map(),
    {
        self.insert_edge(CallEdge { from, to, kind: EdgeKind::RecordTrigger });
    }

    /// Record `edge` in both indexes unless an identical edge exists.
    fn insert_edge(&mut self, edge: CallEdge)
        requires
            old(self).wf(),
        ensures
            final(self).wf(),
            final(self).edges() == with_edge(old(self).edges(), edge),
            final(self).node_map() == old(self).node_map(),
            final(self).resolution_map() == old(self).resolution_map(),
    {
        assert(self.wf());
        let ghost log = self.log@;
        let ghost out0 = self.outgoing@;
        let ghost in0 = self.incoming@;
        proof {
            lemma_edges_from_members(log, edge.from);
            lemma_edges_to_members(log, edge.to);
        }
        let oi = find_key(&self.outgoing, edge.from);
        match oi {
            Some(i) => {
                assert(self.outgoing@[i as int].1@ == edges_from(log, edge.from));
                assert forall|x: CallEdge| self.outgoing@[i as int].1@.contains(x) implies x.from
                    == edge.from by {
                    assert(edges_from(log, edge.from).contains(x));
                }
                let mut k: usize = 0;
                while k < self.outgoing[i].1.len()
                    invariant
                        *self == *old(self),
                        self.wf(),
                        log == self.log@,
                        out0 == self.outgoing@,
                        i < self.outgoing@.len(),
                        self.outgoing@[i as int].0 == edge.from,
                        k <= self.outgoing@[i as int].1@.len(),
                        forall|x: CallEdge|
                            self.outgoing@[i as int].1@.contains(x) ==> x.from == edge.from,
                        forall|j: int|
                            0 <= j < k ==> #[trigger] self.outgoing@[i as int].1@[j] != edge,
                    decreases self.outgoing@[i as int].1@.len() - k,
                {
                    let e = self.outgoing[i].1[k];
                    assert(self.outgoing@[i as int].1@.contains(e));
                    if e.to.0 == edge.to.0 && e.kind == edge.kind {
                        assert(e == edge);
                        proof {
                            lemma_edges_from_members(log, edge.from);
                        }
                        assert(log.contains(edge));
                        return;
                    }
                    k = k + 1;
                }
                assert(!log.contains(edge)) by {
                    if log.contains(edge) {
                        assert(edges_from(log, edge.from).contains(edge));
                        let j = choose|j: int|
                            0 <= j < self.outgoing@[i as int].1@.len()
                                && self.outgoing@[i as int].1@[j] == edge;
                    }
                }
            },
            None => {
                assert(edges_from(log, edge.from) =~= Seq::<CallEdge>::empty()) by {
                    if edges_from(log, edge.from).len() > 0 {
                        let e0 = edges_from(log, edge.from)[0];
                        assert(edges_from(log, edge.from).contains(e0));
                        let j = choose|j: int| 0 <= j < log.len() && log[j] == e0;
                        assert(has_key(self.outgoing@, self.log@[j].from));
                    }
                }
                assert(!log.contains(edge));
            },
        }
        let ghost new_log = log.push(edge);
        proof {
            assert forall|n: NodeId|
                #[trigger] edges_from(new_log, n) == (if edge.from == n {
                    edges_from(log, n).push(edge)
                } else {
                    edges_from(log, n)
                }) by {
                lemma_push_views(log, edge, n);
            }
            assert forall|n: NodeId|
                #[trigger] edges_to(new_log, n) == (if edge.to == n {
                    edges_to(log, n).push(edge)
                } else {
                    edges_to(log, n)
                }) by {
                lemma_push_views(log, edge, n);
            }
        }
        match oi {
            Some(i) => {
                let (key, mut list) = self.outgoing.remove(i);
                list.push(edge);
                self.outgoing.insert(i, (key, list));
                assert(self.outgoing@ =~= out0.update(i as int, (key, list)));
            },
            None => {
                let mut nl: Vec<CallEdge> = Vec::new();
                nl.push(edge);
                assert(nl@ =~= seq![edge]);
                self.outgoing.push((edge.from, nl));
            },
        }
        let ii = find_key(&self.incoming, edge.to);
        proof {
            if ii is None {
                assert(edges_to(log, edge.to) =~= Seq::<CallEdge>::empty()) by {
                    if edges_to(log, edge.to).len() > 0 {
                        let e0 = edges_to(log, edge.to)[0];
                        assert(edges_to(log, edge.to).contains(e0));
                        let j = choose|j: int| 0 <= j < log.len() && log[j] == e0;
                        assert(has_key(old(self).incoming@, old(self).log@[j].to));
                    }
                }
            }
        }
        match ii {
            Some(i) => {
                let (key, mut list) = self.incoming.remove(i);
                list.push(edge);
                self.incoming.insert(i, (key, list));
                assert(self.incoming@ =~= in0.update(i as int, (key, list)));
            },
            None => {
                let mut nl: Vec<CallEdge> = Vec::new();
                nl.push(edge);
                assert(nl@ =~= seq![edge]);
                self.incoming.push((edge.to, nl));
            },
        }
        self.log = Ghost(new_log);
        proof {
            self.lemma_keys_after_insert(out0, in0, log, edge, oi, ii);
        }
    }


    /// Remove all outgoing edges of `node`, from both indexes.
    pub fn remove_edges_from(&mut self, node: NodeId)
        requires
            old(self).wf(),
        ensures
            final(self).wf(),
            final(self).edges() == drop_from(old(self).edges(), node),
            final(self).node_map() == old(self).node_map(),
            final(self).resolution_map() == old(self).resolution_map(),
    {
        assert(self.wf());
        let ghost log = self.log@;
        let ghost out0 = self.outgoing@;
        let ghost in0 = self.incoming@;
        let ghost new_log = drop_from(log, node);
        proof {
            lemma_drop_from_members(log, node);
            lemma_drop_from_no_dups(log, node);
        }
        match find_key(&self.outgoing, node) {
            None => {
                proof {
                    assert forall|j: int| 0 <= j < log.len() implies (#[trigger] log[j]).from
                        != node by {
                        assert(has_key(self.outgoing@, self.log@[j].from));
                    }
                    lemma_drop_from_none(log, node);
                }
            },
            Some(i) => {
                let _ = self.outgoing.remove(i);
                let ghost out1 = self.outgoing@;
                let mut k: usize = 0;
                while k < self.incoming.len()
                    invariant
                        self.outgoing@ == out1,
                        self.nodes == old(self).nodes,
                        self.resolution == old(self).resolution,
                        self.log == old(self).log,
                        k <= self.incoming@.len(),
                        self.incoming@.len() == in0.len(),
                        forall|j: int|
                            0 <= j < in0.len() ==> (#[trigger] self.incoming@[j]).0 == in0[j].0,
                        forall|j: int|
                            0 <= j < k ==> (#[trigger] self.incoming@[j]).1@ == drop_from(
                                in0[j].1@,
                                node,
                            ),
                        forall|j: int|
                            k <= j < in0.len() ==> #[trigger] self.incoming@[j] == in0[j],
                    decreases in0.len() - k,
                {
                    let ghost cur = self.incoming@;
                    let (key, list) = self.incoming.remove(k);
                    let nl = without_from(&list, node);
                    self.incoming.insert(k, (key, nl));
                    assert(self.incoming@ =~= cur.update(k as int, (key, nl)));
                    k = k + 1;
                }
                proof {
                    let out = self.outgoing@;
                    assert(out =~= out0.remove(i as int));
                    assert(keys_unique(out)) by {
                        assert forall|a: int, b: int| 0 <= a < b < out.len() implies #[trigger] out[a].0
                            != #[trigger] out[b].0 by {
                            if a < i {
                                if b < i {
                                    assert(out0[a].0 != out0[b].0);
                                } else {
                                    assert(out0[a].0 != out0[b + 1].0);
                                }
                            } else {
                                assert(out0[a + 1].0 != out0[b + 1].0);
                            }
                        }
                    }
                    assert forall|a: int| 0 <= a < out.len() implies (#[trigger] out[a]).1@
                        == edges_from(new_log, out[a].0) by {
                        let src = if a < i { a } else { a + 1 };
                        assert(out[a] == out0[src]);
                        assert(out0[src].0 != out0[i as int].0);
                        lemma_drop_from_views(log, node, out[a].0);
                    }
                    assert forall|a: int| 0 <= a < self.incoming@.len() implies (
                    #[trigger] self.incoming@[a]).1@ == edges_to(new_log, self.incoming@[a].0) by {
                        assert(in0[a].1@ == edges_to(log, in0[a].0));
                        lemma_drop_from_views(log, node, in0[a].0);
                    }
                    assert forall|j: int| 0 <= j < new_log.len() implies has_key(
                        out,
                        (#[trigger] new_log[j]).from,
                    ) && has_key(self.incoming@, new_log[j].to) by {
                        let e = new_log[j];
                        assert(new_log.contains(e));
                        let j0 = choose|j0: int| 0 <= j0 < log.len() && log[j0] == e;
                        assert(has_key(old(self).outgoing@, old(self).log@[j0].from));
                        let a = choose|a: int| 0 <= a < out0.len() && #[trigger] out0[a].0 == e.from;
                        assert(a != i);
                        if a < i {
                            assert(out[a].0 == e.from);
                        } else {
                            assert(out[a - 1].0 == e.from);
                        }
                        let b = choose|b: int| 0 <= b < in0.len() && #[trigger] in0[b].0 == e.to;
                        assert(self.incoming@[b].0 == e.to);
                    }
                    assert(keys_unique(self.incoming@)) by {
                        assert forall|a: int, b: int| 0 <= a < b < self.incoming@.len() implies
                            #[trigger] self.incoming@[a].0 != #[trigger] self.incoming@[b].0 by {
                            assert(in0[a].0 != in0[b].0);
                        }
                    }
                }
            },
        }
        self.log = Ghost(new_log);
    }

    /// All outgoing edges of `node`, oldest first.
    pub fn callees_of(&self, node: NodeId) -> (r: &[CallEdge])
        requires
            self.wf(),
        ensures
            r@ == edges_from(self.edges(), node),
    {
        match find_key(&self.outgoing, node) {
            Some(i) => self.outgoing[i].1.as_slice(),
            None => {
                proof {
                    lemma_edges_from_members(self.log@, node);
                    if edges_from(self.log@, node).len() > 0 {
                        let e0 = edges_from(self.log@, node)[0];
                        assert(edges_from(self.log@, node).contains(e0));
                        let j = choose|j: int| 0 <= j < self.log@.len() && self.log@[j] == e0;
                        assert(has_key(self.outgoing@, self.log@[j].from));
                    }
                }
                &[]
            },
        }
    }

    /// All incoming edges of `node` (who calls `node`), oldest first.
    pub fn callers_of(&self, node: NodeId) -> (r: &[CallEdge])
        requires
            self.wf(),
        ensures
            r@ == edges_to(self.edges(), node),
    {
        match find_key(&self.incoming, node) {
            Some(i) => self.incoming[i].1.as_slice(),
            None => {
                proof {
                    lemma_edges_to_members(self.log@, node);
                    if edges_to(self.log@, node).len() > 0 {
                        let e0 = edges_to(self.log@, node)[0];
                        assert(edges_to(self.log@, node).contains(e0));
                        let j = choose|j: int| 0 <= j < self.log@.len() && self.log@[j] == e0;
                        assert(has_key(self.incoming@, self.log@[j].to));
                    }
                }
                &[]
            },
        }
    }

    /// Node metadata for display.
    pub fn node_info(&self, id: NodeId) -> (r: Option<&NodeInfo>)
        requires
            self.wf(),
        ensures
            r is Some <==> self.node_map().dom().contains(id),
            r matches Some(info) ==> *info == self.node_map()[id],
    {
        proof {
            lemma_assoc_dom(self.nodes@);
        }
        match find_key(&self.nodes, id) {
            Some(i) => {
                proof {
                    lemma_assoc_lookup(self.nodes@, i as int);
                }
                Some(&self.nodes[i].1)
            },
            None => None,
        }
    }

    /// All node ids of the graph, each once.
    pub fn node_ids(&self) -> (r: Vec<NodeId>)
        requires
            self.wf(),
        ensures
            r@.no_duplicates(),
            forall|id: NodeId| r@.contains(id) <==> self.node_map().dom().contains(id),
    {
        proof {
            lemma_assoc_dom(self.nodes@);
        }
        let mut out: Vec<NodeId> = Vec::new();
        let mut i: usize = 0;
        while i < self.nodes.len()
            invariant
                i <= self.nodes@.len(),
                out@.len() == i,
                forall|j: int| 0 <= j < i ==> #[trigger] out@[j] == self.nodes@[j].0,
            decreases self.nodes@.len() - i,
        {
            out.push(self.nodes[i].0);
            i = i + 1;
        }
        proof {
            assert forall|a: int, b: int|
                0 <= a < out@.len() && 0 <= b < out@.len() && a != b implies out@[a]
                != out@[b] by {
                if a < b {
                    assert(self.nodes@[a].0 != self.nodes@[b].0);
                } else {
                    assert(self.nodes@[b].0 != self.nodes@[a].0);
                }
            }
            assert forall|id: NodeId| out@.contains(id) <==> self.node_map().dom().contains(id) by {
                if out@.contains(id) {
                    let j = choose|j: int| 0 <= j < out@.len() && out@[j] == id;
                    assert(self.nodes@[j].0 == id);
                }
                if has_key(self.nodes@, id) {
                    let j = choose|j: int| 0 <= j < self.nodes@.len() && #[trigger] self.nodes@[j].0
                        == id;
                    assert(out@[j] == id);
                }
            }
        }
        out
    }

    /// Total number of nodes.
    pub fn node_count(&self) -> (r: usize)
        requires
            self.wf(),
        ensures
            r == self.node_map().dom().len(),
    {
        proof {
            lemma_assoc_dom(self.nodes@);
        }
        self.nodes.len()
    }

    /// Total number of distinct edges (saturating at `usize::MAX`).
    pub fn edge_count(&self) -> (r: usize)
        requires
            self.wf(),
        ensures
            r == (if self.edges().len() <= usize::MAX {
                self.edges().len() as int
            } else {
                usize::MAX as int
            }),
    {
        let ghost log = self.log@;
        let mut total: usize = 0;
        let mut k: usize = 0;
        while k < self.outgoing.len()
            invariant
                k <= self.outgoing@.len(),
                log == self.log@,
                self.wf(),
                total == (if sum_from(log, self.outgoing@.take(k as int)) <= usize::MAX {
                    sum_from(log, self.outgoing@.take(k as int))
                } else {
                    usize::MAX as int
                }),
            decreases self.outgoing@.len() - k,
        {
            proof {
                assert(self.outgoing@.take(k + 1).drop_last() =~= self.outgoing@.take(k as int));
                assert(self.outgoing@[k as int].1@ == edges_from(log, self.outgoing@[k as int].0));
                assert(sum_from(log, self.outgoing@.take(k as int)) >= 0) by {
                    lemma_sum_from_nonneg(log, self.outgoing@.take(k as int));
                }
            }
            total = total.saturating_add(self.outgoing[k].1.len());
            k = k + 1;
        }
        proof {
            assert(self.outgoing@.take(self.outgoing@.len() as int) =~= self.outgoing@);
            lemma_partition(log, self.outgoing@);
        }
        total
    }

    /// The subscribers of an event: the sources of its incoming
    /// event-subscription edges, oldest first.
    pub fn subscribers_of(&self, event_id: NodeId) -> (r: Vec<NodeId>)
        requires
            self.wf(),
        ensures
            r@ == sub_sources(edges_to(self.edges(), event_id)),
    {
        let list = self.callers_of(event_id);
        let mut out: Vec<NodeId> = Vec::new();
        let mut i: usize = 0;
        while i < list.len()
            invariant
                i <= list@.len(),
                out@ == sub_sources(list@.take(i as int)),
            decreases list@.len() - i,
        {
            assert(list@.take(i + 1).drop_last() =~= list@.take(i as int));
            let e = list[i];
            if e.kind == EdgeKind::EventSubscription {
                out.push(e.from);
            }
            i = i + 1;
        }
        assert(list@.take(list@.len() as int) =~= list@);
        out
    }

    /// A call graph of the given nodes (a later entry for a node replaces an
    /// earlier one) with an event-subscription edge for each
    /// `(subscriber, event)` pair, duplicates ignored.
    pub fn build_from_insight(nodes: Vec<(NodeId, NodeInfo)>, subscriptions: &Vec<(NodeId, NodeId)>) -> (r: Self)
        ensures
            r.wf(),
            r.node_map() == nodes_map(nodes@),
            r.edges() == with_subscriptions(Seq::empty(), subscriptions@),
            r.resolution_map() == Map::<NodeId, EdgeResolutionState>::empty(),
    {
        let mut cg = CallGraph::new();
        let ghost all = nodes@;
        let mut rest = nodes;
        let mut i: usize = 0;
        assert(all.take(0) =~= Seq::<(NodeId, NodeInfo)>::empty());
        assert(all.len() == rest.len());
        while rest.len() > 0
            invariant
                cg.wf(),
                all.len() <= usize::MAX,
                i + rest@.len() == all.len(),
                rest@ == all.skip(i as int),
                cg.node_map() == nodes_map(all.take(i as int)),
                cg.edges() == Seq::<CallEdge>::empty(),
                cg.resolution_map() == Map::<NodeId, EdgeResolutionState>::empty(),
            decreases rest@.len(),
        {
            let (id, info) = rest.remove(0);
            assert(all.take(i + 1).drop_last() =~= all.take(i as int));
            assert(all.take(i + 1).last() == (id, info));
            cg.register_node(id, info);
            assert(rest@ =~= all.skip(i + 1));
            i = i + 1;
        }
        assert(all.take(all.len() as int) =~= all);
        let ghost subs = subscriptions@;
        let mut j: usize = 0;
        assert(subs.skip(0) =~= subs);
        while j < subscriptions.len()
            invariant
                cg.wf(),
                j <= subs.len(),
                subs == subscriptions@,
                cg.node_map() == nodes_map(all),
                with_subscriptions(Seq::empty(), subs) == with_subscriptions(
                    cg.edges(),
                    subs.skip(j as int),
                ),
                cg.resolution_map() == Map::<NodeId, EdgeResolutionState>::empty(),
            decreases subs.len() - j,
        {
            let (from, to) = subscriptions[j];
            assert(subs.skip(j as int).drop_first() =~= subs.skip(j + 1));
            cg.insert_edge(CallEdge { from, to, kind: EdgeKind::EventSubscription });
            j = j + 1;
        }
        assert(subs.skip(subs.len() as int) =~= Seq::<(NodeId, NodeId)>::empty());
        cg
    }

    /// Register (or replace) the metadata of a node.
    pub fn register_node(&mut self, id: NodeId, info: NodeInfo)
        requires
            old(self).wf(),
        ensures
            final(self).wf(),
            final(self).node_map() == old(self).node_map().insert(id, info),
            final(self).edges() == old(self).edges(),
            final(self).resolution_map() == old(self).resolution_map(),
    {
        let ghost n0 = self.nodes@;
        match find_key(&self.nodes, id) {
            Some(i) => {
                let _ = self.nodes.remove(i);
                self.nodes.insert(i, (id, info));
                proof {
                    assert(self.nodes@ =~= n0.update(i as int, (n0[i as int].0, info)));
                    lemma_assoc_update(n0, i as int, info);
                }
            },
            None => {
                self.nodes.push((id, info));
                proof {
                    lemma_assoc_push(n0, id, info);
                }
            },
        }
    }

    /// The edge resolution state of a node; `Unresolved` when none was set.
    pub fn resolution_state(&self, node: NodeId) -> (r: EdgeResolutionState)
        requires
            self.wf(),
        ensures
            r == (if self.resolution_map().dom().contains(node) {
                self.resolution_map()[node]
            } else {
                EdgeResolutionState::Unresolved
            }),
    {
        proof {
            lemma_assoc_dom(self.resolution@);
        }
        match find_key(&self.resolution, node) {
            Some(i) => {
                proof {
                    lemma_assoc_lookup(self.resolution@, i as int);
                }
                self.resolution[i].1
            },
            None => EdgeResolutionState::Unresolved,
        }
    }

    /// Set the edge resolution state of a node.
    pub fn set_resolution_state(&mut self, node: NodeId, state: EdgeResolutionState)
        requires
            old(self).wf(),
        ensures
            final(self).wf(),
            final(self).resolution_map() == old(self).resolution_map().insert(node, state),
            final(self).edges() == old(self).edges(),
            final(self).node_map() == old(self).node_map(),
    {
        let ghost r0 = self.resolution@;
        match find_key(&self.resolution, node) {
            Some(i) => {
                let _ = self.resolution.remove(i);
                self.resolution.insert(i, (node, state));
                proof {
                    assert(self.resolution@ =~= r0.update(i as int, (r0[i as int].0, state)));
                    lemma_assoc_update(r0, i as int, state);
                }
            },
            None => {
                self.resolution.push((node, state));
                proof {
                    lemma_assoc_push(r0, node, state);
                }
            },
        }
    }

    /// The two adjacency indexes agree: every callee edge of `m` leaves `m`,
    /// no two of them share target and kind, the callers of `n` are exactly
    /// (as a multiset) the callee edges of all nodes that enter `n`, and the
    /// edge count is the sum of the callee-list lengths over the sources.
    pub proof fn lemma_adjacency_consistent(&self, m: NodeId, n: NodeId, e: CallEdge)
        requires
            self.wf(),
        ensures
            forall|k: int|
                0 <= k < edges_from(self.edges(), m).len() ==> (#[trigger] edges_from(self.edges(), m)[k]).from
                    == m,
            forall|i: int, j: int|
                0 <= i < j < edges_from(self.edges(), m).len() ==> !((#[trigger] edges_from(self.edges(), m)[i]).to
                    == (#[trigger] edges_from(self.edges(), m)[j]).to && edges_from(self.edges(), m)[i].kind
                    == edges_from(self.edges(), m)[j].kind),
            edges_to(self.edges(), n).to_multiset().count(e) == (if e.to == n {
                edges_from(self.edges(), e.from).to_multiset().count(e)
            } else {
                0
            }),
            self.edges().len() == out_degree_sum(self.edges(), sources(self.edges())),
    {
        broadcast use vstd::seq_lib::group_to_multiset_ensures;

        let log = self.log@;
        lemma_edges_from_distinct(log, m);
        lemma_edges_from_distinct(log, e.from);
        lemma_edges_to_distinct(log, n);
        lemma_edges_from_members(log, e.from);
        lemma_edges_to_members(log, n);
        lemma_edge_count_is_out_degree_sum(log);
        let f = edges_from(log, m);
        assert forall|i: int, j: int| 0 <= i < j < f.len() implies !((#[trigger] f[i]).to == (#[trigger] f[j]).to
            && f[i].kind == f[j].kind) by {
            if f[i].to == f[j].to && f[i].kind == f[j].kind {
                assert(f[i] == f[j]);
            }
        }
        let t = edges_to(log, n);
        let g = edges_from(log, e.from);
        t.lemma_multiset_has_no_duplicates();
        g.lemma_multiset_has_no_duplicates();
        if t.contains(e) {
            assert(g.contains(e));
        } else if e.to == n && g.contains(e) {
            assert(log.contains(e));
            assert(t.contains(e));
        }
    }

    /// Edge count law: the graph holds no edge twice, so
    /// [`Self::edge_count`] counts distinct edges.
    pub proof fn lemma_edges_distinct(&self)
        requires
            self.wf(),
        ensures
            self.edges().no_duplicates(),
    {
    }

    proof fn lemma_keys_after_insert(
        &self,
        out0: Seq<(NodeId, Vec<CallEdge>)>,
        in0: Seq<(NodeId, Vec<CallEdge>)>,
        log: Seq<CallEdge>,
        edge: CallEdge,
        oi: Option<usize>,
        ii: Option<usize>,
    )
        requires
            keys_unique(out0),
            keys_unique(in0),
            !log.contains(edge),
            log.no_duplicates(),
            self.log@ == log.push(edge),
            forall|j: int|
                0 <= j < log.len() ==> has_key(out0, (#[trigger] log[j]).from) && has_key(
                    in0,
                    log[j].to,
                ),
            forall|i: int|
                0 <= i < out0.len() ==> (#[trigger] out0[i]).1@ == edges_from(log, out0[i].0),
            forall|i: int|
                0 <= i < in0.len() ==> (#[trigger] in0[i]).1@ == edges_to(log, in0[i].0),
            forall|n: NodeId|
                #[trigger] edges_from(log.push(edge), n) == (if edge.from == n {
                    edges_from(log, n).push(edge)
                } else {
                    edges_from(log, n)
                }),
            forall|n: NodeId|
                #[trigger] edges_to(log.push(edge), n) == (if edge.to == n {
                    edges_to(log, n).push(edge)
                } else {
                    edges_to(log, n)
                }),
            oi matches Some(i) ==> i < out0.len() && out0[i as int].0 == edge.from
                && self.outgoing@.len() == out0.len() && self.outgoing@[i as int].0 == edge.from
                && self.outgoing@[i as int].1@ == out0[i as int].1@.push(edge) && forall|k: int|
                0 <= k < out0.len() && k != i ==> #[trigger] self.outgoing@[k] == out0[k],
            oi is None ==> !has_key(out0, edge.from) && edges_from(log, edge.from)
                == Seq::<CallEdge>::empty() && self.outgoing@.len() == out0.len() + 1
                && self.outgoing@[out0.len() as int].0 == edge.from
                && self.outgoing@[out0.len() as int].1@ == seq![edge] && forall|k: int|
                0 <= k < out0.len() ==> #[trigger] self.outgoing@[k] == out0[k],
            ii matches Some(i) ==> i < in0.len() && in0[i as int].0 == edge.to
                && self.incoming@.len() == in0.len() && self.incoming@[i as int].0 == edge.to
                && self.incoming@[i as int].1@ == in0[i as int].1@.push(edge) && forall|k: int|
                0 <= k < in0.len() && k != i ==> #[trigger] self.incoming@[k] == in0[k],
            ii is None ==> !has_key(in0, edge.to) && edges_to(log, edge.to) == Seq::<
                CallEdge,
            >::empty() && self.incoming@.len() == in0.len() + 1
                && self.incoming@[in0.len() as int].0 == edge.to
                && self.incoming@[in0.len() as int].1@ == seq![edge] && forall|k: int|
                0 <= k < in0.len() ==> #[trigger] self.incoming@[k] == in0[k],
        ensures
            keys_unique(self.outgoing@),
            keys_unique(self.incoming@),
            forall|i: int|
                0 <= i < self.outgoing@.len() ==> (#[trigger] self.outgoing@[i]).1@ == edges_from(
                    self.log@,
                    self.outgoing@[i].0,
                ),
            forall|i: int|
                0 <= i < self.incoming@.len() ==> (#[trigger] self.incoming@[i]).1@ == edges_to(
                    self.log@,
                    self.incoming@[i].0,
                ),
            forall|j: int|
                0 <= j < self.log@.len() ==> has_key(self.outgoing@, (#[trigger] self.log@[j]).from)
                    && has_key(self.incoming@, self.log@[j].to),
            self.log@.no_duplicates(),
    {
        let out = self.outgoing@;
        let inc = self.incoming@;
        assert(keys_unique(out)) by {
            assert forall|a: int, b: int| 0 <= a < b < out.len() implies #[trigger] out[a].0
                != #[trigger] out[b].0 by {
                if oi is None && b == out0.len() {
                    assert(out0[a].0 != edge.from);
                } else {
                    assert(out0[a].0 != out0[b].0);
                }
            }
        }
        assert(keys_unique(inc)) by {
            assert forall|a: int, b: int| 0 <= a < b < inc.len() implies #[trigger] inc[a].0
                != #[trigger] inc[b].0 by {
                if ii is None && b == in0.len() {
                    assert(in0[a].0 != edge.to);
                } else {
                    assert(in0[a].0 != in0[b].0);
                }
            }
        }
        assert forall|i: int| 0 <= i < out.len() implies (#[trigger] out[i]).1@ == edges_from(
            self.log@,
            out[i].0,
        ) by {
            let _ = edges_from(log.push(edge), out[i].0);
            if i < out0.len() && out0[i].0 != edge.from {
                assert(out[i] == out0[i]);
            }
            if oi is None && i == out0.len() {
                assert(seq![edge] =~= Seq::<CallEdge>::empty().push(edge));
            }
        }
        assert forall|i: int| 0 <= i < inc.len() implies (#[trigger] inc[i]).1@ == edges_to(
            self.log@,
            inc[i].0,
        ) by {
            let _ = edges_to(log.push(edge), inc[i].0);
            if i < in0.len() && in0[i].0 != edge.to {
                assert(inc[i] == in0[i]);
            }
            if ii is None && i == in0.len() {
                assert(seq![edge] =~= Seq::<CallEdge>::empty().push(edge));
            }
        }
        assert forall|j: int| 0 <= j < self.log@.len() implies has_key(
            out,
            (#[trigger] self.log@[j]).from,
        ) && has_key(inc, self.log@[j].to) by {
            let e = self.log@[j];
            if j < log.len() {
                assert(log[j] == e);
                let a = choose|a: int| 0 <= a < out0.len() && #[trigger] out0[a].0 == e.from;
                let b = choose|b: int| 0 <= b < in0.len() && #[trigger] in0[b].0 == e.to;
                assert(out[a].0 == e.from);
                assert(inc[b].0 == e.to);
            } else {
                match oi {
                    Some(i) => {
                        assert(out[i as int].0 == e.from);
                    },
                    None => {
                        assert(out[out0.len() as int].0 == e.from);
                    },
                }
                match ii {
                    Some(i) => {
                        assert(inc[i as int].0 == e.to);
                    },
                    None => {
                        assert(inc[in0.len() as int].0 == e.to);
                    },
                }
            }
        }
        assert(self.log@.no_duplicates()) by {
            let l = self.log@;
            assert forall|a: int, b: int| 0 <= a < l.len() && 0 <= b < l.len() && a != b implies l[a]
                != l[b] by {
                if b == log.len() {
                    assert(log[a] == l[a]);
                } else if a == log.len() {
                    assert(log[b] == l[b]);
                } else {
                    assert(log[a] == l[a] && log[b] == l[b]);
                }
            }
        }
    }
}

} // verus!
