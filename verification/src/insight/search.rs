//! Event-chain tracing over the call graph: from an event to its
//! subscribers, to the events and procedures they call, and so on, with
//! cycle detection, a depth limit and a bound on the nodes visited.

use vstd::prelude::*;

use super::index::{
    edge_kind_label, edges_from, edges_to, sub_sources, CallEdge, CallGraph, EdgeKind, NodeId,
    NodeInfo,
};
use crate::numfmt::{digits, push_decimal};
use crate::text::{chars_of, lowercase, push_str, to_lower, vec_eq};

verus! {

/// Upper bound on the nodes one trace visits across all its branches.
pub const MAX_CHAIN_NODES: usize = 10_000;

/// One step of a flattened event trace.
#[derive(Debug, Clone)]
pub struct TraceStep {
    pub depth: usize,
    pub edge_type: String,
    pub node_type: String,
    pub name: String,
    pub object: String,
}

/// One node of an event propagation tree.
#[derive(Debug)]
pub struct ChainNode {
    /// How the node was reached from its parent.
    pub edge_kind: String,
    /// `event`, `subscriber` or `procedure`.
    pub node_type: String,
    /// Method, procedure or event name.
    pub name: String,
    /// Owning object name.
    pub object: String,
    /// Depth from the root event (0 for the root).
    pub depth: usize,
    /// The node was visited before: its children are not expanded.
    pub cycle: bool,
    pub children: Vec<ChainNode>,
}

/// The result of [`trace_event_chain`].
#[derive(Debug)]
pub struct EventChain {
    /// The event name searched for.
    pub event_name: String,
    /// The publisher object of the first matching event (empty when none).
    pub publisher_object: String,
    /// One tree per matching event.
    pub chains: Vec<ChainNode>,
    /// Number of nodes visited.
    pub nodes_visited: usize,
}

/// An exported graph edge.
#[derive(Debug, Clone)]
pub struct EdgeJson {
    pub from: usize,
    pub to: usize,
    pub edge_type: String,
}

/// A chain node as plain values.
pub struct ChainView {
    pub edge_kind: Seq<char>,
    pub node_type: Seq<char>,
    pub name: Seq<char>,
    pub object: Seq<char>,
    pub depth: int,
    pub cycle: bool,
    pub children: Seq<ChainView>,
}

pub open spec fn chain_view(c: ChainNode) -> ChainView
    decreases c,
{
    ChainView {
        edge_kind: c.edge_kind@,
        node_type: c.node_type@,
        name: c.name@,
        object: c.object@,
        depth: c.depth as int,
        cycle: c.cycle,
        children: chains_view(c.children@),
    }
}

pub open spec fn chains_view(s: Seq<ChainNode>) -> Seq<ChainView>
    decreases s,
{
    if s.len() == 0 {
        seq![]
    } else {
        chains_view(s.drop_last()).push(chain_view(s.last()))
    }
}

/// The name recorded for a node (empty when unknown).
pub open spec fn info_name(nodes: Map<NodeId, NodeInfo>, id: NodeId) -> Seq<char> {
    if nodes.dom().contains(id) {
        nodes[id].name@
    } else {
        seq![]
    }
}

/// The object recorded for a node (empty when unknown).
pub open spec fn info_object(nodes: Map<NodeId, NodeInfo>, id: NodeId) -> Seq<char> {
    if nodes.dom().contains(id) {
        nodes[id].object@
    } else {
        seq![]
    }
}

/// The type recorded for a node (`unknown` when unknown).
pub open spec fn info_type(nodes: Map<NodeId, NodeInfo>, id: NodeId) -> Seq<char> {
    if nodes.dom().contains(id) {
        nodes[id].node_type@
    } else {
        "unknown"@
    }
}

/// A count incremented without passing `usize::MAX`.
pub open spec fn sat_inc(t: int) -> int {
    if t < usize::MAX {
        t + 1
    } else {
        t
    }
}

/// What a part of a trace yields: nodes, the visited nodes in the order
/// they were first visited, and the number of nodes counted.
pub type Trace = (Seq<ChainView>, Seq<NodeId>, int);

pub open spec fn prepend(vs: Seq<ChainView>, t: Trace) -> Trace {
    (vs + t.0, t.1, t.2)
}

/// The subscribers of event `e` at `depth`, as tree nodes: nothing past
/// `max` or once [`MAX_CHAIN_NODES`] are counted.
pub open spec fn trace_event_spec(
    edges: Seq<CallEdge>,
    nodes: Map<NodeId, NodeInfo>,
    e: NodeId,
    depth: int,
    max: int,
    visited: Seq<NodeId>,
    total: int,
) -> Trace
    decreases max - depth, 1int, 0int,
{
    if depth > max || total >= MAX_CHAIN_NODES {
        (seq![], visited, total)
    } else {
        trace_subscribers(edges, nodes, sub_sources(edges_to(edges, e)), depth, max, visited, total)
    }
}

/// The calls of subscriber or procedure `s` at `depth` that lead to events,
/// as tree nodes: nothing past `max` or once [`MAX_CHAIN_NODES`] are
/// counted.
pub open spec fn trace_subscriber_spec(
    edges: Seq<CallEdge>,
    nodes: Map<NodeId, NodeInfo>,
    s: NodeId,
    depth: int,
    max: int,
    visited: Seq<NodeId>,
    total: int,
) -> Trace
    decreases max - depth, 1int, 0int,
{
    if depth > max || total >= MAX_CHAIN_NODES {
        (seq![], visited, total)
    } else {
        trace_callees(edges, nodes, edges_from(edges, s), depth, max, visited, total)
    }
}

/// One node per subscriber of `subs`, in order: a subscriber seen before is
/// a cycle and is not expanded; one at depth `max` is not expanded either;
/// any other is marked visited, counted, and expanded one level deeper.
pub open spec fn trace_subscribers(
    edges: Seq<CallEdge>,
    nodes: Map<NodeId, NodeInfo>,
    subs: Seq<NodeId>,
    depth: int,
    max: int,
    visited: Seq<NodeId>,
    total: int,
) -> Trace
    decreases max - depth, 0int, subs.len(),
{
    if subs.len() == 0 {
        (seq![], visited, total)
    } else {
        let h = subs[0];
        let cyc = visited.contains(h);
        let kids: Trace = if cyc || depth >= max {
            (seq![], visited, total)
        } else {
            trace_subscriber_spec(edges, nodes, h, depth + 1, max, visited.push(h), sat_inc(total))
        };
        let node = ChainView {
            edge_kind: "event_subscription"@,
            node_type: "subscriber"@,
            name: info_name(nodes, h),
            object: info_object(nodes, h),
            depth,
            cycle: cyc,
            children: kids.0,
        };
        prepend(
            seq![node],
            trace_subscribers(edges, nodes, subs.drop_first(), depth, max, kids.1, kids.2),
        )
    }
}

/// The nodes for the callees of `list`, in order: an event callee gives a
/// node (expanded one level deeper unless seen before or at depth `max`); a
/// procedure callee is expanded the same way and gives a node only when
/// that finds something; other callees give nothing.
pub open spec fn trace_callees(
    edges: Seq<CallEdge>,
    nodes: Map<NodeId, NodeInfo>,
    list: Seq<CallEdge>,
    depth: int,
    max: int,
    visited: Seq<NodeId>,
    total: int,
) -> Trace
    decreases max - depth, 0int, list.len(),
{
    if list.len() == 0 {
        (seq![], visited, total)
    } else {
        let edge = list[0];
        let c = edge.to;
        let ty = info_type(nodes, c);
        let cyc = visited.contains(c);
        if ty == "event"@ {
            let g: Trace = if cyc || depth >= max {
                (seq![], visited, total)
            } else {
                trace_event_spec(edges, nodes, c, depth + 1, max, visited.push(c), sat_inc(total))
            };
            let node = ChainView {
                edge_kind: edge_kind_label(edge.kind),
                node_type: "event"@,
                name: info_name(nodes, c),
                object: info_object(nodes, c),
                depth,
                cycle: cyc,
                children: g.0,
            };
            prepend(
                seq![node],
                trace_callees(edges, nodes, list.drop_first(), depth, max, g.1, g.2),
            )
        } else if ty == "procedure"@ {
            let g: Trace = if cyc || depth >= max {
                (seq![], visited, total)
            } else {
                trace_subscriber_spec(
                    edges,
                    nodes,
                    c,
                    depth + 1,
                    max,
                    visited.push(c),
                    sat_inc(total),
                )
            };
            let node = ChainView {
                edge_kind: edge_kind_label(edge.kind),
                node_type: "procedure"@,
                name: info_name(nodes, c),
                object: info_object(nodes, c),
                depth,
                cycle: cyc,
                children: g.0,
            };
            prepend(
                if g.0.len() > 0 {
                    seq![node]
                } else {
                    seq![]
                },
                trace_callees(edges, nodes, list.drop_first(), depth, max, g.1, g.2),
            )
        } else {
            trace_callees(edges, nodes, list.drop_first(), depth, max, visited, total)
        }
    }
}

fn contains_node(v: &Vec<NodeId>, id: NodeId) -> (b: bool)
    ensures
        b == v@.contains(id),
{
    let mut i: usize = 0;
    while i < v.len()
        invariant
            i <= v@.len(),
            forall|j: int| 0 <= j < i ==> v@[j] != id,
        decreases v@.len() - i,
    {
        if v[i] == id {
            assert(v@[i as int] == id);
            return true;
        }
        i = i + 1;
    }
    false
}

fn string_from(s: &str) -> (r: String)
    ensures
        r@ == s@,
{
    let mut r = String::new();
    push_str(&mut r, s);
    r
}

fn info_strings(cg: &CallGraph, id: NodeId) -> (r: (String, String))
    requires
        cg.wf(),
    ensures
        r.0@ == info_name(cg.node_map(), id),
        r.1@ == info_object(cg.node_map(), id),
{
    match cg.node_info(id) {
        Some(i) => (i.name.clone(), i.object.clone()),
        None => (String::new(), String::new()),
    }
}

fn bump(total: &mut usize)
    ensures
        *final(total) as int == sat_inc(*old(total) as int),
{
    if *total < usize::MAX {
        *total = *total + 1;
    }
}

proof fn lemma_chains_push(s: Seq<ChainNode>, c: ChainNode)
    ensures
        chains_view(s.push(c)) == chains_view(s).push(chain_view(c)),
{
    assert(s.push(c).drop_last() =~= s);
}

/// The subscribers of an event, expanded (see [`trace_event_spec`]).
fn recurse_event(
    cg: &CallGraph,
    event_id: NodeId,
    depth: usize,
    max_depth: usize,
    visited: &mut Vec<NodeId>,
    total: &mut usize,
) -> (r: Vec<ChainNode>)
    requires
        cg.wf(),
    ensures
        (chains_view(r@), final(visited)@, *final(total) as int) == trace_event_spec(
            cg.edges(),
            cg.node_map(),
            event_id,
            depth as int,
            max_depth as int,
            old(visited)@,
            *old(total) as int,
        ),
    decreases max_depth - depth, 1int, 0int,
{
    if depth > max_depth || *total >= MAX_CHAIN_NODES {
        return Vec::new();
    }
    let ghost edges = cg.edges();
    let ghost nodes = cg.node_map();
    let subscribers = cg.subscribers_of(event_id);
    let ghost subs = subscribers@;
    let ghost v0 = visited@;
    let ghost t0 = *total as int;
    let mut children: Vec<ChainNode> = Vec::new();
    let mut i: usize = 0;
    assert(subs.skip(0) =~= subs);
    assert(chains_view(children@) =~= Seq::<ChainView>::empty());
    while i < subscribers.len()
        invariant
            cg.wf(),
            edges == cg.edges(),
            nodes == cg.node_map(),
            subs == subscribers@,
            depth <= max_depth,
            i <= subs.len(),
            trace_subscribers(edges, nodes, subs, depth as int, max_depth as int, v0, t0)
                == prepend(
                chains_view(children@),
                trace_subscribers(
                    edges,
                    nodes,
                    subs.skip(i as int),
                    depth as int,
                    max_depth as int,
                    visited@,
                    *total as int,
                ),
            ),
        decreases subs.len() - i,
    {
        let sub_id = subscribers[i];
        let ghost vb = visited@;
        let ghost tb = *total as int;
        let is_cycle = contains_node(visited, sub_id);
        let (name, object) = info_strings(cg, sub_id);
        let sub_children = if is_cycle || depth >= max_depth {
            Vec::new()
        } else {
            visited.push(sub_id);
            bump(total);
            recurse_subscriber(cg, sub_id, depth + 1, max_depth, visited, total)
        };
        let node = ChainNode {
            edge_kind: string_from(EdgeKind::EventSubscription.as_str()),
            node_type: string_from("subscriber"),
            name,
            object,
            depth,
            cycle: is_cycle,
            children: sub_children,
        };
        proof {
            let rest = subs.skip(i as int);
            assert(rest[0] == sub_id);
            assert(rest.drop_first() =~= subs.skip(i + 1));
            let kids: Trace = if is_cycle || depth >= max_depth {
                (seq![], vb, tb)
            } else {
                trace_subscriber_spec(
                    edges,
                    nodes,
                    sub_id,
                    depth + 1,
                    max_depth as int,
                    vb.push(sub_id),
                    sat_inc(tb),
                )
            };
            assert(chains_view(node.children@) == kids.0);
            assert(visited@ == kids.1);
            assert(*total as int == kids.2);
            lemma_chains_push(children@, node);
        }
        let ghost before = chains_view(children@);
        children.push(node);
        proof {
            let tail = trace_subscribers(
                edges,
                nodes,
                subs.skip(i + 1),
                depth as int,
                max_depth as int,
                visited@,
                *total as int,
            );
            assert(before + (seq![chain_view(node)] + tail.0) =~= chains_view(children@) + tail.0);
        }
        i = i + 1;
    }
    proof {
        assert(subs.skip(subs.len() as int) =~= Seq::<NodeId>::empty());
        assert(chains_view(children@) + Seq::<ChainView>::empty() =~= chains_view(children@));
    }
    children
}

/// The calls of a subscriber or procedure that lead to events, expanded
/// (see [`trace_subscriber_spec`]).
fn recurse_subscriber(
    cg: &CallGraph,
    sub_id: NodeId,
    depth: usize,
    max_depth: usize,
    visited: &mut Vec<NodeId>,
    total: &mut usize,
) -> (r: Vec<ChainNode>)
    requires
        cg.wf(),
    ensures
        (chains_view(r@), final(visited)@, *final(total) as int) == trace_subscriber_spec(
            cg.edges(),
            cg.node_map(),
            sub_id,
            depth as int,
            max_depth as int,
            old(visited)@,
            *old(total) as int,
        ),
    decreases max_depth - depth, 1int, 0int,
{
    if depth > max_depth || *total >= MAX_CHAIN_NODES {
        return Vec::new();
    }
    let ghost edges = cg.edges();
    let ghost nodes = cg.node_map();
    let callees = cg.callees_of(sub_id);
    let ghost list = callees@;
    let ghost v0 = visited@;
    let ghost t0 = *total as int;
    let mut children: Vec<ChainNode> = Vec::new();
    let mut i: usize = 0;
    assert(list.skip(0) =~= list);
    assert(chains_view(children@) =~= Seq::<ChainView>::empty());
    while i < callees.len()
        invariant
            cg.wf(),
            edges == cg.edges(),
            nodes == cg.node_map(),
            list == callees@,
            depth <= max_depth,
            i <= list.len(),
            trace_callees(edges, nodes, list, depth as int, max_depth as int, v0, t0) == prepend(
                chains_view(children@),
                trace_callees(
                    edges,
                    nodes,
                    list.skip(i as int),
                    depth as int,
                    max_depth as int,
                    visited@,
                    *total as int,
                ),
            ),
        decreases list.len() - i,
    {
        let edge = callees[i];
        let callee_id = edge.to;
        let ghost rest = list.skip(i as int);
        let ghost vb = visited@;
        let ghost tb = *total as int;
        proof {
            assert(rest[0] == edge);
            assert(rest.drop_first() =~= list.skip(i + 1));
        }
        let ty: &str = match cg.node_info(callee_id) {
            Some(info) => info.node_type.as_str(),
            None => "unknown",
        };
        let tyv = chars_of(ty);
        assert(tyv@ == info_type(nodes, callee_id));
        if vec_eq(&tyv, &chars_of("event")) {
            let is_cycle = contains_node(visited, callee_id);
            let (name, object) = info_strings(cg, callee_id);
            let grandchildren = if is_cycle || depth >= max_depth {
                Vec::new()
            } else {
                visited.push(callee_id);
                bump(total);
                recurse_event(cg, callee_id, depth + 1, max_depth, visited, total)
            };
            let node = ChainNode {
                edge_kind: string_from(edge.kind.as_str()),
                node_type: string_from("event"),
                name,
                object,
                depth,
                cycle: is_cycle,
                children: grandchildren,
            };
            proof {
                lemma_chains_push(children@, node);
            }
            let ghost before = chains_view(children@);
            children.push(node);
            proof {
                let tail = trace_callees(
                    edges,
                    nodes,
                    list.skip(i + 1),
                    depth as int,
                    max_depth as int,
                    visited@,
                    *total as int,
                );
                assert(before + (seq![chain_view(node)] + tail.0) =~= chains_view(children@)
                    + tail.0);
            }
        } else if vec_eq(&tyv, &chars_of("procedure")) {
            let is_cycle = contains_node(visited, callee_id);
            let (name, object) = info_strings(cg, callee_id);
            let grandchildren = if is_cycle || depth >= max_depth {
                Vec::new()
            } else {
                visited.push(callee_id);
                bump(total);
                recurse_subscriber(cg, callee_id, depth + 1, max_depth, visited, total)
            };
            if grandchildren.len() > 0 {
                let node = ChainNode {
                    edge_kind: string_from(edge.kind.as_str()),
                    node_type: string_from("procedure"),
                    name,
                    object,
                    depth,
                    cycle: is_cycle,
                    children: grandchildren,
                };
                proof {
                    lemma_chains_push(children@, node);
                }
                let ghost before = chains_view(children@);
                children.push(node);
                proof {
                    let tail = trace_callees(
                        edges,
                        nodes,
                        list.skip(i + 1),
                        depth as int,
                        max_depth as int,
                        visited@,
                        *total as int,
                    );
                    assert(before + (seq![chain_view(node)] + tail.0) =~= chains_view(children@)
                        + tail.0);
                }
            } else {
                proof {
                    let tail = trace_callees(
                        edges,
                        nodes,
                        list.skip(i + 1),
                        depth as int,
                        max_depth as int,
                        visited@,
                        *total as int,
                    );
                    assert(chains_view(children@) + (Seq::<ChainView>::empty() + tail.0)
                        =~= chains_view(children@) + tail.0);
                }
            }
        }
        i = i + 1;
    }
    proof {
        assert(list.skip(list.len() as int) =~= Seq::<CallEdge>::empty());
        assert(chains_view(children@) + Seq::<ChainView>::empty() =~= chains_view(children@));
    }
    children
}

/// The nodes of `vs` lie at depth `d`, no deeper than `max`; a node marked
/// as a cycle has no children; the children of the others lie one level
/// deeper, with the same shape.
pub open spec fn chain_shape(vs: Seq<ChainView>, d: int, max: int) -> bool
    decreases vs,
{
    if vs.len() == 0 {
        true
    } else {
        let n = vs.last();
        &&& n.depth == d
        &&& d <= max
        &&& (n.cycle ==> n.children.len() == 0)
        &&& chain_shape(n.children, d + 1, max)
        &&& chain_shape(vs.drop_last(), d, max)
    }
}

proof fn lemma_shape_concat(a: Seq<ChainView>, b: Seq<ChainView>, d: int, max: int)
    requires
        chain_shape(a, d, max),
        chain_shape(b, d, max),
    ensures
        chain_shape(a + b, d, max),
    decreases b.len(),
{
    if b.len() == 0 {
        assert(a + b =~= a);
    } else {
        lemma_shape_concat(a, b.drop_last(), d, max);
        assert((a + b).drop_last() =~= a + b.drop_last());
        assert((a + b).last() == b.last());
    }
}

proof fn lemma_shape_single(n: ChainView, d: int, max: int)
    requires
        n.depth == d,
        d <= max,
        n.cycle ==> n.children.len() == 0,
        chain_shape(n.children, d + 1, max),
    ensures
        chain_shape(seq![n], d, max),
{
    assert(seq![n].drop_last() =~= Seq::<ChainView>::empty());
    assert(seq![n].last() == n);
    assert(chain_shape(seq![n].drop_last(), d, max));
}

proof fn lemma_shape_event(
    edges: Seq<CallEdge>,
    nodes: Map<NodeId, NodeInfo>,
    e: NodeId,
    depth: int,
    max: int,
    visited: Seq<NodeId>,
    total: int,
)
    ensures
        chain_shape(trace_event_spec(edges, nodes, e, depth, max, visited, total).0, depth, max),
    decreases max - depth, 1int, 0int,
{
    if depth > max || total >= MAX_CHAIN_NODES {
    } else {
        lemma_shape_subscribers(
            edges,
            nodes,
            sub_sources(edges_to(edges, e)),
            depth,
            max,
            visited,
            total,
        );
    }
}

proof fn lemma_shape_subscriber(
    edges: Seq<CallEdge>,
    nodes: Map<NodeId, NodeInfo>,
    s: NodeId,
    depth: int,
    max: int,
    visited: Seq<NodeId>,
    total: int,
)
    ensures
        chain_shape(trace_subscriber_spec(edges, nodes, s, depth, max, visited, total).0, depth, max),
    decreases max - depth, 1int, 0int,
{
    if depth > max || total >= MAX_CHAIN_NODES {
    } else {
        lemma_shape_callees(edges, nodes, edges_from(edges, s), depth, max, visited, total);
    }
}

proof fn lemma_shape_subscribers(
    edges: Seq<CallEdge>,
    nodes: Map<NodeId, NodeInfo>,
    subs: Seq<NodeId>,
    depth: int,
    max: int,
    visited: Seq<NodeId>,
    total: int,
)
    requires
        depth <= max,
    ensures
        chain_shape(trace_subscribers(edges, nodes, subs, depth, max, visited, total).0, depth, max),
    decreases max - depth, 0int, subs.len(),
{
    if subs.len() > 0 {
        let h = subs[0];
        let cyc = visited.contains(h);
        let kids: Trace = if cyc || depth >= max {
            (seq![], visited, total)
        } else {
            lemma_shape_subscriber(edges, nodes, h, depth + 1, max, visited.push(h), sat_inc(total));
            trace_subscriber_spec(edges, nodes, h, depth + 1, max, visited.push(h), sat_inc(total))
        };
        let node = ChainView {
            edge_kind: "event_subscription"@,
            node_type: "subscriber"@,
            name: info_name(nodes, h),
            object: info_object(nodes, h),
            depth,
            cycle: cyc,
            children: kids.0,
        };
        lemma_shape_single(node, depth, max);
        lemma_shape_subscribers(edges, nodes, subs.drop_first(), depth, max, kids.1, kids.2);
        lemma_shape_concat(
            seq![node],
            trace_subscribers(edges, nodes, subs.drop_first(), depth, max, kids.1, kids.2).0,
            depth,
            max,
        );
    }
}

proof fn lemma_shape_callees(
    edges: Seq<CallEdge>,
    nodes: Map<NodeId, NodeInfo>,
    list: Seq<CallEdge>,
    depth: int,
    max: int,
    visited: Seq<NodeId>,
    total: int,
)
    requires
        depth <= max,
    ensures
        chain_shape(trace_callees(edges, nodes, list, depth, max, visited, total).0, depth, max),
    decreases max - depth, 0int, list.len(),
{
    if list.len() > 0 {
        let edge = list[0];
        let c = edge.to;
        let ty = info_type(nodes, c);
        let cyc = visited.contains(c);
        if ty == "event"@ {
            let g: Trace = if cyc || depth >= max {
                (seq![], visited, total)
            } else {
                lemma_shape_event(edges, nodes, c, depth + 1, max, visited.push(c), sat_inc(total));
                trace_event_spec(edges, nodes, c, depth + 1, max, visited.push(c), sat_inc(total))
            };
            let node = ChainView {
                edge_kind: edge_kind_label(edge.kind),
                node_type: "event"@,
                name: info_name(nodes, c),
                object: info_object(nodes, c),
                depth,
                cycle: cyc,
                children: g.0,
            };
            lemma_shape_single(node, depth, max);
            lemma_shape_callees(edges, nodes, list.drop_first(), depth, max, g.1, g.2);
            lemma_shape_concat(
                seq![node],
                trace_callees(edges, nodes, list.drop_first(), depth, max, g.1, g.2).0,
                depth,
                max,
            );
        } else if ty == "procedure"@ {
            let g: Trace = if cyc || depth >= max {
                (seq![], visited, total)
            } else {
                lemma_shape_subscriber(
                    edges,
                    nodes,
                    c,
                    depth + 1,
                    max,
                    visited.push(c),
                    sat_inc(total),
                );
                trace_subscriber_spec(
                    edges,
                    nodes,
                    c,
                    depth + 1,
                    max,
                    visited.push(c),
                    sat_inc(total),
                )
            };
            let node = ChainView {
                edge_kind: edge_kind_label(edge.kind),
                node_type: "procedure"@,
                name: info_name(nodes, c),
                object: info_object(nodes, c),
                depth,
                cycle: cyc,
                children: g.0,
            };
            let head: Seq<ChainView> = if g.0.len() > 0 {
                seq![node]
            } else {
                seq![]
            };
            if g.0.len() > 0 {
                lemma_shape_single(node, depth, max);
            }
            lemma_shape_callees(edges, nodes, list.drop_first(), depth, max, g.1, g.2);
            lemma_shape_concat(
                head,
                trace_callees(edges, nodes, list.drop_first(), depth, max, g.1, g.2).0,
                depth,
                max,
            );
        } else {
            lemma_shape_callees(edges, nodes, list.drop_first(), depth, max, visited, total);
        }
    }
}

proof fn lemma_shape_roots(
    edges: Seq<CallEdge>,
    nodes: Map<NodeId, NodeInfo>,
    roots: Seq<(NodeId, Seq<char>)>,
    event_name: Seq<char>,
    max: int,
    visited: Seq<NodeId>,
    total: int,
)
    requires
        max >= 0,
    ensures
        chain_shape(trace_roots(edges, nodes, roots, event_name, max, visited, total).0, 0, max),
    decreases roots.len(),
{
    if roots.len() > 0 {
        let id = roots[0].0;
        let v1 = if visited.contains(id) {
            visited
        } else {
            visited.push(id)
        };
        let kids = trace_event_spec(edges, nodes, id, 1, max, v1, total);
        lemma_shape_event(edges, nodes, id, 1, max, v1, total);
        let node = ChainView {
            edge_kind: "origin"@,
            node_type: "event"@,
            name: if nodes.dom().contains(id) {
                nodes[id].name@
            } else {
                event_name
            },
            object: roots[0].1,
            depth: 0,
            cycle: false,
            children: kids.0,
        };
        lemma_shape_single(node, 0, max);
        lemma_shape_roots(edges, nodes, roots.drop_first(), event_name, max, kids.1, sat_inc(kids.2));
        lemma_shape_concat(
            seq![node],
            trace_roots(edges, nodes, roots.drop_first(), event_name, max, kids.1, sat_inc(kids.2)).0,
            0,
            max,
        );
    }
}

/// Event nodes with their publisher objects, as plain values.
pub open spec fn roots_view(r: Seq<(NodeId, String)>) -> Seq<(NodeId, Seq<char>)> {
    r.map_values(|p: (NodeId, String)| (p.0, p.1@))
}

/// One tree per root event, in order: the root (named as the graph records
/// it, else by `event_name`) is marked visited, its subscribers are
/// expanded from depth 1, and it is counted after them.
pub open spec fn trace_roots(
    edges: Seq<CallEdge>,
    nodes: Map<NodeId, NodeInfo>,
    roots: Seq<(NodeId, Seq<char>)>,
    event_name: Seq<char>,
    max: int,
    visited: Seq<NodeId>,
    total: int,
) -> Trace
    decreases roots.len(),
{
    if roots.len() == 0 {
        (seq![], visited, total)
    } else {
        let id = roots[0].0;
        let v1 = if visited.contains(id) {
            visited
        } else {
            visited.push(id)
        };
        let kids = trace_event_spec(edges, nodes, id, 1, max, v1, total);
        let node = ChainView {
            edge_kind: "origin"@,
            node_type: "event"@,
            name: if nodes.dom().contains(id) {
                nodes[id].name@
            } else {
                event_name
            },
            object: roots[0].1,
            depth: 0,
            cycle: false,
            children: kids.0,
        };
        prepend(
            seq![node],
            trace_roots(edges, nodes, roots.drop_first(), event_name, max, kids.1, sat_inc(kids.2)),
        )
    }
}

/// Trace the propagation of an event through the call graph, from each of
/// `roots` (the event nodes named `event_name`, each with its publisher
/// object): subscribers, the events and procedures they call, and so on,
/// down to `max_depth`, visiting each node once and at most about
/// [`MAX_CHAIN_NODES`] nodes.
pub fn trace_event_chain(
    call_graph: &CallGraph,
    roots: Vec<(NodeId, String)>,
    event_name: &str,
    max_depth: usize,
) -> (r: EventChain)
    requires
        call_graph.wf(),
    ensures
        r.event_name@ == event_name@,
        r.publisher_object@ == (if roots@.len() > 0 {
            roots@[0].1@
        } else {
            seq![]
        }),
        chains_view(r.chains@) == trace_roots(
            call_graph.edges(),
            call_graph.node_map(),
            roots_view(roots@),
            event_name@,
            max_depth as int,
            seq![],
            0,
        ).0,
        r.nodes_visited as int == trace_roots(
            call_graph.edges(),
            call_graph.node_map(),
            roots_view(roots@),
            event_name@,
            max_depth as int,
            seq![],
            0,
        ).2,
        chain_shape(chains_view(r.chains@), 0, max_depth as int),
{
    proof {
        lemma_shape_roots(
            call_graph.edges(),
            call_graph.node_map(),
            roots_view(roots@),
            event_name@,
            max_depth as int,
            seq![],
            0,
        );
    }
    let ghost edges = call_graph.edges();
    let ghost nodes = call_graph.node_map();
    let ghost rv = roots_view(roots@);
    let publisher_object = if roots.len() > 0 {
        roots[0].1.clone()
    } else {
        String::new()
    };
    let mut visited: Vec<NodeId> = Vec::new();
    let mut total: usize = 0;
    let mut chains: Vec<ChainNode> = Vec::new();
    let mut i: usize = 0;
    assert(rv.skip(0) =~= rv);
    assert(chains_view(chains@) =~= Seq::<ChainView>::empty());
    assert(visited@ =~= Seq::<NodeId>::empty());
    while i < roots.len()
        invariant
            call_graph.wf(),
            edges == call_graph.edges(),
            nodes == call_graph.node_map(),
            rv == roots_view(roots@),
            i <= roots@.len(),
            trace_roots(edges, nodes, rv, event_name@, max_depth as int, seq![], 0) == prepend(
                chains_view(chains@),
                trace_roots(
                    edges,
                    nodes,
                    rv.skip(i as int),
                    event_name@,
                    max_depth as int,
                    visited@,
                    total as int,
                ),
            ),
        decreases roots@.len() - i,
    {
        let event_id = roots[i].0;
        let ghost rest = rv.skip(i as int);
        proof {
            assert(rest[0] == (event_id, roots@[i as int].1@));
            assert(rest.drop_first() =~= rv.skip(i + 1));
        }
        if !contains_node(&visited, event_id) {
            visited.push(event_id);
        }
        let name = match call_graph.node_info(event_id) {
            Some(info) => info.name.clone(),
            None => string_from(event_name),
        };
        let children = recurse_event(call_graph, event_id, 1, max_depth, &mut visited, &mut total);
        let node = ChainNode {
            edge_kind: string_from("origin"),
            node_type: string_from("event"),
            name,
            object: roots[i].1.clone(),
            depth: 0,
            cycle: false,
            children,
        };
        bump(&mut total);
        proof {
            lemma_chains_push(chains@, node);
        }
        let ghost before = chains_view(chains@);
        chains.push(node);
        proof {
            let tail = trace_roots(
                edges,
                nodes,
                rv.skip(i + 1),
                event_name@,
                max_depth as int,
                visited@,
                total as int,
            );
            assert(before + (seq![chain_view(node)] + tail.0) =~= chains_view(chains@) + tail.0);
        }
        i = i + 1;
    }
    proof {
        assert(rv.skip(roots@.len() as int) =~= Seq::<(NodeId, Seq<char>)>::empty());
        assert(chains_view(chains@) + Seq::<ChainView>::empty() =~= chains_view(chains@));
    }
    EventChain {
        event_name: string_from(event_name),
        publisher_object,
        chains,
        nodes_visited: total,
    }
}

// ---------------------------------------------------------------------------
// Graph export and entry points
// ---------------------------------------------------------------------------

/// A node of the insight graph as the exports read it.
#[derive(Debug, Clone)]
pub enum GraphNode {
    Object { kind: String, name: String },
    Procedure { object_name: String, name: String },
    Event { object_name: String, name: String },
    Subscriber { object_name: String, name: String },
}

/// An edge of the insight graph: the indices of its ends, its label, and
/// whether it is a containment edge (object to member).
#[derive(Debug, Clone)]
pub struct GraphEdge {
    pub source: usize,
    pub target: usize,
    pub label: String,
    pub contains: bool,
}

/// The DOT label of a node: `kind\nname` for an object (a backslash and an
/// `n`), `object.name` for a procedure, `object::name` for an event or a
/// subscriber.
pub open spec fn dot_label(n: GraphNode) -> Seq<char> {
    match n {
        GraphNode::Object { kind, name } => kind@ + "\\n"@ + name@,
        GraphNode::Procedure { object_name, name } => object_name@ + "."@ + name@,
        GraphNode::Event { object_name, name } => object_name@ + "::"@ + name@,
        GraphNode::Subscriber { object_name, name } => object_name@ + "::"@ + name@,
    }
}

/// The DOT shape of a node.
pub open spec fn dot_shape(n: GraphNode) -> Seq<char> {
    match n {
        GraphNode::Object { .. } => "box"@,
        GraphNode::Procedure { .. } => "ellipse"@,
        GraphNode::Event { .. } => "diamond"@,
        GraphNode::Subscriber { .. } => "hexagon"@,
    }
}

/// `s` with every double quote preceded by a backslash.
pub open spec fn escape_quotes(s: Seq<char>) -> Seq<char>
    decreases s.len(),
{
    if s.len() == 0 {
        seq![]
    } else if s.last() == '"' {
        escape_quotes(s.drop_last()) + seq!['\\', '"']
    } else {
        escape_quotes(s.drop_last()).push(s.last())
    }
}

/// The DOT line of node `i`.
pub open spec fn node_line(i: nat, n: GraphNode) -> Seq<char> {
    "    n"@ + digits(i) + " [label=\""@ + escape_quotes(dot_label(n)) + "\", shape="@ + dot_shape(n)
        + "];\n"@
}

/// The DOT line of an edge.
pub open spec fn edge_line(e: GraphEdge) -> Seq<char> {
    "    n"@ + digits(e.source as nat) + " -> n"@ + digits(e.target as nat) + " [label=\""@ + e.label@
        + "\"];\n"@
}

/// The lines of the first `k` nodes.
pub open spec fn node_lines(nodes: Seq<GraphNode>, k: int) -> Seq<char>
    decreases k,
{
    if k <= 0 || k > nodes.len() {
        seq![]
    } else {
        node_lines(nodes, k - 1) + node_line((k - 1) as nat, nodes[k - 1])
    }
}

/// The lines of the first `k` edges.
pub open spec fn edge_lines(edges: Seq<GraphEdge>, k: int) -> Seq<char>
    decreases k,
{
    if k <= 0 || k > edges.len() {
        seq![]
    } else {
        edge_lines(edges, k - 1) + edge_line(edges[k - 1])
    }
}

/// The DOT text of a graph: the header, one line per node (numbered by its
/// index), a blank line, one line per edge, and the closing brace.
pub open spec fn dot_text(nodes: Seq<GraphNode>, edges: Seq<GraphEdge>) -> Seq<char> {
    "digraph insight {\n"@ + "    rankdir=LR;\n"@ + "    node [shape=box];\n\n"@ + node_lines(
        nodes,
        nodes.len() as int,
    ) + "\n"@ + edge_lines(edges, edges.len() as int) + "}\n"@
}

fn push_escaped(s: &mut String, t: &str)
    ensures
        final(s)@ == old(s)@ + escape_quotes(t@),
{
    let v = chars_of(t);
    let ghost s0 = s@;
    let mut i: usize = 0;
    assert(v@.take(0) =~= Seq::<char>::empty());
    while i < v.len()
        invariant
            i <= v@.len(),
            v@ == t@,
            s@ == s0 + escape_quotes(v@.take(i as int)),
        decreases v@.len() - i,
    {
        let c = v[i];
        if c == '"' {
            s.push('\\');
            s.push('"');
        } else {
            s.push(c);
        }
        proof {
            let t1 = v@.take(i + 1);
            assert(t1.drop_last() =~= v@.take(i as int));
            assert(t1.last() == c);
            assert(s@ =~= s0 + escape_quotes(t1));
        }
        i = i + 1;
    }
    assert(v@.take(v@.len() as int) =~= v@);
}

fn push_node_line(s: &mut String, i: usize, n: &GraphNode)
    ensures
        final(s)@ == old(s)@ + node_line(i as nat, *n),
{
    let ghost s0 = s@;
    push_str(s, "    n");
    push_decimal(s, i as u64);
    push_str(s, " [label=\"");
    let mut label = String::new();
    let shape: &str = match n {
        GraphNode::Object { kind, name } => {
            push_str(&mut label, kind.as_str());
            push_str(&mut label, "\\n");
            push_str(&mut label, name.as_str());
            "box"
        },
        GraphNode::Procedure { object_name, name } => {
            push_str(&mut label, object_name.as_str());
            push_str(&mut label, ".");
            push_str(&mut label, name.as_str());
            "ellipse"
        },
        GraphNode::Event { object_name, name } => {
            push_str(&mut label, object_name.as_str());
            push_str(&mut label, "::");
            push_str(&mut label, name.as_str());
            "diamond"
        },
        GraphNode::Subscriber { object_name, name } => {
            push_str(&mut label, object_name.as_str());
            push_str(&mut label, "::");
            push_str(&mut label, name.as_str());
            "hexagon"
        },
    };
    assert(label@ =~= dot_label(*n));
    assert(shape@ == dot_shape(*n));
    push_escaped(s, label.as_str());
    push_str(s, "\", shape=");
    push_str(s, shape);
    push_str(s, "];\n");
    assert(s@ =~= s0 + node_line(i as nat, *n));
}

/// The graph in DOT form, for Graphviz (see [`dot_text`]).
pub fn export_dot(nodes: &Vec<GraphNode>, edges: &Vec<GraphEdge>) -> (r: String)
    ensures
        r@ == dot_text(nodes@, edges@),
{
    let mut dot = String::new();
    push_str(&mut dot, "digraph insight {\n");
    push_str(&mut dot, "    rankdir=LR;\n");
    push_str(&mut dot, "    node [shape=box];\n\n");
    let ghost head = dot@;
    let mut i: usize = 0;
    while i < nodes.len()
        invariant
            i <= nodes@.len(),
            dot@ == head + node_lines(nodes@, i as int),
        decreases nodes@.len() - i,
    {
        push_node_line(&mut dot, i, &nodes[i]);
        assert(dot@ =~= head + node_lines(nodes@, i + 1));
        i = i + 1;
    }
    push_str(&mut dot, "\n");
    let ghost mid = dot@;
    let mut j: usize = 0;
    while j < edges.len()
        invariant
            j <= edges@.len(),
            dot@ == mid + edge_lines(edges@, j as int),
        decreases edges@.len() - j,
    {
        let e = &edges[j];
        let ghost d0 = dot@;
        push_str(&mut dot, "    n");
        push_decimal(&mut dot, e.source as u64);
        push_str(&mut dot, " -> n");
        push_decimal(&mut dot, e.target as u64);
        push_str(&mut dot, " [label=\"");
        push_str(&mut dot, e.label.as_str());
        push_str(&mut dot, "\"];\n");
        assert(dot@ =~= d0 + edge_line(*e));
        assert(dot@ =~= mid + edge_lines(edges@, j + 1));
        j = j + 1;
    }
    push_str(&mut dot, "}\n");
    assert(dot@ =~= dot_text(nodes@, edges@));
    dot
}

/// Node `i` is an entry point: a procedure whose incoming edges are all
/// containment edges (nothing calls it or subscribes it).
pub open spec fn is_entry_point(nodes: Seq<GraphNode>, edges: Seq<GraphEdge>, i: int) -> bool {
    &&& nodes[i] is Procedure
    &&& forall|k: int| 0 <= k < edges.len() && (#[trigger] edges[k]).target == i ==> edges[k].contains
}

/// The indices of the entry points, in node order.
pub fn find_entry_points(nodes: &Vec<GraphNode>, edges: &Vec<GraphEdge>) -> (r: Vec<usize>)
    ensures
        forall|x: int| 0 <= x < r@.len() ==> (#[trigger] r@[x]) < nodes@.len() && is_entry_point(nodes@, edges@, r@[x] as int),
        forall|x: int, y: int| 0 <= x < y < r@.len() ==> #[trigger] r@[x] < #[trigger] r@[y],
        forall|i: int| 0 <= i < nodes@.len() && is_entry_point(nodes@, edges@, i) ==> r@.contains(i as usize),
{
    let mut out: Vec<usize> = Vec::new();
    let mut i: usize = 0;
    while i < nodes.len()
        invariant
            i <= nodes@.len(),
            forall|x: int| 0 <= x < out@.len() ==> (#[trigger] out@[x]) < i && is_entry_point(nodes@, edges@, out@[x] as int),
            forall|x: int, y: int| 0 <= x < y < out@.len() ==> #[trigger] out@[x] < #[trigger] out@[y],
            forall|t: int| 0 <= t < i && is_entry_point(nodes@, edges@, t) ==> out@.contains(t as usize),
        decreases nodes@.len() - i,
    {
        let is_proc = match &nodes[i] {
            GraphNode::Procedure { .. } => true,
            _ => false,
        };
        if is_proc {
            let mut only_contains = true;
            let mut k: usize = 0;
            while k < edges.len()
                invariant
                    k <= edges@.len(),
                    only_contains == forall|t: int| 0 <= t < k && (#[trigger] edges@[t]).target == i ==> edges@[t].contains,
                decreases edges@.len() - k,
            {
                if edges[k].target == i && !edges[k].contains {
                    only_contains = false;
                }
                k = k + 1;
            }
            if only_contains {
                let ghost o0 = out@;
                out.push(i);
                proof {
                    assert forall|t: int| 0 <= t < i + 1 && is_entry_point(nodes@, edges@, t) implies out@.contains(t as usize) by {
                        if t < i {
                            let x = choose|x: int| 0 <= x < o0.len() && o0[x] == t as usize;
                            assert(out@[x] == o0[x]);
                        } else {
                            assert(out@[o0.len() as int] == i);
                        }
                    }
                }
            }
        }
        i = i + 1;
    }
    out
}

// ---------------------------------------------------------------------------
// Root events by name
// ---------------------------------------------------------------------------

/// One event node of the insight graph's key index: the (lowercased) event
/// name of its key, the node, and the object that publishes it.
#[derive(Debug, Clone)]
pub struct EventIndexEntry {
    pub name: String,
    pub node: NodeId,
    pub object_name: String,
}

/// The roots for `event_lower`: every indexed event node whose key name is
/// `event_lower`, in index order, with its publisher object.
pub open spec fn event_roots_of(index: Seq<EventIndexEntry>, event_lower: Seq<char>) -> Seq<(NodeId, Seq<char>)>
    decreases index.len(),
{
    if index.len() == 0 {
        seq![]
    } else {
        let prev = event_roots_of(index.drop_last(), event_lower);
        let e = index.last();
        if e.name@ == event_lower {
            prev.push((e.node, e.object_name@))
        } else {
            prev
        }
    }
}

/// The event nodes an event chain starts from: those whose key name equals
/// `event_name` lowercased (see [`event_roots_of`]).
pub fn event_roots(index: &Vec<EventIndexEntry>, event_name: &str) -> (r: Vec<(NodeId, String)>)
    ensures
        roots_view(r@) == event_roots_of(index@, lowercase(event_name@)),
{
    let lower = chars_of(to_lower(event_name).as_str());
    let mut out: Vec<(NodeId, String)> = Vec::new();
    let mut i: usize = 0;
    assert(index@.take(0) =~= Seq::<EventIndexEntry>::empty());
    assert(roots_view(out@) =~= Seq::<(NodeId, Seq<char>)>::empty());
    while i < index.len()
        invariant
            i <= index@.len(),
            lower@ == lowercase(event_name@),
            roots_view(out@) == event_roots_of(index@.take(i as int), lower@),
        decreases index@.len() - i,
    {
        let e = &index[i];
        assert(index@.take(i + 1).drop_last() =~= index@.take(i as int));
        if vec_eq(&chars_of(e.name.as_str()), &lower) {
            let ghost o0 = roots_view(out@);
            out.push((e.node, e.object_name.clone()));
            assert(roots_view(out@) =~= o0.push((e.node, e.object_name@)));
        }
        i = i + 1;
    }
    assert(index@.take(index@.len() as int) =~= index@);
    out
}

/// Traces the event chain of `event_name` from the event nodes the index
/// holds under that name (see [`event_roots`] and [`trace_event_chain`]).
pub fn trace_event_chain_by_name(
    call_graph: &CallGraph,
    index: &Vec<EventIndexEntry>,
    event_name: &str,
    max_depth: usize,
) -> (r: EventChain)
    requires
        call_graph.wf(),
    ensures
        ({
            let roots = event_roots_of(index@, lowercase(event_name@));
            &&& r.event_name@ == event_name@
            &&& r.publisher_object@ == (if roots.len() > 0 {
                roots[0].1
            } else {
                seq![]
            })
            &&& chains_view(r.chains@) == trace_roots(
                call_graph.edges(),
                call_graph.node_map(),
                roots,
                event_name@,
                max_depth as int,
                seq![],
                0,
            ).0
            &&& r.nodes_visited as int == trace_roots(
                call_graph.edges(),
                call_graph.node_map(),
                roots,
                event_name@,
                max_depth as int,
                seq![],
                0,
            ).2
            &&& chain_shape(chains_view(r.chains@), 0, max_depth as int)
        }),
{
    let roots = event_roots(index, event_name);
    trace_event_chain(call_graph, roots, event_name, max_depth)
}

} // verus!
