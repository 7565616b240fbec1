//! Dependency graph with transitive resolution, built from an `app.json`
//! text and the manifests of the loaded packages.  Includes DOT export,
//! transitive dependencies, and version conflict detection.

use vstd::prelude::*;

use crate::text::{
    push_str, chars_of, find, find_char_in, first_at, index_of_char, lower_vec, lowercase, string_of,
    strs, vec_eq,
};

verus! {

// ---------------------------------------------------------------------------
// Reading fields out of JSON text
// ---------------------------------------------------------------------------

/// Number of leading `' '` or `':'` characters of `s`.
pub open spec fn lead_sep(s: Seq<char>) -> nat
    decreases s.len(),
{
    if s.len() > 0 && (s[0] == ' ' || s[0] == ':') {
        1 + lead_sep(s.drop_first())
    } else {
        0
    }
}

/// The quoted key `"key"` as it appears in JSON text.
pub open spec fn quoted(key: Seq<char>) -> Seq<char> {
    seq!['"'] + key + seq!['"']
}

/// The string value that follows the first `"key"` in `json`: after the key
/// come any spaces and colons, then a double quote; the value runs to the
/// next double quote.  `None` when the key is absent or the shape differs.
pub open spec fn json_field(json: Seq<char>, key: Seq<char>) -> Option<Seq<char>> {
    let pat = quoted(key);
    if exists|i: int| first_at(json, pat, i) {
        let i = choose|i: int| first_at(json, pat, i);
        let rest = json.skip(i + pat.len());
        let after = rest.skip(lead_sep(rest) as int);
        if after.len() > 0 && after[0] == '"' {
            let inner = after.skip(1);
            let e = index_of_char(inner, '"');
            if e < inner.len() {
                Some(inner.take(e as int))
            } else {
                None
            }
        } else {
            None
        }
    } else {
        None
    }
}

proof fn lemma_first_at_unique(s: Seq<char>, p: Seq<char>, i: int, j: int)
    requires
        first_at(s, p, i),
        first_at(s, p, j),
    ensures
        i == j,
{
}

proof fn lemma_lead_sep(s: Seq<char>, n: int)
    requires
        0 <= n <= s.len(),
        forall|j: int| 0 <= j < n ==> (s[j] == ' ' || s[j] == ':'),
        n == s.len() || !(s[n] == ' ' || s[n] == ':'),
    ensures
        lead_sep(s) == n,
    decreases n,
{
    if n > 0 {
        let t = s.drop_first();
        assert forall|j: int| 0 <= j < n - 1 implies (t[j] == ' ' || t[j] == ':') by {
            assert(t[j] == s[j + 1]);
        }
        if n - 1 < t.len() {
            assert(t[n - 1] == s[n]);
        }
        lemma_lead_sep(t, n - 1);
    }
}

/// The quoted form of `key`.
fn quoted_vec(key: &Vec<char>) -> (r: Vec<char>)
    ensures
        r@ == quoted(key@),
{
    let mut r: Vec<char> = Vec::new();
    r.push('"');
    let mut i: usize = 0;
    while i < key.len()
        invariant
            i <= key@.len(),
            r@ == seq!['"'] + key@.take(i as int),
        decreases key@.len() - i,
    {
        r.push(key[i]);
        i = i + 1;
        assert(r@ =~= seq!['"'] + key@.take(i as int));
    }
    r.push('"');
    assert(key@.take(key@.len() as int) =~= key@);
    assert(r@ =~= quoted(key@));
    r
}

/// The string value of the first `"key"` in `json` (see [`json_field`]).
fn extract_json_string(json: &Vec<char>, key: &Vec<char>) -> (r: Option<Vec<char>>)
    ensures
        r matches Some(v) ==> json_field(json@, key@) == Some(v@),
        r is None ==> json_field(json@, key@) is None,
{
    let pat = quoted_vec(key);
    let pos = match find(json, &pat) {
        Some(p) => p,
        None => {
            return None;
        },
    };
    proof {
        let i = choose|i: int| first_at(json@, pat@, i);
        lemma_first_at_unique(json@, pat@, i, pos as int);
    }
    assert(crate::text::occurs_at(json@, pat@, pos as int));
    let jl = json.len();
    assert(pos + pat@.len() <= jl);
    let start = pos + pat.len();
    let ghost rest = json@.skip(start as int);
    let mut k = start;
    while k < json.len() && (json[k] == ' ' || json[k] == ':')
        invariant
            start <= k <= json@.len(),
            rest == json@.skip(start as int),
            forall|j: int| start <= j < k ==> (json@[j] == ' ' || json@[j] == ':'),
        decreases json@.len() - k,
    {
        k = k + 1;
    }
    proof {
        assert forall|j: int| 0 <= j < k - start implies (rest[j] == ' ' || rest[j] == ':') by {
            assert(rest[j] == json@[start + j]);
        }
        if k < json.len() {
            assert(rest[k - start] == json@[k as int]);
        }
        lemma_lead_sep(rest, k - start);
        assert(rest.skip(lead_sep(rest) as int) =~= json@.skip(k as int));
    }
    if k >= json.len() || json[k] != '"' {
        return None;
    }
    let vstart = k + 1;
    let e = find_char_in(json, '"', vstart, json.len());
    proof {
        assert(json@.skip(k as int).skip(1) =~= json@.subrange(vstart as int, json@.len() as int));
    }
    if e == json.len() {
        return None;
    }
    let v = crate::text::copy_range(json, vstart, e);
    proof {
        assert(json@.subrange(vstart as int, json@.len() as int).take(e - vstart) =~= v@);
    }
    Some(v)
}

/// One dependency entry of `app.json`: name, publisher, version.
pub type DepTriple = (String, String, String);

/// The value of `json_field`, or `dflt` when there is none.
pub open spec fn field_or(json: Seq<char>, key: Seq<char>, dflt: Seq<char>) -> Seq<char> {
    match json_field(json, key) {
        Some(v) => v,
        None => dflt,
    }
}

/// What the scan of the dependency array has seen after `n` characters:
/// brace depth, start of the open top-level object, and the entries read.
pub open spec fn scan_deps(arr: Seq<char>, n: nat) -> (int, Option<int>, Seq<
    (Seq<char>, Seq<char>, Seq<char>),
>)
    decreases n,
{
    if n == 0 {
        (0, None, Seq::empty())
    } else {
        let (d, st, acc) = scan_deps(arr, (n - 1) as nat);
        let i = n - 1;
        let ch = arr[i];
        if ch == '{' {
            (d + 1, if d + 1 == 1 {
                Some(i)
            } else {
                st
            }, acc)
        } else if ch == '}' {
            if d - 1 == 0 {
                match st {
                    Some(s) => {
                        let obj = arr.subrange(s, i + 1);
                        let name = field_or(obj, "name"@, Seq::empty());
                        let publisher = field_or(obj, "publisher"@, Seq::empty());
                        let version = field_or(obj, "version"@, Seq::empty());
                        (d - 1, None, if name.len() > 0 {
                            acc.push((name, publisher, version))
                        } else {
                            acc
                        })
                    },
                    None => (d - 1, None, acc),
                }
            } else {
                (d - 1, st, acc)
            }
        } else {
            (d, st, acc)
        }
    }
}

/// The dependencies listed in `app.json`: the objects at the top level of
/// the first array after the first `"dependencies"` key, each read for its
/// name, publisher and version; objects without a name are skipped.
pub open spec fn deps_of(json: Seq<char>) -> Seq<(Seq<char>, Seq<char>, Seq<char>)> {
    let pat = "\"dependencies\""@;
    if exists|i: int| first_at(json, pat, i) {
        let i = choose|i: int| first_at(json, pat, i);
        let after = json.skip(i);
        let q = index_of_char(after, '[');
        if q < after.len() {
            let arr = after.skip(q as int);
            scan_deps(arr, arr.len()).2
        } else {
            Seq::empty()
        }
    } else {
        Seq::empty()
    }
}

/// `json_field`, or the empty string, as a character vector.
fn field_or_empty(json: &Vec<char>, key: &str) -> (r: Vec<char>)
    ensures
        r@ == field_or(json@, key@, Seq::empty()),
{
    let k = chars_of(key);
    match extract_json_string(json, &k) {
        Some(v) => v,
        None => Vec::new(),
    }
}

/// The view of a dependency triple.
pub open spec fn triple_view(t: DepTriple) -> (Seq<char>, Seq<char>, Seq<char>) {
    (t.0@, t.1@, t.2@)
}

/// The dependencies listed in `app.json` (see [`deps_of`]).
fn parse_deps_from_app_json(app_json: &Vec<char>) -> (r: Vec<DepTriple>)
    requires
        app_json@.len() <= i64::MAX,
    ensures
        r@.map_values(|t: DepTriple| triple_view(t)) == deps_of(app_json@),
{
    let mut deps: Vec<DepTriple> = Vec::new();
    let pat = chars_of("\"dependencies\"");
    let p = match find(app_json, &pat) {
        Some(p) => p,
        None => {
            assert(deps@.map_values(|t: DepTriple| triple_view(t)) =~= deps_of(app_json@));
            return deps;
        },
    };
    proof {
        let i = choose|i: int| first_at(app_json@, pat@, i);
        lemma_first_at_unique(app_json@, pat@, i, p as int);
    }
    let ghost after = app_json@.skip(p as int);
    let q = find_char_in(app_json, '[', p, app_json.len());
    proof {
        assert(after =~= app_json@.subrange(p as int, app_json@.len() as int));
    }
    if q == app_json.len() {
        assert(deps@.map_values(|t: DepTriple| triple_view(t)) =~= deps_of(app_json@));
        return deps;
    }
    let ghost arr = app_json@.skip(q as int);
    assert(after.skip(q - p) =~= arr);
    let mut depth: i64 = 0;
    let mut obj_start: Option<usize> = None;
    let mut i = q;
    while i < app_json.len()
        invariant
            q <= i <= app_json@.len(),
            app_json@.len() <= i64::MAX,
            arr == app_json@.skip(q as int),
            -((i - q) as int) <= depth <= (i - q) as int,
            ({
                let (d, st, acc) = scan_deps(arr, (i - q) as nat);
                &&& d == depth
                &&& (match obj_start {
                    Some(s) => st == Some((s - q) as int) && q <= s < i,
                    None => st is None,
                })
                &&& deps@.map_values(|t: DepTriple| triple_view(t)) == acc
            }),
        decreases app_json@.len() - i,
    {
        let ch = app_json[i];
        let ghost n = (i - q) as nat;
        assert(arr[n as int] == ch);
        if ch == '{' {
            depth = depth + 1;
            if depth == 1 {
                obj_start = Some(i);
            }
        } else if ch == '}' {
            depth = depth - 1;
            if depth == 0 {
                if let Some(start) = obj_start {
                    let obj = crate::text::copy_range(app_json, start, i + 1);
                    assert(obj@ =~= arr.subrange((start - q) as int, n as int + 1));
                    let name = field_or_empty(&obj, "name");
                    let publisher = field_or_empty(&obj, "publisher");
                    let version = field_or_empty(&obj, "version");
                    if name.len() > 0 {
                        let ghost before = deps@;
                        deps.push((string_of(&name), string_of(&publisher), string_of(&version)));
                        assert(deps@.map_values(|t: DepTriple| triple_view(t)) =~= before.map_values(
                            |t: DepTriple| triple_view(t),
                        ).push((name@, publisher@, version@)));
                    }
                    obj_start = None;
                }
            }
        }
        i = i + 1;
    }
    assert(arr.len() == (i - q) as nat);
    deps
}


// ---------------------------------------------------------------------------
// The graph
// ---------------------------------------------------------------------------

/// A package (or the root app) of the dependency graph.
#[derive(Debug, Clone)]
pub struct DepNode {
    pub app_id: String,
    pub name: String,
    pub publisher: String,
    pub version: String,
}

/// "`from` depends on `to` at `required_version`", by display names.
#[derive(Debug, Clone)]
pub struct DepEdge {
    pub from: String,
    pub to: String,
    pub required_version: String,
}

/// A package required at more than one version.
#[derive(Debug, Clone)]
pub struct VersionConflict {
    pub name: String,
    pub versions: Vec<String>,
    pub required_by: Vec<String>,
}

/// The full dependency picture of a workspace app.
#[derive(Debug, Clone)]
pub struct DependencyGraph {
    pub root_app: DepNode,
    pub nodes: Vec<DepNode>,
    pub edges: Vec<DepEdge>,
    pub transitive: Vec<DepNode>,
    pub conflicts: Vec<VersionConflict>,
    pub missing: Vec<String>,
}

/// A loaded package: name, publisher, version, and its own dependencies as
/// (name, publisher, required version).
pub type PackageEntry = (String, String, String, Vec<DepTriple>);

/// A node as plain text: app id, name, publisher, version.
pub type NodeV = (Seq<char>, Seq<char>, Seq<char>, Seq<char>);

/// An edge as plain text: from, to, required version.
pub type EdgeV = (Seq<char>, Seq<char>, Seq<char>);

pub open spec fn node_view(n: DepNode) -> NodeV {
    (n.app_id@, n.name@, n.publisher@, n.version@)
}

pub open spec fn edge_view(e: DepEdge) -> EdgeV {
    (e.from@, e.to@, e.required_version@)
}

pub open spec fn nodes_view(v: Seq<DepNode>) -> Seq<NodeV> {
    v.map_values(|n: DepNode| node_view(n))
}

pub open spec fn edges_view(v: Seq<DepEdge>) -> Seq<EdgeV> {
    v.map_values(|e: DepEdge| edge_view(e))
}

/// The key under which a package is recorded:
/// `lowercase(name)|lowercase(publisher)|version`.
pub open spec fn node_key(name: Seq<char>, publisher: Seq<char>, version: Seq<char>) -> Seq<char> {
    lowercase(name) + seq!['|'] + lowercase(publisher) + seq!['|'] + version
}

/// The part of a key before its first `|`.
pub open spec fn key_name(k: Seq<char>) -> Seq<char> {
    k.take(index_of_char(k, '|') as int)
}

/// Some entry of `es` has key `k`.
pub open spec fn entry_has_key(es: Seq<(Seq<char>, NodeV)>, k: Seq<char>) -> bool {
    exists|i: int| 0 <= i < es.len() && #[trigger] es[i].0 == k
}

/// The node table: one entry per distinct key, the first package with that
/// key winning, in order of first appearance.
pub open spec fn node_entries(pk: Seq<PackageEntry>) -> Seq<(Seq<char>, NodeV)>
    decreases pk.len(),
{
    if pk.len() == 0 {
        Seq::empty()
    } else {
        let rest = node_entries(pk.drop_last());
        let p = pk.last();
        let k = node_key(p.0@, p.1@, p.2@);
        if entry_has_key(rest, k) {
            rest
        } else {
            rest.push((k, (Seq::empty(), p.0@, p.1@, p.2@)))
        }
    }
}

/// The edges contributed by the packages' own dependency lists, in order.
pub open spec fn pkg_edges(pk: Seq<PackageEntry>) -> Seq<EdgeV>
    decreases pk.len(),
{
    if pk.len() == 0 {
        Seq::empty()
    } else {
        let p = pk.last();
        pkg_edges(pk.drop_last()) + p.3@.map_values(|d: DepTriple| (p.0@, d.0@, d.2@))
    }
}

/// The edges from the root app to its declared dependencies.
pub open spec fn root_edges(root: Seq<char>, deps: Seq<(Seq<char>, Seq<char>, Seq<char>)>) -> Seq<EdgeV> {
    deps.map_values(|d: (Seq<char>, Seq<char>, Seq<char>)| (root, d.0, d.2))
}

/// `s` with later repetitions removed.
pub open spec fn dedup<A>(s: Seq<A>) -> Seq<A>
    decreases s.len(),
{
    if s.len() == 0 {
        Seq::empty()
    } else {
        let rest = dedup(s.drop_last());
        if rest.contains(s.last()) {
            rest
        } else {
            rest.push(s.last())
        }
    }
}

proof fn lemma_dedup<A>(s: Seq<A>)
    ensures
        dedup(s).no_duplicates(),
        forall|x: A| #[trigger] dedup(s).contains(x) <==> s.contains(x),
    decreases s.len(),
{
    broadcast use vstd::seq_lib::lemma_seq_contains_after_push;

    if s.len() > 0 {
        let l = s.drop_last();
        lemma_dedup(l);
        assert(s =~= l.push(s.last()));
        let r = dedup(l);
        if !r.contains(s.last()) {
            assert forall|a: int, b: int|
                0 <= a < r.push(s.last()).len() && 0 <= b < r.push(s.last()).len() && a != b implies r.push(
                s.last(),
            )[a] != r.push(s.last())[b] by {
                if a == r.len() {
                    assert(r.contains(r[b]));
                } else if b == r.len() {
                    assert(r.contains(r[a]));
                }
            }
        }
    }
}

/// The composite key of a package, as a character vector.
fn composite_key(name: &str, publisher: &str, version: &str) -> (r: Vec<char>)
    ensures
        r@ == node_key(name@, publisher@, version@),
{
    let mut r = chars_of(crate::text::to_lower(name).as_str());
    r.push('|');
    let p = chars_of(crate::text::to_lower(publisher).as_str());
    crate::text::extend_all(&mut r, &p);
    r.push('|');
    let v = chars_of(version);
    crate::text::extend_all(&mut r, &v);
    r
}

/// The part of `k` before its first `|`.
fn key_name_of(k: &Vec<char>) -> (r: Vec<char>)
    ensures
        r@ == key_name(k@),
{
    let e = find_char_in(k, '|', 0, k.len());
    assert(k@.subrange(0, k@.len() as int) =~= k@);
    let r = crate::text::copy_range(k, 0, e);
    assert(r@ =~= k@.take(e as int));
    r
}

pub open spec fn entries_view(es: Seq<(Vec<char>, DepNode)>) -> Seq<(Seq<char>, NodeV)> {
    es.map_values(|e: (Vec<char>, DepNode)| (e.0@, node_view(e.1)))
}

/// Index of the entry with key `k`, if any.
fn find_entry(es: &Vec<(Vec<char>, DepNode)>, k: &Vec<char>) -> (r: Option<usize>)
    ensures
        r matches Some(i) ==> i < es@.len() && es@[i as int].0@ == k@,
        r is None ==> !entry_has_key(entries_view(es@), k@),
{
    let mut i: usize = 0;
    while i < es.len()
        invariant
            i <= es@.len(),
            forall|j: int| 0 <= j < i ==> es@[j].0@ != k@,
        decreases es@.len() - i,
    {
        if vec_eq(&es[i].0, k) {
            return Some(i);
        }
        i = i + 1;
    }
    proof {
        if entry_has_key(entries_view(es@), k@) {
            let j = choose|j: int|
                0 <= j < entries_view(es@).len() && #[trigger] entries_view(es@)[j].0 == k@;
            assert(es@[j].0@ == k@);
        }
    }
    None
}

/// A field-by-field copy of a node.
fn copy_node(n: &DepNode) -> (r: DepNode)
    ensures
        node_view(r) == node_view(*n),
{
    DepNode {
        app_id: n.app_id.clone(),
        name: n.name.clone(),
        publisher: n.publisher.clone(),
        version: n.version.clone(),
    }
}

/// The node table of the loaded packages (see [`node_entries`]).
fn collect_nodes(packages: &[PackageEntry]) -> (r: Vec<(Vec<char>, DepNode)>)
    ensures
        entries_view(r@) == node_entries(packages@),
{
    let mut es: Vec<(Vec<char>, DepNode)> = Vec::new();
    let mut i: usize = 0;
    while i < packages.len()
        invariant
            i <= packages@.len(),
            entries_view(es@) == node_entries(packages@.take(i as int)),
        decreases packages@.len() - i,
    {
        let p = &packages[i];
        assert(packages@.take(i + 1).drop_last() =~= packages@.take(i as int));
        let k = composite_key(p.0.as_str(), p.1.as_str(), p.2.as_str());
        let found = find_entry(&es, &k);
        proof {
            assert(packages@.take(i + 1).last() == *p);
            if let Some(j) = found {
                assert(entries_view(es@)[j as int].0 == k@);
            }
        }
        if found.is_none() {
            let ghost before = es@;
            let node = DepNode {
                app_id: String::new(),
                name: p.0.clone(),
                publisher: p.1.clone(),
                version: p.2.clone(),
            };
            es.push((k, node));
            assert(entries_view(es@) =~= entries_view(before).push((k@, node_view(node))));
        }
        i = i + 1;
    }
    assert(packages@.take(packages@.len() as int) =~= packages@);
    es
}


// ---------------------------------------------------------------------------
// Transitive dependencies
// ---------------------------------------------------------------------------

/// `k2` is a loaded package reached from `k1` along one edge: an edge whose
/// source name is `k1`'s name and whose target, other than the root app,
/// has `k2`'s name (names compared in lowercase).
pub open spec fn succ(
    es: Seq<(Seq<char>, NodeV)>,
    edges: Seq<EdgeV>,
    root_lower: Seq<char>,
    k1: Seq<char>,
    k2: Seq<char>,
) -> bool {
    &&& entry_has_key(es, k2)
    &&& exists|j: int|
        0 <= j < edges.len() && #[trigger] lowercase(edges[j].0) == key_name(k1) && lowercase(
            edges[j].1,
        ) != root_lower && lowercase(edges[j].1) == key_name(k2)
}

/// `k` is a direct key or reached from one in at most `n` steps of [`succ`].
pub open spec fn reach_within(
    es: Seq<(Seq<char>, NodeV)>,
    edges: Seq<EdgeV>,
    root_lower: Seq<char>,
    direct: Seq<Seq<char>>,
    n: nat,
    k: Seq<char>,
) -> bool
    decreases n,
{
    if n == 0 {
        direct.contains(k)
    } else {
        reach_within(es, edges, root_lower, direct, (n - 1) as nat, k) || exists|k0: Seq<char>|
            reach_within(es, edges, root_lower, direct, (n - 1) as nat, k0) && #[trigger] succ(
                es,
                edges,
                root_lower,
                k0,
                k,
            )
    }
}

/// `k` is reachable from the direct keys.
pub open spec fn reachable(
    es: Seq<(Seq<char>, NodeV)>,
    edges: Seq<EdgeV>,
    root_lower: Seq<char>,
    direct: Seq<Seq<char>>,
    k: Seq<char>,
) -> bool {
    exists|n: nat| reach_within(es, edges, root_lower, direct, n, k)
}

/// The transitive dependencies: every loaded package reachable from the
/// direct keys that is not itself a direct key.
pub open spec fn is_transitive(
    es: Seq<(Seq<char>, NodeV)>,
    edges: Seq<EdgeV>,
    root_lower: Seq<char>,
    direct: Seq<Seq<char>>,
    x: NodeV,
) -> bool {
    exists|i: int|
        0 <= i < es.len() && #[trigger] es[i].1 == x && reachable(es, edges, root_lower, direct, es[i].0)
            && !direct.contains(es[i].0)
}

pub open spec fn keys_view(v: Seq<Vec<char>>) -> Seq<Seq<char>> {
    v.map_values(|k: Vec<char>| k@)
}

pub open spec fn unique_entry_keys(es: Seq<(Seq<char>, NodeV)>) -> bool {
    forall|a: int, b: int| 0 <= a < b < es.len() ==> #[trigger] es[a].0 != #[trigger] es[b].0
}

/// The index of the entry keyed `k`.
pub open spec fn entry_index(es: Seq<(Seq<char>, NodeV)>, k: Seq<char>) -> int {
    choose|i: int| 0 <= i < es.len() && #[trigger] es[i].0 == k
}

proof fn lemma_reach_mono(
    es: Seq<(Seq<char>, NodeV)>,
    edges: Seq<EdgeV>,
    root_lower: Seq<char>,
    direct: Seq<Seq<char>>,
    n: nat,
    m: nat,
    k: Seq<char>,
)
    requires
        n <= m,
        reach_within(es, edges, root_lower, direct, n, k),
    ensures
        reach_within(es, edges, root_lower, direct, m, k),
    decreases m - n,
{
    if n < m {
        lemma_reach_mono(es, edges, root_lower, direct, n, (m - 1) as nat, k);
    }
}

/// Fewer new keys than entries remain while some entry is not yet visited.
proof fn lemma_new_keys_bounded(es: Seq<(Seq<char>, NodeV)>, ov: Seq<Seq<char>>, nd: int, t: int)
    requires
        unique_entry_keys(es),
        ov.no_duplicates(),
        0 <= nd <= ov.len(),
        forall|j: int| nd <= j < ov.len() ==> entry_has_key(es, #[trigger] ov[j]),
        0 <= t < es.len(),
        !ov.contains(es[t].0),
    ensures
        ov.len() - nd < es.len(),
{
    let s = ov.skip(nd);
    let idx = s.map_values(|k: Seq<char>| entry_index(es, k));
    assert forall|j: int| 0 <= j < s.len() implies 0 <= #[trigger] idx[j] < es.len() && es[idx[j]].0
        == s[j] && idx[j] != t by {
        assert(s[j] == ov[nd + j]);
        assert(entry_has_key(es, ov[nd + j]));
        if idx[j] == t {
            assert(ov[nd + j] == es[t].0);
            assert(ov.contains(es[t].0));
        }
    }
    assert(idx.no_duplicates()) by {
        assert forall|a: int, b: int| 0 <= a < idx.len() && 0 <= b < idx.len() && a != b implies idx[a]
            != idx[b] by {
            assert(s[a] == ov[nd + a] && s[b] == ov[nd + b]);
            if idx[a] == idx[b] {
                assert(es[idx[a]].0 == s[a]);
                assert(es[idx[b]].0 == s[b]);
            }
        }
    }
    let range = vstd::set_lib::set_int_range(0, es.len() as int).remove(t);
    vstd::set_lib::lemma_int_range(0, es.len() as int);
    assert(idx.to_set().subset_of(range)) by {
        assert forall|x: int| idx.to_set().contains(x) implies range.contains(x) by {
            assert(idx.contains(x));
            let j = choose|j: int| 0 <= j < idx.len() && idx[j] == x;
        }
    }
    vstd::set_lib::lemma_len_subset(idx.to_set(), range);
    idx.unique_seq_to_set();
}

/// Whether `k` is among the keys of `order`.
fn keys_contain(order: &Vec<Vec<char>>, k: &Vec<char>) -> (b: bool)
    ensures
        b == keys_view(order@).contains(k@),
{
    let mut i: usize = 0;
    while i < order.len()
        invariant
            i <= order@.len(),
            forall|j: int| 0 <= j < i ==> order@[j]@ != k@,
        decreases order@.len() - i,
    {
        if vec_eq(&order[i], k) {
            assert(keys_view(order@)[i as int] == k@);
            return true;
        }
        i = i + 1;
    }
    proof {
        if keys_view(order@).contains(k@) {
            let j = choose|j: int| 0 <= j < keys_view(order@).len() && keys_view(order@)[j] == k@;
            assert(order@[j]@ == k@);
        }
    }
    false
}

/// Breadth-first walk from the direct keys over [`succ`]; returns the nodes
/// of the packages reached that are not direct keys, in the order reached.
#[verifier::rlimit(60)]
fn find_transitive_deps(
    root_lower: &Vec<char>,
    direct: &Vec<Vec<char>>,
    edges: &Vec<DepEdge>,
    es: &Vec<(Vec<char>, DepNode)>,
) -> (r: Vec<DepNode>)
    requires
        keys_view(direct@).no_duplicates(),
        unique_entry_keys(entries_view(es@)),
        keys_match_nodes(entries_view(es@)),
    ensures
        nodes_view(r@).no_duplicates(),
        forall|x: NodeV|
            #[trigger] nodes_view(r@).contains(x) <==> is_transitive(
                entries_view(es@),
                edges_view(edges@),
                root_lower@,
                keys_view(direct@),
                x,
            ),
{
    broadcast use vstd::seq_lib::lemma_seq_contains_after_push;

    let ghost ev = entries_view(es@);
    let ghost egv = edges_view(edges@);
    let ghost dv = keys_view(direct@);
    let ghost rl = root_lower@;
    let mut order: Vec<Vec<char>> = Vec::new();
    let mut d: usize = 0;
    while d < direct.len()
        invariant
            d <= direct@.len(),
            dv == keys_view(direct@),
            keys_view(order@) == dv.take(d as int),
        decreases direct@.len() - d,
    {
        let k = crate::text::copy_range(&direct[d], 0, direct[d].len());
        assert(direct[d as int]@.subrange(0, direct[d as int]@.len() as int) =~= direct[d as int]@);
        let ghost prev = order@;
        order.push(k);
        assert(keys_view(order@) =~= keys_view(prev).push(k@));
        assert(k@ == dv[d as int]);
        assert(dv.take(d + 1) =~= dv.take(d as int).push(dv[d as int]));
        assert(keys_view(prev).push(k@) =~= dv.take(d + 1));
        d = d + 1;
    }
    assert(dv.take(dv.len() as int) =~= dv);
    let nd = order.len();
    let ghost mut depth: Seq<nat> = Seq::new(nd as nat, |j: int| 0nat);
    let mut out: Vec<DepNode> = Vec::new();
    let mut head: usize = 0;
    while head < order.len()
        invariant
            ev == entries_view(es@),
            egv == edges_view(edges@),
            dv == keys_view(direct@),
            rl == root_lower@,
            dv.no_duplicates(),
            unique_entry_keys(ev),
            keys_match_nodes(ev),
            nd == dv.len(),
            head <= order@.len(),
            order@.len() <= nd + ev.len(),
            keys_view(order@).no_duplicates(),
            keys_view(order@).take(nd as int) == dv,
            forall|j: int|
                nd <= j < order@.len() ==> entry_has_key(ev, #[trigger] keys_view(order@)[j])
                    && !dv.contains(keys_view(order@)[j]),
            out@.len() == order@.len() - nd,
            forall|t: int|
                0 <= t < out@.len() ==> node_view(#[trigger] out@[t]) == ev[entry_index(
                    ev,
                    keys_view(order@)[nd + t],
                )].1,
            depth.len() == order@.len(),
            forall|j: int|
                0 <= j < order@.len() ==> reach_within(
                    ev,
                    egv,
                    rl,
                    dv,
                    #[trigger] depth[j],
                    keys_view(order@)[j],
                ),
            forall|j: int, k2: Seq<char>|
                0 <= j < head && #[trigger] succ(ev, egv, rl, keys_view(order@)[j], k2)
                    ==> keys_view(order@).contains(k2),
        decreases nd + ev.len() - head,
    {
        let ck = key_name_of(&order[head]);
        let ghost ckey = keys_view(order@)[head as int];
        let ghost dh = depth[head as int];
        let mut j: usize = 0;
        while j < edges.len()
            invariant
                ev == entries_view(es@),
                egv == edges_view(edges@),
                dv == keys_view(direct@),
                rl == root_lower@,
                unique_entry_keys(ev),
                nd == dv.len(),
                head < order@.len(),
                order@.len() <= nd + ev.len(),
                keys_view(order@).no_duplicates(),
                keys_view(order@).take(nd as int) == dv,
                ckey == keys_view(order@)[head as int],
                ck@ == key_name(ckey),
                dh == depth[head as int],
                j <= edges@.len(),
                forall|jj: int|
                    nd <= jj < order@.len() ==> entry_has_key(ev, #[trigger] keys_view(order@)[jj])
                        && !dv.contains(keys_view(order@)[jj]),
                out@.len() == order@.len() - nd,
                forall|t: int|
                    0 <= t < out@.len() ==> node_view(#[trigger] out@[t]) == ev[entry_index(
                        ev,
                        keys_view(order@)[nd + t],
                    )].1,
                depth.len() == order@.len(),
                forall|jj: int|
                    0 <= jj < order@.len() ==> reach_within(
                        ev,
                        egv,
                        rl,
                        dv,
                        #[trigger] depth[jj],
                        keys_view(order@)[jj],
                    ),
                forall|jj: int, k2: Seq<char>|
                    0 <= jj < head && #[trigger] succ(ev, egv, rl, keys_view(order@)[jj], k2)
                        ==> keys_view(order@).contains(k2),
                forall|e: int, k2: Seq<char>|
                    0 <= e < j && entry_has_key(ev, k2) && #[trigger] lowercase(egv[e].0)
                        == key_name(ckey) && lowercase(egv[e].1) != rl && lowercase(egv[e].1)
                        == #[trigger] key_name(k2) ==> keys_view(order@).contains(k2),
            decreases edges@.len() - j,
        {
            let from_l = lower_vec(&chars_of(edges[j].from.as_str()));
            let to_l = lower_vec(&chars_of(edges[j].to.as_str()));
            assert(egv[j as int] == edge_view(edges@[j as int]));
            if vec_eq(&from_l, &ck) && !vec_eq(&to_l, root_lower) {
                let mut t: usize = 0;
                while t < es.len()
                    invariant
                        ev == entries_view(es@),
                        egv == edges_view(edges@),
                        dv == keys_view(direct@),
                        rl == root_lower@,
                        unique_entry_keys(ev),
                        nd == dv.len(),
                        head < order@.len(),
                        order@.len() <= nd + ev.len(),
                        keys_view(order@).no_duplicates(),
                        keys_view(order@).take(nd as int) == dv,
                        ckey == keys_view(order@)[head as int],
                        ck@ == key_name(ckey),
                        dh == depth[head as int],
                        j < edges@.len(),
                        lowercase(egv[j as int].0) == key_name(ckey),
                        lowercase(egv[j as int].1) != rl,
                        to_l@ == lowercase(egv[j as int].1),
                        t <= es@.len(),
                        forall|jj: int|
                            nd <= jj < order@.len() ==> entry_has_key(
                                ev,
                                #[trigger] keys_view(order@)[jj],
                            ) && !dv.contains(keys_view(order@)[jj]),
                        out@.len() == order@.len() - nd,
                        forall|tt: int|
                            0 <= tt < out@.len() ==> node_view(#[trigger] out@[tt]) == ev[entry_index(
                                ev,
                                keys_view(order@)[nd + tt],
                            )].1,
                        depth.len() == order@.len(),
                        forall|jj: int|
                            0 <= jj < order@.len() ==> reach_within(
                                ev,
                                egv,
                                rl,
                                dv,
                                #[trigger] depth[jj],
                                keys_view(order@)[jj],
                            ),
                        forall|jj: int, k2: Seq<char>|
                            0 <= jj < head && #[trigger] succ(ev, egv, rl, keys_view(order@)[jj], k2)
                                ==> keys_view(order@).contains(k2),
                        forall|e: int, k2: Seq<char>|
                            0 <= e < j && entry_has_key(ev, k2) && #[trigger] lowercase(egv[e].0)
                                == key_name(ckey) && lowercase(egv[e].1) != rl && lowercase(
                                egv[e].1,
                            ) == #[trigger] key_name(k2) ==> keys_view(order@).contains(k2),
                        forall|tt: int|
                            0 <= tt < t && key_name(#[trigger] ev[tt].0) == to_l@
                                ==> keys_view(order@).contains(ev[tt].0),
                    decreases es@.len() - t,
                {
                    let kn = key_name_of(&es[t].0);
                    assert(ev[t as int].0 == es@[t as int].0@);
                    if vec_eq(&kn, &to_l) && !keys_contain(&order, &es[t].0) {
                        proof {
                            lemma_new_keys_bounded(ev, keys_view(order@), nd as int, t as int);
                            assert(entry_has_key(ev, ev[t as int].0));
                            assert(succ(ev, egv, rl, ckey, ev[t as int].0));
                            assert(reach_within(ev, egv, rl, dv, dh + 1, ev[t as int].0));
                        }
                        let ghost old_order = order@;
                        let ghost old_out = out@;
                        let k = crate::text::copy_range(&es[t].0, 0, es[t].0.len());
                        assert(es@[t as int].0@.subrange(0, es@[t as int].0@.len() as int)
                            =~= es@[t as int].0@);
                        order.push(k);
                        out.push(copy_node(&es[t].1));
                        proof {
                            depth = depth.push(dh + 1);
                            let kv = keys_view(order@);
                            assert(kv =~= keys_view(old_order).push(ev[t as int].0));
                            assert(kv.take(nd as int) =~= keys_view(old_order).take(nd as int));
                            assert(!dv.contains(ev[t as int].0)) by {
                                if dv.contains(ev[t as int].0) {
                                    assert(keys_view(old_order).take(nd as int).contains(ev[t as int].0));
                                    let w = choose|w: int| 0 <= w < nd && keys_view(old_order).take(nd as int)[w] == ev[t as int].0;
                                    assert(keys_view(old_order)[w] == ev[t as int].0);
                                }
                            }
                            assert(kv.no_duplicates()) by {
                                assert forall|a: int, b: int| 0 <= a < kv.len() && 0 <= b < kv.len() && a != b implies kv[a] != kv[b] by {
                                    if a == kv.len() - 1 {
                                        assert(keys_view(old_order).contains(kv[b]));
                                    } else if b == kv.len() - 1 {
                                        assert(keys_view(old_order).contains(kv[a]));
                                    }
                                }
                            }
                            assert(entry_index(ev, ev[t as int].0) == t) by {
                                let w = entry_index(ev, ev[t as int].0);
                                assert(ev[w].0 == ev[t as int].0);
                            }
                            assert forall|tt: int| 0 <= tt < out@.len() implies node_view(#[trigger] out@[tt]) == ev[entry_index(
                                ev,
                                kv[nd + tt],
                            )].1 by {
                                if tt < old_out.len() {
                                    assert(out@[tt] == old_out[tt]);
                                    assert(kv[nd + tt] == keys_view(old_order)[nd + tt]);
                                }
                            }
                            assert forall|jj: int| 0 <= jj < order@.len() implies reach_within(
                                ev,
                                egv,
                                rl,
                                dv,
                                #[trigger] depth[jj],
                                kv[jj],
                            ) by {
                                if jj < old_order.len() {
                                    assert(kv[jj] == keys_view(old_order)[jj]);
                                }
                            }
                            assert forall|jj: int| nd <= jj < order@.len() implies entry_has_key(
                                ev,
                                #[trigger] kv[jj],
                            ) && !dv.contains(kv[jj]) by {
                                if jj < old_order.len() {
                                    assert(kv[jj] == keys_view(old_order)[jj]);
                                }
                            }
                            assert(kv[head as int] == ckey);
                            assert forall|jj: int, k2: Seq<char>|
                                0 <= jj < head && #[trigger] succ(ev, egv, rl, kv[jj], k2) implies kv.contains(k2) by {
                                assert(kv[jj] == keys_view(old_order)[jj]);
                                assert(succ(ev, egv, rl, keys_view(old_order)[jj], k2));
                                assert(keys_view(old_order).contains(k2));
                                vstd::seq_lib::lemma_seq_contains_after_push(keys_view(old_order), ev[t as int].0, k2);
                            }
                            assert forall|e: int, k2: Seq<char>|
                                0 <= e < j && entry_has_key(ev, k2) && #[trigger] lowercase(egv[e].0)
                                    == key_name(ckey) && lowercase(egv[e].1) != rl && lowercase(
                                    egv[e].1,
                                ) == #[trigger] key_name(k2) implies kv.contains(k2) by {
                                assert(keys_view(old_order).contains(k2));
                                vstd::seq_lib::lemma_seq_contains_after_push(keys_view(old_order), ev[t as int].0, k2);
                            }
                            assert forall|tt: int|
                                0 <= tt < t + 1 && key_name(#[trigger] ev[tt].0) == to_l@ implies kv.contains(ev[tt].0) by {
                                vstd::seq_lib::lemma_seq_contains_after_push(keys_view(old_order), ev[t as int].0, ev[tt].0);
                                if tt < t {
                                    assert(keys_view(old_order).contains(ev[tt].0));
                                }
                            }
                        }
                    } else {
                        proof {
                            if key_name(ev[t as int].0) == to_l@ {
                                assert(keys_view(order@).contains(ev[t as int].0));
                            }
                        }
                    }
                    t = t + 1;
                }
                proof {
                    assert forall|e: int, k2: Seq<char>|
                        0 <= e < j + 1 && entry_has_key(ev, k2) && #[trigger] lowercase(egv[e].0)
                            == key_name(ckey) && lowercase(egv[e].1) != rl && lowercase(egv[e].1)
                            == #[trigger] key_name(k2) implies keys_view(order@).contains(k2) by {
                        if e == j {
                            let w = choose|w: int| 0 <= w < ev.len() && #[trigger] ev[w].0 == k2;
                            assert(key_name(ev[w].0) == to_l@);
                        }
                    }
                }
            }
            j = j + 1;
        }
        proof {
            assert forall|jj: int, k2: Seq<char>|
                0 <= jj < head + 1 && #[trigger] succ(ev, egv, rl, keys_view(order@)[jj], k2)
                    implies keys_view(order@).contains(k2) by {
                if jj == head {
                    let e = choose|e: int|
                        0 <= e < egv.len() && #[trigger] lowercase(egv[e].0) == key_name(
                            keys_view(order@)[jj],
                        ) && lowercase(egv[e].1) != rl && lowercase(egv[e].1) == key_name(k2);
                }
            }
        }
        head = head + 1;
    }
    proof {
        let kv = keys_view(order@);
        // Every reachable key was visited.
        assert forall|n: nat, k: Seq<char>| #[trigger] reach_within(ev, egv, rl, dv, n, k) implies kv.contains(k) by {
            lemma_visited_closed(ev, egv, rl, dv, kv, nd as int, n, k);
        }
        assert(nodes_view(out@).no_duplicates()) by {
            let nv = nodes_view(out@);
            assert forall|a: int, b: int| 0 <= a < nv.len() && 0 <= b < nv.len() && a != b implies nv[a] != nv[b] by {
                let ia = entry_index(ev, kv[nd + a]);
                let ib = entry_index(ev, kv[nd + b]);
                assert(entry_has_key(ev, kv[nd + a]));
                assert(entry_has_key(ev, kv[nd + b]));
                assert(ev[ia].0 == kv[nd + a]);
                assert(ev[ib].0 == kv[nd + b]);
                assert(kv[nd + a] != kv[nd + b]);
                assert(nv[a] == ev[ia].1 && nv[b] == ev[ib].1);
                if ev[ia].1 == ev[ib].1 {
                    lemma_entry_views_distinct(ev, ia, ib);
                }
            }
        }
        assert forall|x: NodeV| #[trigger] nodes_view(out@).contains(x) <==> is_transitive(ev, egv, rl, dv, x) by {
            if nodes_view(out@).contains(x) {
                let t = choose|t: int| 0 <= t < nodes_view(out@).len() && nodes_view(out@)[t] == x;
                let i = entry_index(ev, kv[nd + t]);
                assert(entry_has_key(ev, kv[nd + t]));
                assert(ev[i].0 == kv[nd + t]);
                assert(reach_within(ev, egv, rl, dv, depth[nd + t], kv[nd + t]));
                assert(ev[i].1 == x);
            }
            if is_transitive(ev, egv, rl, dv, x) {
                let i = choose|i: int| 0 <= i < ev.len() && #[trigger] ev[i].1 == x && reachable(ev, egv, rl, dv, ev[i].0) && !dv.contains(ev[i].0);
                let n = choose|n: nat| reach_within(ev, egv, rl, dv, n, ev[i].0);
                assert(kv.contains(ev[i].0));
                let w = choose|w: int| 0 <= w < kv.len() && kv[w] == ev[i].0;
                if w < nd {
                    assert(kv.take(nd as int)[w] == ev[i].0);
                    assert(dv.contains(ev[i].0));
                }
                assert(entry_has_key(ev, kv[w]));
                let i2 = entry_index(ev, kv[w]);
                assert(ev[i2].0 == ev[i].0);
                assert(i2 == i);
                assert(nodes_view(out@)[w - nd] == x);
            }
        }
    }
    out
}

/// Every entry's key is the key of its node.
pub open spec fn keys_match_nodes(es: Seq<(Seq<char>, NodeV)>) -> bool {
    forall|i: int| 0 <= i < es.len() ==> (#[trigger] es[i]).0 == node_key(es[i].1.1, es[i].1.2, es[i].1.3)
}

/// The node table has one entry per key, keyed by its node.
proof fn lemma_node_entries_wf(pk: Seq<PackageEntry>)
    ensures
        unique_entry_keys(node_entries(pk)),
        keys_match_nodes(node_entries(pk)),
    decreases pk.len(),
{
    if pk.len() > 0 {
        lemma_node_entries_wf(pk.drop_last());
        let rest = node_entries(pk.drop_last());
        let p = pk.last();
        let k = node_key(p.0@, p.1@, p.2@);
        if !entry_has_key(rest, k) {
            let r = rest.push((k, (Seq::empty(), p.0@, p.1@, p.2@)));
            assert forall|a: int, b: int| 0 <= a < b < r.len() implies #[trigger] r[a].0 != #[trigger] r[b].0 by {
                if b == rest.len() {
                    assert(rest[a].0 != k);
                } else {
                    assert(rest[a].0 != rest[b].0);
                }
            }
            assert forall|i: int| 0 <= i < r.len() implies (#[trigger] r[i]).0 == node_key(r[i].1.1, r[i].1.2, r[i].1.3) by {
                if i < rest.len() {
                    assert(r[i] == rest[i]);
                }
            }
        }
    }
}

proof fn lemma_entry_views_distinct(es: Seq<(Seq<char>, NodeV)>, a: int, b: int)
    requires
        0 <= a < es.len(),
        0 <= b < es.len(),
        keys_match_nodes(es),
        es[a].1 == es[b].1,
    ensures
        es[a].0 == es[b].0,
{
}

/// Every key reachable from the direct keys is in `kv`, given that `kv`
/// starts with the direct keys and is closed under [`succ`].
proof fn lemma_visited_closed(
    es: Seq<(Seq<char>, NodeV)>,
    edges: Seq<EdgeV>,
    rl: Seq<char>,
    dv: Seq<Seq<char>>,
    kv: Seq<Seq<char>>,
    nd: int,
    n: nat,
    k: Seq<char>,
)
    requires
        0 <= nd <= kv.len(),
        kv.take(nd) == dv,
        forall|j: int, k2: Seq<char>|
            0 <= j < kv.len() && #[trigger] succ(es, edges, rl, kv[j], k2) ==> kv.contains(k2),
        reach_within(es, edges, rl, dv, n, k),
    ensures
        kv.contains(k),
    decreases n,
{
    if n == 0 {
        let w = choose|w: int| 0 <= w < dv.len() && dv[w] == k;
        assert(kv[w] == dv[w]);
    } else if reach_within(es, edges, rl, dv, (n - 1) as nat, k) {
        lemma_visited_closed(es, edges, rl, dv, kv, nd, (n - 1) as nat, k);
    } else {
        let k0 = choose|k0: Seq<char>| reach_within(es, edges, rl, dv, (n - 1) as nat, k0) && #[trigger] succ(es, edges, rl, k0, k);
        lemma_visited_closed(es, edges, rl, dv, kv, nd, (n - 1) as nat, k0);
        let w = choose|w: int| 0 <= w < kv.len() && kv[w] == k0;
        assert(succ(es, edges, rl, kv[w], k));
    }
}


// ---------------------------------------------------------------------------
// Missing packages and version conflicts
// ---------------------------------------------------------------------------

/// The targets of `edges` whose lowercase name is not among `names`, each
/// once, in order of first appearance.
pub open spec fn missing_of(edges: Seq<EdgeV>, names: Seq<Seq<char>>) -> Seq<Seq<char>>
    decreases edges.len(),
{
    if edges.len() == 0 {
        Seq::empty()
    } else {
        let rest = missing_of(edges.drop_last(), names);
        let e = edges.last();
        if !names.contains(lowercase(e.1)) && !rest.contains(e.1) {
            rest.push(e.1)
        } else {
            rest
        }
    }
}

/// The missing list names no target twice, and names exactly the edge
/// targets whose lowercase name is not a loaded package name.
pub proof fn lemma_missing_exact(edges: Seq<EdgeV>, names: Seq<Seq<char>>)
    ensures
        missing_of(edges, names).no_duplicates(),
        forall|x: Seq<char>|
            #![trigger missing_of(edges, names).contains(x)]
            missing_of(edges, names).contains(x) <==> (exists|i: int|
                0 <= i < edges.len() && (#[trigger] edges[i]).1 == x && !names.contains(lowercase(x))),
    decreases edges.len(),
{
    if edges.len() > 0 {
        let d = edges.drop_last();
        lemma_missing_exact(d, names);
        let rest = missing_of(d, names);
        let e = edges.last();
        assert forall|x: Seq<char>|
            #![trigger missing_of(edges, names).contains(x)]
            missing_of(edges, names).contains(x) <==> (exists|i: int|
                0 <= i < edges.len() && (#[trigger] edges[i]).1 == x && !names.contains(lowercase(x))) by {
            if missing_of(edges, names).contains(x) {
                if rest.contains(x) {
                    let i = choose|i: int| 0 <= i < d.len() && (#[trigger] d[i]).1 == x && !names.contains(lowercase(x));
                    assert(edges[i] == d[i]);
                } else {
                    let j = choose|j: int| 0 <= j < missing_of(edges, names).len() && missing_of(edges, names)[j] == x;
                    assert(missing_of(edges, names) == rest.push(e.1));
                    assert(j == rest.len());
                    assert(edges[edges.len() - 1] == e);
                }
            }
            if exists|i: int| 0 <= i < edges.len() && (#[trigger] edges[i]).1 == x && !names.contains(lowercase(x)) {
                let i = choose|i: int| 0 <= i < edges.len() && (#[trigger] edges[i]).1 == x && !names.contains(lowercase(x));
                if i < d.len() {
                    assert(d[i] == edges[i]);
                    assert(rest.contains(x));
                    if !names.contains(lowercase(e.1)) && !rest.contains(e.1) {
                        let k = choose|k: int| 0 <= k < rest.len() && rest[k] == x;
                        assert(rest.push(e.1)[k] == x);
                    }
                } else {
                    assert(edges[i] == e);
                    if !rest.contains(e.1) {
                        assert(rest.push(e.1)[rest.len() as int] == x);
                    }
                }
            }
        }
        if !names.contains(lowercase(e.1)) && !rest.contains(e.1) {
            let r = rest.push(e.1);
            assert forall|a: int, b: int| 0 <= a < b < r.len() implies r[a] != r[b] by {
                if b == rest.len() {
                    assert(r[a] == rest[a]);
                } else {
                    assert(r[a] == rest[a] && r[b] == rest[b]);
                }
            }
        }
    }
}

/// Some edge before position `jb` targets `x`.
pub open spec fn named_before(edges: Seq<EdgeV>, x: Seq<char>, jb: int) -> bool {
    exists|ja: int| 0 <= ja < jb && (#[trigger] edges[ja]).1 == x
}

/// The missing targets come in the order the edges first name them: every
/// edge naming a later entry comes after an edge naming an earlier one.
pub proof fn lemma_missing_in_first_order(edges: Seq<EdgeV>, names: Seq<Seq<char>>)
    ensures
        forall|a: int, b: int, jb: int|
            #![trigger missing_of(edges, names)[a], missing_of(edges, names)[b], edges[jb]]
            0 <= a < b < missing_of(edges, names).len() && 0 <= jb < edges.len() && edges[jb].1
                == missing_of(edges, names)[b] ==> named_before(edges, missing_of(edges, names)[a], jb),
    decreases edges.len(),
{
    if edges.len() > 0 {
        let d = edges.drop_last();
        lemma_missing_in_first_order(d, names);
        lemma_missing_exact(d, names);
        let rest = missing_of(d, names);
        let r = missing_of(edges, names);
        let e = edges.last();
        let last = edges.len() - 1;
        assert forall|a: int, b: int, jb: int|
            #![trigger r[a], r[b], edges[jb]]
            0 <= a < b < r.len() && 0 <= jb < edges.len() && edges[jb].1 == r[b] implies named_before(edges, r[a], jb) by {
            let pushed = !names.contains(lowercase(e.1)) && !rest.contains(e.1);
            assert(r[a] == rest[a]);
            assert(rest.contains(rest[a]));
            let ia = choose|i: int| 0 <= i < d.len() && (#[trigger] d[i]).1 == rest[a] && !names.contains(lowercase(rest[a]));
            assert(edges[ia] == d[ia]);
            if pushed && b == rest.len() {
                if jb < last {
                    assert(edges[jb] == d[jb]);
                    assert(rest.contains(e.1));
                }
            } else {
                assert(r[b] == rest[b]);
                if jb < last {
                    assert(edges[jb] == d[jb]);
                    assert(d[jb].1 == rest[b]);
                    assert(named_before(d, rest[a], jb));
                    let ja = choose|ja: int| 0 <= ja < jb && (#[trigger] d[ja]).1 == rest[a];
                    assert(edges[ja] == d[ja]);
                }
            }
        }
    }
}

/// The lowercase names of the loaded packages.
pub open spec fn loaded_names(es: Seq<(Seq<char>, NodeV)>) -> Seq<Seq<char>> {
    es.map_values(|e: (Seq<char>, NodeV)| lowercase(e.1.1))
}

/// A requirement: (required by, version).
pub type ReqV = (Seq<char>, Seq<char>);

/// Requirements grouped by lowercase target name, groups in order of first
/// appearance: every edge whose required version is neither empty nor `*`.
pub open spec fn req_table(edges: Seq<EdgeV>) -> Seq<(Seq<char>, Seq<ReqV>)>
    decreases edges.len(),
{
    if edges.len() == 0 {
        Seq::empty()
    } else {
        let rest = req_table(edges.drop_last());
        let e = edges.last();
        if e.2.len() == 0 || e.2 == "*"@ {
            rest
        } else {
            let g = lowercase(e.1);
            if exists|i: int| 0 <= i < rest.len() && #[trigger] rest[i].0 == g {
                let i = choose|i: int| 0 <= i < rest.len() && #[trigger] rest[i].0 == g;
                rest.update(i, (g, rest[i].1.push((e.0, e.2))))
            } else {
                rest.push((g, seq![(e.0, e.2)]))
            }
        }
    }
}

/// The name under which a conflict on group `g` is reported: the first
/// loaded package whose lowercase name is `g`, else `g` itself.
pub open spec fn display_name(es: Seq<(Seq<char>, NodeV)>, g: Seq<char>) -> Seq<char>
    decreases es.len(),
{
    if es.len() == 0 {
        g
    } else if lowercase(es[0].1.1) == g {
        es[0].1.1
    } else {
        display_name(es.drop_first(), g)
    }
}

/// A conflict as plain text: name, distinct versions, requirers.
pub type ConflictV = (Seq<char>, Seq<Seq<char>>, Seq<Seq<char>>);

pub open spec fn conflict_view(c: VersionConflict) -> ConflictV {
    (c.name@, strs(c.versions@), strs(c.required_by@))
}

/// The groups of `table` required at more than one distinct version.
pub open spec fn conflicts_of(es: Seq<(Seq<char>, NodeV)>, table: Seq<(Seq<char>, Seq<ReqV>)>) -> Seq<
    ConflictV,
>
    decreases table.len(),
{
    if table.len() == 0 {
        Seq::empty()
    } else {
        let rest = conflicts_of(es, table.drop_last());
        let (g, reqs) = table.last();
        let versions = dedup(reqs.map_values(|r: ReqV| r.1));
        if versions.len() > 1 {
            rest.push((display_name(es, g), versions, reqs.map_values(|r: ReqV| r.0)))
        } else {
            rest
        }
    }
}

/// The missing targets (see [`missing_of`]).
fn find_missing(edges: &Vec<DepEdge>, es: &Vec<(Vec<char>, DepNode)>) -> (r: Vec<String>)
    ensures
        strs(r@) == missing_of(edges_view(edges@), loaded_names(entries_view(es@))),
{
    let ghost names = loaded_names(entries_view(es@));
    let mut lowered: Vec<Vec<char>> = Vec::new();
    let mut t: usize = 0;
    while t < es.len()
        invariant
            t <= es@.len(),
            names == loaded_names(entries_view(es@)),
            keys_view(lowered@) == names.take(t as int),
        decreases es@.len() - t,
    {
        let l = lower_vec(&chars_of(es[t].1.name.as_str()));
        let ghost prev = lowered@;
        lowered.push(l);
        assert(keys_view(lowered@) =~= keys_view(prev).push(l@));
        assert(names.take(t + 1) =~= names.take(t as int).push(names[t as int]));
        t = t + 1;
    }
    assert(names.take(names.len() as int) =~= names);
    let mut out: Vec<String> = Vec::new();
    let mut seen: Vec<Vec<char>> = Vec::new();
    let mut i: usize = 0;
    while i < edges.len()
        invariant
            i <= edges@.len(),
            keys_view(lowered@) == names,
            strs(out@) == missing_of(edges_view(edges@).take(i as int), names),
            keys_view(seen@) == strs(out@),
        decreases edges@.len() - i,
    {
        let ghost ev = edges_view(edges@);
        assert(ev.take(i + 1).drop_last() =~= ev.take(i as int));
        assert(ev.take(i + 1).last() == edge_view(edges@[i as int]));
        let to = chars_of(edges[i].to.as_str());
        let tl = lower_vec(&to);
        if !keys_contain(&lowered, &tl) && !keys_contain(&seen, &to) {
            let ghost prev_out = out@;
            let ghost prev_seen = seen@;
            out.push(edges[i].to.clone());
            seen.push(to);
            assert(strs(out@) =~= strs(prev_out).push(edges@[i as int].to@));
            assert(keys_view(seen@) =~= keys_view(prev_seen).push(edges@[i as int].to@));
        }
        i = i + 1;
    }
    assert(edges_view(edges@).take(edges@.len() as int) =~= edges_view(edges@));
    out
}

/// Requirement table entries during construction.
pub type ReqGroup = (Vec<char>, Vec<(String, String)>);

pub open spec fn reqs_view(v: Seq<(String, String)>) -> Seq<ReqV> {
    v.map_values(|r: (String, String)| (r.0@, r.1@))
}

pub open spec fn table_view(t: Seq<ReqGroup>) -> Seq<(Seq<char>, Seq<ReqV>)> {
    t.map_values(|g: ReqGroup| (g.0@, reqs_view(g.1@)))
}

/// No two groups of a requirement table share a name.
pub open spec fn table_unique_groups(t: Seq<(Seq<char>, Seq<ReqV>)>) -> bool {
    forall|a: int, b: int| 0 <= a < b < t.len() ==> #[trigger] t[a].0 != #[trigger] t[b].0
}

proof fn lemma_req_table_unique(edges: Seq<EdgeV>)
    ensures
        table_unique_groups(req_table(edges)),
    decreases edges.len(),
{
    if edges.len() > 0 {
        lemma_req_table_unique(edges.drop_last());
        let rest = req_table(edges.drop_last());
        let e = edges.last();
        let g = lowercase(e.1);
        if !(e.2.len() == 0 || e.2 == "*"@) {
            if exists|i: int| 0 <= i < rest.len() && #[trigger] rest[i].0 == g {
                let i = choose|i: int| 0 <= i < rest.len() && #[trigger] rest[i].0 == g;
                let t = rest.update(i, (g, rest[i].1.push((e.0, e.2))));
                assert forall|a: int, b: int| 0 <= a < b < t.len() implies #[trigger] t[a].0 != #[trigger] t[b].0 by {
                    assert(t[a].0 == rest[a].0 && t[b].0 == rest[b].0);
                }
            } else {
                let t = rest.push((g, seq![(e.0, e.2)]));
                assert forall|a: int, b: int| 0 <= a < b < t.len() implies #[trigger] t[a].0 != #[trigger] t[b].0 by {
                    if b == rest.len() {
                        assert(rest[a].0 != g);
                    } else {
                        assert(rest[a].0 != rest[b].0);
                    }
                }
            }
        }
    }
}

/// Index of the group named `g`, if any (the first such).
fn find_group(table: &Vec<ReqGroup>, g: &Vec<char>) -> (r: Option<usize>)
    ensures
        r matches Some(j) ==> j < table@.len() && table@[j as int].0@ == g@ && forall|jj: int|
            0 <= jj < j ==> table@[jj].0@ != g@,
        r is None ==> forall|jj: int| 0 <= jj < table@.len() ==> table@[jj].0@ != g@,
{
    let mut k: usize = 0;
    while k < table.len()
        invariant
            k <= table@.len(),
            forall|j: int| 0 <= j < k ==> table@[j].0@ != g@,
        decreases table@.len() - k,
    {
        if vec_eq(&table[k].0, g) {
            return Some(k);
        }
        k = k + 1;
    }
    None
}

/// The requirement table of `edges` (see [`req_table`]).
fn build_req_table(edges: &Vec<DepEdge>) -> (r: Vec<ReqGroup>)
    ensures
        table_view(r@) == req_table(edges_view(edges@)),
{
    let star = chars_of("*");
    let mut table: Vec<ReqGroup> = Vec::new();
    let mut i: usize = 0;
    while i < edges.len()
        invariant
            i <= edges@.len(),
            star@ == "*"@,
            table_view(table@) == req_table(edges_view(edges@).take(i as int)),
        decreases edges@.len() - i,
    {
        let ghost ev = edges_view(edges@);
        assert(ev.take(i + 1).drop_last() =~= ev.take(i as int));
        assert(ev.take(i + 1).last() == edge_view(edges@[i as int]));
        let ver = chars_of(edges[i].required_version.as_str());
        if ver.len() > 0 && !vec_eq(&ver, &star) {
            let g = lower_vec(&chars_of(edges[i].to.as_str()));
            let ghost tv = table_view(table@);
            proof {
                lemma_req_table_unique(ev.take(i as int));
            }
            let found = find_group(&table, &g);
            let req = (edges[i].from.clone(), edges[i].required_version.clone());
            match found {
                Some(j) => {
                    assert(tv[j as int].0 == g@);
                    let ghost w = choose|w: int| 0 <= w < tv.len() && #[trigger] tv[w].0 == g@;
                    assert(w == j) by {
                        if w < j {
                            assert(table@[w].0@ != g@);
                        } else if w > j {
                            assert(tv[j as int].0 != tv[w].0);
                        }
                    }
                    let ghost t0 = table@;
                    let (key, mut reqs) = table.remove(j);
                    let ghost r0 = reqs@;
                    reqs.push(req);
                    assert(reqs_view(reqs@) =~= reqs_view(r0).push((req.0@, req.1@)));
                    table.insert(j, (key, reqs));
                    assert(table@ =~= t0.update(j as int, (key, reqs)));
                    assert(table_view(table@) =~= tv.update(
                        j as int,
                        (g@, tv[j as int].1.push((req.0@, req.1@))),
                    ));
                },
                None => {
                    assert(!exists|w: int| 0 <= w < tv.len() && #[trigger] tv[w].0 == g@) by {
                        if exists|w: int| 0 <= w < tv.len() && #[trigger] tv[w].0 == g@ {
                            let w = choose|w: int| 0 <= w < tv.len() && #[trigger] tv[w].0 == g@;
                            assert(table@[w].0@ != g@);
                        }
                    }
                    let mut reqs: Vec<(String, String)> = Vec::new();
                    reqs.push(req);
                    table.push((g, reqs));
                    assert(reqs_view(reqs@) =~= seq![(req.0@, req.1@)]);
                    assert(table_view(table@) =~= tv.push((g@, seq![(req.0@, req.1@)])));
                },
            }
        }
        i = i + 1;
    }
    assert(edges_view(edges@).take(edges@.len() as int) =~= edges_view(edges@));
    table
}


/// Whether `s` is among the strings of `v`.
fn strs_contain(v: &Vec<String>, s: &String) -> (b: bool)
    ensures
        b == strs(v@).contains(s@),
{
    let target = chars_of(s.as_str());
    let mut i: usize = 0;
    while i < v.len()
        invariant
            i <= v@.len(),
            target@ == s@,
            forall|j: int| 0 <= j < i ==> v@[j]@ != s@,
        decreases v@.len() - i,
    {
        let c = chars_of(v[i].as_str());
        if vec_eq(&c, &target) {
            assert(strs(v@)[i as int] == s@);
            return true;
        }
        i = i + 1;
    }
    proof {
        if strs(v@).contains(s@) {
            let j = choose|j: int| 0 <= j < strs(v@).len() && strs(v@)[j] == s@;
            assert(v@[j]@ == s@);
        }
    }
    false
}

/// The display name of group `g` (see [`display_name`]).
fn display_name_of(es: &Vec<(Vec<char>, DepNode)>, g: &Vec<char>) -> (r: String)
    ensures
        r@ == display_name(entries_view(es@), g@),
{
    let ghost ev = entries_view(es@);
    let mut t: usize = 0;
    assert(ev.skip(0) =~= ev);
    while t < es.len()
        invariant
            t <= es@.len(),
            ev == entries_view(es@),
            display_name(ev, g@) == display_name(ev.skip(t as int), g@),
        decreases es@.len() - t,
    {
        let l = lower_vec(&chars_of(es[t].1.name.as_str()));
        assert(ev.skip(t as int)[0] == ev[t as int]);
        assert(ev.skip(t as int).drop_first() =~= ev.skip(t + 1));
        if vec_eq(&l, g) {
            return es[t].1.name.clone();
        }
        t = t + 1;
    }
    assert(ev.skip(t as int).len() == 0);
    string_of(g)
}

/// The version conflicts among the requirements of `edges`
/// (see [`conflicts_of`]).
fn find_version_conflicts(edges: &Vec<DepEdge>, es: &Vec<(Vec<char>, DepNode)>) -> (r: Vec<
    VersionConflict,
>)
    ensures
        r@.map_values(|c: VersionConflict| conflict_view(c)) == conflicts_of(
            entries_view(es@),
            req_table(edges_view(edges@)),
        ),
{
    let table = build_req_table(edges);
    let ghost tv = table_view(table@);
    let ghost ev = entries_view(es@);
    let mut out: Vec<VersionConflict> = Vec::new();
    let mut i: usize = 0;
    while i < table.len()
        invariant
            i <= table@.len(),
            tv == table_view(table@),
            ev == entries_view(es@),
            out@.map_values(|c: VersionConflict| conflict_view(c)) == conflicts_of(ev, tv.take(i as int)),
        decreases table@.len() - i,
    {
        assert(tv.take(i + 1).drop_last() =~= tv.take(i as int));
        let reqs = &table[i].1;
        let ghost rv = reqs_view(reqs@);
        assert(tv.take(i + 1).last() == (table@[i as int].0@, rv));
        let ghost vseq = rv.map_values(|r: ReqV| r.1);
        let mut versions: Vec<String> = Vec::new();
        let mut required_by: Vec<String> = Vec::new();
        let mut k: usize = 0;
        while k < reqs.len()
            invariant
                k <= reqs@.len(),
                rv == reqs_view(reqs@),
                vseq == rv.map_values(|r: ReqV| r.1),
                strs(versions@) == dedup(vseq.take(k as int)),
                strs(required_by@) == rv.map_values(|r: ReqV| r.0).take(k as int),
            decreases reqs@.len() - k,
        {
            assert(vseq.take(k + 1).drop_last() =~= vseq.take(k as int));
            assert(vseq.take(k + 1).last() == reqs@[k as int].1@);
            let ghost pv = versions@;
            let ghost pr = required_by@;
            if !strs_contain(&versions, &reqs[k].1) {
                versions.push(reqs[k].1.clone());
                assert(strs(versions@) =~= strs(pv).push(reqs@[k as int].1@));
            }
            required_by.push(reqs[k].0.clone());
            assert(strs(required_by@) =~= strs(pr).push(reqs@[k as int].0@));
            assert(rv.map_values(|r: ReqV| r.0).take(k + 1) =~= rv.map_values(|r: ReqV| r.0).take(
                k as int,
            ).push(reqs@[k as int].0@));
            k = k + 1;
        }
        assert(vseq.take(vseq.len() as int) =~= vseq);
        assert(rv.map_values(|r: ReqV| r.0).take(rv.len() as int) =~= rv.map_values(|r: ReqV| r.0));
        if versions.len() > 1 {
            let name = display_name_of(es, &table[i].0);
            let ghost po = out@;
            let c = VersionConflict { name, versions, required_by };
            out.push(c);
            assert(out@.map_values(|c: VersionConflict| conflict_view(c)) =~= po.map_values(
                |c: VersionConflict| conflict_view(c),
            ).push(conflict_view(c)));
        }
        i = i + 1;
    }
    assert(tv.take(tv.len() as int) =~= tv);
    out
}


// ---------------------------------------------------------------------------
// DOT export
// ---------------------------------------------------------------------------

pub open spec fn dot_node_lines(ns: Seq<NodeV>) -> Seq<char>
    decreases ns.len(),
{
    if ns.len() == 0 {
        Seq::empty()
    } else {
        let n = ns.last();
        dot_node_lines(ns.drop_last()) + "  \""@ + n.1 + "\" [label=\""@ + n.1 + "\\n"@ + n.3
            + "\"];\n"@
    }
}

pub open spec fn dot_edge_lines(es: Seq<EdgeV>) -> Seq<char>
    decreases es.len(),
{
    if es.len() == 0 {
        Seq::empty()
    } else {
        let e = es.last();
        dot_edge_lines(es.drop_last()) + "  \""@ + e.0 + "\" -> \""@ + e.1 + "\" [label=\""@ + e.2
            + "\"];\n"@
    }
}

pub open spec fn dot_conflict_lines(cs: Seq<ConflictV>) -> Seq<char>
    decreases cs.len(),
{
    if cs.len() == 0 {
        Seq::empty()
    } else {
        dot_conflict_lines(cs.drop_last()) + "  \""@ + cs.last().0
            + "\" [style=filled, fillcolor=red];\n"@
    }
}

/// The Graphviz text of a dependency graph: the root app highlighted, one
/// labelled box per package, one labelled arrow per edge, conflicts in red.
pub open spec fn dot_of(root: Seq<char>, ns: Seq<NodeV>, es: Seq<EdgeV>, cs: Seq<ConflictV>) -> Seq<
    char,
> {
    "digraph AL_Dependencies {\n  rankdir=LR;\n  node [shape=box];\n"@ + "  \""@ + root
        + "\" [style=filled, fillcolor=lightblue];\n"@ + dot_node_lines(ns) + dot_edge_lines(es)
        + dot_conflict_lines(cs) + "}\n"@
}

impl DependencyGraph {
    /// The graph in Graphviz DOT syntax (see [`dot_of`]).
    pub fn to_dot(&self) -> (r: String)
        ensures
            r@ == dot_of(
                self.root_app.name@,
                nodes_view(self.nodes@),
                edges_view(self.edges@),
                self.conflicts@.map_values(|c: VersionConflict| conflict_view(c)),
            ),
    {
        let mut s = String::new();
        push_str(&mut s, "digraph AL_Dependencies {\n  rankdir=LR;\n  node [shape=box];\n");
        push_str(&mut s, "  \"");
        push_str(&mut s, self.root_app.name.as_str());
        push_str(&mut s, "\" [style=filled, fillcolor=lightblue];\n");
        let ghost head = s@;
        let ghost nv = nodes_view(self.nodes@);
        let mut i: usize = 0;
        while i < self.nodes.len()
            invariant
                i <= self.nodes@.len(),
                nv == nodes_view(self.nodes@),
                s@ == head + dot_node_lines(nv.take(i as int)),
            decreases self.nodes@.len() - i,
        {
            assert(nv.take(i + 1).drop_last() =~= nv.take(i as int));
            let n = &self.nodes[i];
            push_str(&mut s, "  \"");
            push_str(&mut s, n.name.as_str());
            push_str(&mut s, "\" [label=\"");
            push_str(&mut s, n.name.as_str());
            push_str(&mut s, "\\n");
            push_str(&mut s, n.version.as_str());
            push_str(&mut s, "\"];\n");
            assert(s@ =~= head + dot_node_lines(nv.take(i + 1)));
            i = i + 1;
        }
        assert(nv.take(nv.len() as int) =~= nv);
        let ghost head2 = s@;
        let ghost ev = edges_view(self.edges@);
        let mut j: usize = 0;
        while j < self.edges.len()
            invariant
                j <= self.edges@.len(),
                ev == edges_view(self.edges@),
                s@ == head2 + dot_edge_lines(ev.take(j as int)),
            decreases self.edges@.len() - j,
        {
            assert(ev.take(j + 1).drop_last() =~= ev.take(j as int));
            let e = &self.edges[j];
            push_str(&mut s, "  \"");
            push_str(&mut s, e.from.as_str());
            push_str(&mut s, "\" -> \"");
            push_str(&mut s, e.to.as_str());
            push_str(&mut s, "\" [label=\"");
            push_str(&mut s, e.required_version.as_str());
            push_str(&mut s, "\"];\n");
            assert(s@ =~= head2 + dot_edge_lines(ev.take(j + 1)));
            j = j + 1;
        }
        assert(ev.take(ev.len() as int) =~= ev);
        let ghost head3 = s@;
        let ghost cv = self.conflicts@.map_values(|c: VersionConflict| conflict_view(c));
        let mut k: usize = 0;
        while k < self.conflicts.len()
            invariant
                k <= self.conflicts@.len(),
                cv == self.conflicts@.map_values(|c: VersionConflict| conflict_view(c)),
                s@ == head3 + dot_conflict_lines(cv.take(k as int)),
            decreases self.conflicts@.len() - k,
        {
            assert(cv.take(k + 1).drop_last() =~= cv.take(k as int));
            push_str(&mut s, "  \"");
            push_str(&mut s, self.conflicts[k].name.as_str());
            push_str(&mut s, "\" [style=filled, fillcolor=red];\n");
            assert(s@ =~= head3 + dot_conflict_lines(cv.take(k + 1)));
            k = k + 1;
        }
        assert(cv.take(cv.len() as int) =~= cv);
        push_str(&mut s, "}\n");
        s
    }
}


// ---------------------------------------------------------------------------
// Building the graph
// ---------------------------------------------------------------------------

/// The root app as read from `app.json`: missing fields become "" except
/// the name ("Unknown") and the version ("0.0.0.0").
pub open spec fn root_app_of(json: Seq<char>) -> NodeV {
    (
        field_or(json, "id"@, Seq::empty()),
        field_or(json, "name"@, "Unknown"@),
        field_or(json, "publisher"@, Seq::empty()),
        field_or(json, "version"@, "0.0.0.0"@),
    )
}

/// Every edge of the graph: root app to its declared dependencies, then
/// each package to its own.
pub open spec fn all_edges(json: Seq<char>, pk: Seq<PackageEntry>) -> Seq<EdgeV> {
    root_edges(root_app_of(json).1, deps_of(json)) + pkg_edges(pk)
}

/// The keys of the root app's declared dependencies.
pub open spec fn direct_keys(deps: Seq<(Seq<char>, Seq<char>, Seq<char>)>) -> Seq<Seq<char>> {
    deps.map_values(|d: (Seq<char>, Seq<char>, Seq<char>)| node_key(d.0, d.1, d.2))
}

/// The value of `key` in `json`, or the text `dflt`.
fn field_or_text(json: &Vec<char>, key: &str, dflt: &str) -> (r: String)
    ensures
        r@ == field_or(json@, key@, dflt@),
{
    let k = chars_of(key);
    match extract_json_string(json, &k) {
        Some(v) => string_of(&v),
        None => dflt.to_owned(),
    }
}

/// The root app described by `app.json` (see [`root_app_of`]).
fn parse_root_app(app_json: &Vec<char>) -> (r: DepNode)
    ensures
        node_view(r) == root_app_of(app_json@),
{
    let name = field_or_text(app_json, "name", "Unknown");
    let publisher = field_or_text(app_json, "publisher", "");
    let version = field_or_text(app_json, "version", "0.0.0.0");
    let app_id = field_or_text(app_json, "id", "");
    proof {
        reveal_strlit("");
    }
    DepNode { app_id, name, publisher, version }
}

proof fn lemma_reach_same_direct(
    es: Seq<(Seq<char>, NodeV)>,
    edges: Seq<EdgeV>,
    rl: Seq<char>,
    d1: Seq<Seq<char>>,
    d2: Seq<Seq<char>>,
    n: nat,
    k: Seq<char>,
)
    requires
        forall|x: Seq<char>| d1.contains(x) <==> d2.contains(x),
    ensures
        reach_within(es, edges, rl, d1, n, k) == reach_within(es, edges, rl, d2, n, k),
    decreases n,
{
    if n == 0 {
        assert(d1.contains(k) == d2.contains(k));
    } else {
        let m = (n - 1) as nat;
        lemma_reach_same_direct(es, edges, rl, d1, d2, m, k);
        if exists|k0: Seq<char>| reach_within(es, edges, rl, d1, m, k0) && #[trigger] succ(es, edges, rl, k0, k) {
            let k0 = choose|k0: Seq<char>| reach_within(es, edges, rl, d1, m, k0) && #[trigger] succ(es, edges, rl, k0, k);
            lemma_reach_same_direct(es, edges, rl, d1, d2, m, k0);
        }
        if exists|k0: Seq<char>| reach_within(es, edges, rl, d2, m, k0) && #[trigger] succ(es, edges, rl, k0, k) {
            let k0 = choose|k0: Seq<char>| reach_within(es, edges, rl, d2, m, k0) && #[trigger] succ(es, edges, rl, k0, k);
            lemma_reach_same_direct(es, edges, rl, d1, d2, m, k0);
        }
    }
}

/// Builds the dependency graph of the app described by `app_json` over the
/// loaded `packages`.
pub fn build_dependency_graph(app_json: &str, packages: &[PackageEntry]) -> (r: DependencyGraph)
    requires
        app_json@.len() <= i64::MAX,
    ensures
        node_view(r.root_app) == root_app_of(app_json@),
        nodes_view(r.nodes@) == node_entries(packages@).map_values(|e: (Seq<char>, NodeV)| e.1),
        edges_view(r.edges@) == all_edges(app_json@, packages@),
        nodes_view(r.transitive@).no_duplicates(),
        forall|x: NodeV|
            #[trigger] nodes_view(r.transitive@).contains(x) <==> is_transitive(
                node_entries(packages@),
                all_edges(app_json@, packages@),
                lowercase(root_app_of(app_json@).1),
                direct_keys(deps_of(app_json@)),
                x,
            ),
        strs(r.missing@) == missing_of(
            all_edges(app_json@, packages@),
            loaded_names(node_entries(packages@)),
        ),
        r.conflicts@.map_values(|c: VersionConflict| conflict_view(c)) == conflicts_of(
            node_entries(packages@),
            req_table(all_edges(app_json@, packages@)),
        ),
{
    let json = chars_of(app_json);
    let root_app = parse_root_app(&json);
    let root_deps = parse_deps_from_app_json(&json);
    let ghost dv = root_deps@.map_values(|t: DepTriple| triple_view(t));
    let es = collect_nodes(packages);
    let ghost ev = entries_view(es@);
    proof {
        lemma_node_entries_wf(packages@);
    }
    // Edges: the root's declared dependencies, then each package's own.
    let mut edges: Vec<DepEdge> = Vec::new();
    let mut i: usize = 0;
    while i < root_deps.len()
        invariant
            i <= root_deps@.len(),
            dv == root_deps@.map_values(|t: DepTriple| triple_view(t)),
            edges_view(edges@) == root_edges(root_app.name@, dv.take(i as int)),
        decreases root_deps@.len() - i,
    {
        let ghost pe = edges@;
        let e = DepEdge {
            from: root_app.name.clone(),
            to: root_deps[i].0.clone(),
            required_version: root_deps[i].2.clone(),
        };
        edges.push(e);
        assert(edges_view(edges@) =~= edges_view(pe).push(edge_view(e)));
        assert(root_edges(root_app.name@, dv.take(i + 1)) =~= root_edges(
            root_app.name@,
            dv.take(i as int),
        ).push(edge_view(e)));
        i = i + 1;
    }
    assert(dv.take(dv.len() as int) =~= dv);
    let ghost root_part = edges_view(edges@);
    let mut p: usize = 0;
    while p < packages.len()
        invariant
            p <= packages@.len(),
            edges_view(edges@) == root_part + pkg_edges(packages@.take(p as int)),
        decreases packages@.len() - p,
    {
        let pkg = &packages[p];
        assert(packages@.take(p + 1).drop_last() =~= packages@.take(p as int));
        assert(packages@.take(p + 1).last() == *pkg);
        let ghost mid = edges_view(edges@);
        let ghost dm = pkg.3@.map_values(|d: DepTriple| (pkg.0@, d.0@, d.2@));
        let mut q: usize = 0;
        while q < pkg.3.len()
            invariant
                q <= pkg.3@.len(),
                dm == pkg.3@.map_values(|d: DepTriple| (pkg.0@, d.0@, d.2@)),
                edges_view(edges@) == mid + dm.take(q as int),
            decreases pkg.3@.len() - q,
        {
            let ghost pe = edges@;
            let e = DepEdge {
                from: pkg.0.clone(),
                to: pkg.3[q].0.clone(),
                required_version: pkg.3[q].2.clone(),
            };
            edges.push(e);
            assert(edges_view(edges@) =~= edges_view(pe).push(edge_view(e)));
            assert(dm.take(q + 1) =~= dm.take(q as int).push(edge_view(e)));
            q = q + 1;
        }
        assert(dm.take(dm.len() as int) =~= dm);
        p = p + 1;
    }
    assert(packages@.take(packages@.len() as int) =~= packages@);
    let ghost all = edges_view(edges@);
    assert(all == all_edges(app_json@, packages@));
    // Direct keys, each once.
    let mut direct: Vec<Vec<char>> = Vec::new();
    let ghost dk = direct_keys(dv);
    let mut d: usize = 0;
    while d < root_deps.len()
        invariant
            d <= root_deps@.len(),
            dv == root_deps@.map_values(|t: DepTriple| triple_view(t)),
            dk == direct_keys(dv),
            keys_view(direct@) == dedup(dk.take(d as int)),
        decreases root_deps@.len() - d,
    {
        assert(dk.take(d + 1).drop_last() =~= dk.take(d as int));
        let k = composite_key(
            root_deps[d].0.as_str(),
            root_deps[d].1.as_str(),
            root_deps[d].2.as_str(),
        );
        assert(dk.take(d + 1).last() == k@);
        if !keys_contain(&direct, &k) {
            let ghost pd = direct@;
            direct.push(k);
            assert(keys_view(direct@) =~= keys_view(pd).push(k@));
        }
        d = d + 1;
    }
    assert(dk.take(dk.len() as int) =~= dk);
    proof {
        lemma_dedup(dk);
    }
    let root_lower = lower_vec(&chars_of(root_app.name.as_str()));
    let transitive = find_transitive_deps(&root_lower, &direct, &edges, &es);
    proof {
        let d1 = keys_view(direct@);
        assert forall|k: Seq<char>| #[trigger] reachable(ev, all, root_lower@, d1, k)
            == reachable(ev, all, root_lower@, dk, k) by {
            if reachable(ev, all, root_lower@, d1, k) {
                let n = choose|n: nat| reach_within(ev, all, root_lower@, d1, n, k);
                lemma_reach_same_direct(ev, all, root_lower@, d1, dk, n, k);
            }
            if reachable(ev, all, root_lower@, dk, k) {
                let n = choose|n: nat| reach_within(ev, all, root_lower@, dk, n, k);
                lemma_reach_same_direct(ev, all, root_lower@, d1, dk, n, k);
            }
        }
        assert forall|x: NodeV| #[trigger] is_transitive(ev, all, root_lower@, d1, x)
            == is_transitive(ev, all, root_lower@, dk, x) by {
            if is_transitive(ev, all, root_lower@, d1, x) {
                let i = choose|i: int| 0 <= i < ev.len() && #[trigger] ev[i].1 == x && reachable(ev, all, root_lower@, d1, ev[i].0) && !d1.contains(ev[i].0);
                assert(reachable(ev, all, root_lower@, dk, ev[i].0));
            }
            if is_transitive(ev, all, root_lower@, dk, x) {
                let i = choose|i: int| 0 <= i < ev.len() && #[trigger] ev[i].1 == x && reachable(ev, all, root_lower@, dk, ev[i].0) && !dk.contains(ev[i].0);
                assert(reachable(ev, all, root_lower@, d1, ev[i].0));
            }
        }
    }
    let missing = find_missing(&edges, &es);
    let conflicts = find_version_conflicts(&edges, &es);
    let mut nodes: Vec<DepNode> = Vec::new();
    let mut t: usize = 0;
    while t < es.len()
        invariant
            t <= es@.len(),
            ev == entries_view(es@),
            nodes_view(nodes@) == ev.map_values(|e: (Seq<char>, NodeV)| e.1).take(t as int),
        decreases es@.len() - t,
    {
        let ghost pn = nodes@;
        let n = copy_node(&es[t].1);
        nodes.push(n);
        assert(nodes_view(nodes@) =~= nodes_view(pn).push(node_view(n)));
        assert(ev.map_values(|e: (Seq<char>, NodeV)| e.1).take(t + 1) =~= ev.map_values(
            |e: (Seq<char>, NodeV)| e.1,
        ).take(t as int).push(node_view(n)));
        t = t + 1;
    }
    assert(ev.map_values(|e: (Seq<char>, NodeV)| e.1).take(ev.len() as int) =~= ev.map_values(
        |e: (Seq<char>, NodeV)| e.1,
    ));
    DependencyGraph { root_app, nodes, edges, transitive, conflicts, missing }
}

} // verus!
