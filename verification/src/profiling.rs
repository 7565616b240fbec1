//! CPU profiling sessions against a BC server.

use vstd::prelude::*;

use crate::launch::{trim_end_slashes, url_encode, url_encoded};
use crate::native_debug::{text2, text_of, JsonMembers};
use crate::numfmt::{digits, push_decimal};
use crate::text::{chars_of, push_str, vec_eq};

verus! {

/// Configuration of a CPU profiling session.
#[derive(Debug, Clone)]
pub struct ProfilingConfig {
    /// BC server base URL, e.g. `http://localhost:7049/BC`.
    pub server_url: String,
    /// BC company name (URL-encoded on use).
    pub company: String,
    /// Absolute directory for the downloaded `.alcpuprofile` files.
    pub output_dir: String,
    /// User name for Basic authentication.
    pub username: Option<String>,
    /// Password for Basic authentication; never serialized.
    pub password: Option<String>,
    /// Accept invalid or self-signed TLS certificates.
    pub accept_invalid_certs: bool,
}

// ---------------------------------------------------------------------------
// Hotspots of a CPU profile
// ---------------------------------------------------------------------------

/// The call frame of a profile node: its function name and its URL, each
/// when present as a string.
#[derive(Debug, Clone)]
pub struct CallFrame {
    pub function_name: Option<String>,
    pub url: Option<String>,
}

/// A node of a `.alcpuprofile` call tree as the hotspot analysis reads it.
#[derive(Debug, Clone)]
pub struct ProfileNode {
    /// `hitCount`, 0 when missing.
    pub hit_count: u64,
    /// `callFrame`, when present.
    pub call_frame: Option<CallFrame>,
    /// The node's own `object`, when present as a string.
    pub object: Option<String>,
}

/// A procedure with CPU time: how many samples hit it (one sample per
/// millisecond).
#[derive(Debug, Clone)]
pub struct Hotspot {
    pub procedure: String,
    pub object: Option<String>,
    pub hit_count: u64,
}

/// A hotspot as plain values: procedure, object, hit count.
pub type HotV = (Seq<char>, Option<Seq<char>>, u64);

pub open spec fn hot_view(h: Hotspot) -> HotV {
    (
        h.procedure@,
        match h.object {
            Some(o) => Some(o@),
            None => None,
        },
        h.hit_count,
    )
}

pub open spec fn hots_view(v: Seq<Hotspot>) -> Seq<HotV> {
    v.map_values(|h: Hotspot| hot_view(h))
}

/// The hotspot a node stands for, if any: nodes without a call frame, and
/// the engine's own nodes (an empty name, `(root)`, `(idle)`) stand for
/// none. A name that is missing reads `(anonymous)`; the object is the
/// frame's URL when that is a non-empty string, else the node's `object`.
pub open spec fn node_hotspot(n: ProfileNode) -> Option<HotV> {
    match n.call_frame {
        None => None,
        Some(cf) => {
            let name = match cf.function_name {
                Some(f) => f@,
                None => "(anonymous)"@,
            };
            if name.len() == 0 || name == "(root)"@ || name == "(idle)"@ {
                None
            } else {
                let object = match cf.url {
                    Some(u) if u@.len() > 0 => Some(u@),
                    _ => match n.object {
                        Some(o) => Some(o@),
                        None => None,
                    },
                };
                Some((name, object, n.hit_count))
            }
        },
    }
}

/// The hotspots of the first `k` nodes, in node order.
pub open spec fn candidates(nodes: Seq<ProfileNode>, k: int) -> Seq<HotV>
    decreases k,
{
    if k <= 0 || k > nodes.len() {
        seq![]
    } else {
        match node_hotspot(nodes[k - 1]) {
            Some(h) => candidates(nodes, k - 1).push(h),
            None => candidates(nodes, k - 1),
        }
    }
}

/// `s` with `x` placed before the first element with fewer hits.
pub open spec fn ins_desc(s: Seq<HotV>, x: HotV) -> Seq<HotV>
    decreases s.len(),
{
    if s.len() == 0 {
        seq![x]
    } else if s[0].2 < x.2 {
        seq![x] + s
    } else {
        seq![s[0]] + ins_desc(s.drop_first(), x)
    }
}

/// `s` sorted by hit count, most first; equal counts keep their order.
pub open spec fn sort_desc(s: Seq<HotV>) -> Seq<HotV>
    decreases s.len(),
{
    if s.len() == 0 {
        seq![]
    } else {
        ins_desc(sort_desc(s.drop_last()), s.last())
    }
}

/// No element has more hits than one before it.
pub open spec fn hits_descending(s: Seq<HotV>) -> bool {
    forall|i: int, j: int| 0 <= i < j < s.len() ==> s[j].2 <= s[i].2
}

/// The hotspots of a profile: those of its nodes, most hits first, at most
/// `top_n` of them.
pub open spec fn top_hotspots(nodes: Seq<ProfileNode>, top_n: nat) -> Seq<HotV> {
    let all = sort_desc(candidates(nodes, nodes.len() as int));
    if top_n < all.len() {
        all.take(top_n as int)
    } else {
        all
    }
}

proof fn lemma_ins_desc(s: Seq<HotV>, x: HotV)
    ensures
        ins_desc(s, x).to_multiset() == s.to_multiset().insert(x),
        ins_desc(s, x).len() == s.len() + 1,
        hits_descending(s) ==> hits_descending(ins_desc(s, x)),
    decreases s.len(),
{
    broadcast use vstd::seq_lib::group_to_multiset_ensures;
    broadcast use vstd::multiset::group_multiset_axioms;

    if s.len() == 0 {
        assert(seq![x] =~= Seq::<HotV>::empty().push(x));
    } else if s[0].2 < x.2 {
        assert(seq![x] + s =~= s.insert(0, x));
        vstd::seq_lib::to_multiset_insert(s, 0, x);
        if hits_descending(s) {
            let t = seq![x] + s;
            assert forall|i: int, j: int| 0 <= i < j < t.len() implies t[j].2 <= t[i].2 by {
                if i == 0 {
                    assert(t[j] == s[j - 1]);
                    assert(s[j - 1].2 <= s[0].2);
                } else {
                    assert(t[i] == s[i - 1]);
                    assert(t[j] == s[j - 1]);
                }
            }
        }
    } else {
        let r = s.drop_first();
        lemma_ins_desc(r, x);
        let u = ins_desc(r, x);
        assert(seq![s[0]] + u =~= u.insert(0, s[0]));
        vstd::seq_lib::to_multiset_insert(u, 0, s[0]);
        assert(s =~= r.insert(0, s[0]));
        vstd::seq_lib::to_multiset_insert(r, 0, s[0]);
        if hits_descending(s) {
            assert(hits_descending(r)) by {
                assert forall|i: int, j: int| 0 <= i < j < r.len() implies r[j].2 <= r[i].2 by {
                    assert(r[i] == s[i + 1]);
                    assert(r[j] == s[j + 1]);
                }
            }
            let t = seq![s[0]] + u;
            assert forall|i: int, j: int| 0 <= i < j < t.len() implies t[j].2 <= t[i].2 by {
                if i == 0 {
                    assert(t[j] == u[j - 1]);
                    assert(u.to_multiset().count(u[j - 1]) > 0);
                    assert(u.to_multiset().count(u[j - 1]) == r.to_multiset().insert(x).count(u[j - 1]));
                    if u[j - 1] != x {
                        assert(r.to_multiset().count(u[j - 1]) > 0);
                        assert(r.contains(u[j - 1]));
                        let m = choose|m: int| 0 <= m < r.len() && r[m] == u[j - 1];
                        assert(s[m + 1] == u[j - 1]);
                    }
                } else {
                    assert(t[i] == u[i - 1]);
                    assert(t[j] == u[j - 1]);
                }
            }
        }
    }
}

/// Sorting by hit count orders the hotspots and keeps every one of them.
pub proof fn lemma_sort_desc(s: Seq<HotV>)
    ensures
        hits_descending(sort_desc(s)),
        sort_desc(s).to_multiset() == s.to_multiset(),
        sort_desc(s).len() == s.len(),
    decreases s.len(),
{
    broadcast use vstd::seq_lib::group_to_multiset_ensures;

    if s.len() > 0 {
        lemma_sort_desc(s.drop_last());
        lemma_ins_desc(sort_desc(s.drop_last()), s.last());
        assert(s =~= s.drop_last().push(s.last()));
    }
}

fn text_is(s: &str, lit: &str) -> (r: bool)
    ensures
        r == (s@ == lit@),
{
    vec_eq(&chars_of(s), &chars_of(lit))
}

fn node_hotspot_exec(n: &ProfileNode) -> (r: Option<Hotspot>)
    ensures
        match r {
            Some(h) => node_hotspot(*n) == Some(hot_view(h)),
            None => node_hotspot(*n) is None,
        },
{
    let cf = match &n.call_frame {
        None => return None,
        Some(cf) => cf,
    };
    let name: String = match &cf.function_name {
        Some(f) => f.clone(),
        None => "(anonymous)".to_string(),
    };
    if name.as_str().is_empty() || text_is(name.as_str(), "(root)") || text_is(name.as_str(), "(idle)") {
        proof {
            reveal_strlit("(anonymous)");
            reveal_strlit("(root)");
        }
        return None;
    }
    proof {
        reveal_strlit("(anonymous)");
    }
    let object = match &cf.url {
        Some(u) if !u.as_str().is_empty() => Some(u.clone()),
        _ => match &n.object {
            Some(o) => Some(o.clone()),
            None => None,
        },
    };
    Some(Hotspot { procedure: name, object, hit_count: n.hit_count })
}

/// The hotspots of a profile's nodes: one per node that stands for a
/// procedure (see [`node_hotspot`]), most hits first, nodes with equal hits
/// in the order they came, cut to the first `top_n`.
pub fn select_hotspots(nodes: &Vec<ProfileNode>, top_n: usize) -> (r: Vec<Hotspot>)
    ensures
        hots_view(r@) == top_hotspots(nodes@, top_n as nat),
        hits_descending(hots_view(r@)),
        r@.len() <= top_n,
        hots_view(r@).to_multiset().sub(candidates(nodes@, nodes@.len() as int).to_multiset())
            =~= vstd::multiset::Multiset::empty(),
{
    let mut out: Vec<Hotspot> = Vec::new();
    let ghost mut cands: Seq<HotV> = seq![];
    let mut i: usize = 0;
    assert(hots_view(out@) =~= sort_desc(Seq::<HotV>::empty()));
    while i < nodes.len()
        invariant
            i <= nodes@.len(),
            cands == candidates(nodes@, i as int),
            hots_view(out@) == sort_desc(cands),
        decreases nodes@.len() - i,
    {
        match node_hotspot_exec(&nodes[i]) {
            None => {},
            Some(h) => {
                let ghost before = hots_view(out@);
                let mut p: usize = 0;
                assert(before.skip(0) =~= before);
                while p < out.len() && out[p].hit_count >= h.hit_count
                    invariant
                        p <= out@.len(),
                        hots_view(out@) == before,
                        ins_desc(before, hot_view(h)) == before.take(p as int) + ins_desc(
                            before.skip(p as int),
                            hot_view(h),
                        ),
                    decreases out@.len() - p,
                {
                    proof {
                        let rr = before.skip(p as int);
                        assert(rr[0] == before[p as int]);
                        assert(before[p as int] == hot_view(out@[p as int]));
                        assert(rr.drop_first() =~= before.skip(p + 1));
                        assert(before.take(p as int) + (seq![before[p as int]] + ins_desc(
                            before.skip(p + 1),
                            hot_view(h),
                        )) =~= before.take(p + 1) + ins_desc(before.skip(p + 1), hot_view(h)));
                    }
                    p = p + 1;
                }
                proof {
                    let rr = before.skip(p as int);
                    if p < before.len() {
                        assert(rr[0] == before[p as int]);
                        assert(before[p as int] == hot_view(out@[p as int]));
                    }
                    assert(ins_desc(rr, hot_view(h)) == seq![hot_view(h)] + rr);
                    assert(before.take(p as int) + (seq![hot_view(h)] + rr) =~= before.insert(
                        p as int,
                        hot_view(h),
                    ));
                }
                let ghost hv = hot_view(h);
                out.insert(p, h);
                proof {
                    assert(hots_view(out@) =~= before.insert(p as int, hv));
                    cands = cands.push(hv);
                    assert(cands.drop_last() =~= candidates(nodes@, i as int));
                }
            },
        }
        proof {
            if node_hotspot(nodes@[i as int]) is None {
                assert(candidates(nodes@, i + 1) == candidates(nodes@, i as int));
            }
        }
        i = i + 1;
    }
    proof {
        lemma_sort_desc(cands);
    }
    let ghost all = hots_view(out@);
    if top_n < out.len() {
        out.truncate(top_n);
        assert(hots_view(out@) =~= all.take(top_n as int));
    }
    proof {
        broadcast use vstd::multiset::group_multiset_axioms;
        assert forall|i: int, j: int| 0 <= i < j < hots_view(out@).len() implies hots_view(out@)[j].2
            <= hots_view(out@)[i].2 by {
            assert(hots_view(out@)[i] == all[i]);
            assert(hots_view(out@)[j] == all[j]);
        }
        vstd::seq_lib::lemma_multiset_commutative(all.take(hots_view(out@).len() as int), all.skip(hots_view(out@).len() as int));
        assert(all.take(hots_view(out@).len() as int) + all.skip(hots_view(out@).len() as int) =~= all);
        assert(hots_view(out@) =~= all.take(hots_view(out@).len() as int));
    }
    out
}

// ---------------------------------------------------------------------------
// Talking to the profiler endpoints
// ---------------------------------------------------------------------------

/// The URL of profiler endpoint `action` (`start` or `stop`): the server
/// URL without trailing slashes, `/dev/profiler/<action>`, and the company
/// URL-encoded as the `company` query parameter.
pub open spec fn profiler_url_text(server_url: Seq<char>, company: Seq<char>, action: Seq<char>) -> Seq<char> {
    trim_end_slashes(server_url) + "/dev/profiler/"@ + action + "?company="@ + url_encoded(company)
}

/// The URL of a profiler endpoint for a session's configuration (see
/// [`profiler_url_text`]).
pub fn profiler_url(config: &ProfilingConfig, action: &str) -> (r: String)
    ensures
        r@ == profiler_url_text(config.server_url@, config.company@, action@),
{
    let sv = chars_of(config.server_url.as_str());
    let mut e = sv.len();
    assert(sv@.take(e as int) =~= sv@);
    while e > 0 && sv[e - 1] == '/'
        invariant
            e <= sv@.len(),
            trim_end_slashes(sv@) == trim_end_slashes(sv@.take(e as int)),
        decreases e,
    {
        assert(sv@.take(e as int).drop_last() =~= sv@.take(e - 1));
        e = e - 1;
    }
    let mut url = String::new();
    let mut k: usize = 0;
    while k < e
        invariant
            k <= e <= sv@.len(),
            url@ == sv@.take(k as int),
        decreases e - k,
    {
        url.push(sv[k]);
        assert(sv@.take(k + 1) =~= sv@.take(k as int).push(sv@[k as int]));
        k = k + 1;
    }
    proof {
        let t = sv@.take(e as int);
        if e > 0 {
            assert(t.last() == sv@[e - 1]);
        }
        assert(trim_end_slashes(t) == t);
    }
    push_str(&mut url, "/dev/profiler/");
    push_str(&mut url, action);
    push_str(&mut url, "?company=");
    push_str(&mut url, url_encode(config.company.as_str()).as_str());
    url
}

/// The session id a start reply carries: `id`, else `sessionId`, when it
/// is a non-empty string.
pub open spec fn reply_session_id(reply: Seq<(String, crate::native_debug::JsonScalar)>) -> Option<Seq<char>> {
    match text2(reply, "id"@, "sessionId"@) {
        Some(s) => if s.len() > 0 {
            Some(s)
        } else {
            None
        },
        None => None,
    }
}

/// The session id of a start reply (see [`reply_session_id`]); `None`
/// means no session is active.
pub fn start_session_id(reply: &JsonMembers) -> (r: Option<String>)
    ensures
        match r {
            Some(s) => reply_session_id(reply@) == Some(s@),
            None => reply_session_id(reply@) is None,
        },
{
    match text_of(reply, "id", "sessionId", None) {
        Some(s) => if s.as_str().is_empty() {
            None
        } else {
            Some(s)
        },
        None => None,
    }
}

/// The name a downloaded profile is saved under: `profile-<secs>.alcpuprofile`,
/// `secs` being the seconds since the Unix epoch at download time.
pub fn profile_file_name(secs: u64) -> (r: String)
    ensures
        r@ == "profile-"@ + digits(secs as nat) + ".alcpuprofile"@,
{
    let mut s = String::new();
    push_str(&mut s, "profile-");
    push_decimal(&mut s, secs);
    push_str(&mut s, ".alcpuprofile");
    s
}

} // verus!
