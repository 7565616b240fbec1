//! CodeLens entries: reference counts on procedures and the run status of
//! test procedures.

use vstd::prelude::*;

use super::Range;
use crate::numfmt::{digits, push_decimal};
use crate::text::{
    chars_of, lower_vec, lowercase, push_str, string_of, strip_char, strip_char_vec, strs, vec_eq,
};

verus! {

/// The kind of a CodeLens entry.
#[derive(Debug, Clone, PartialEq, Eq)]
pub enum CodeLensKind {
    /// How many times the procedure is referenced across the workspace.
    Reference(usize),
    /// A profiler timing and hit-count label.
    Profiler(String),
    /// The run status of a `[Test]` procedure.
    Test(TestLensStatus),
}

/// Status of a `[Test]` procedure as shown in a CodeLens.
#[derive(Debug, Clone, PartialEq, Eq)]
pub enum TestLensStatus {
    /// Never run.
    NotRun,
    /// Running now.
    Running,
    /// Last run passed, in this many milliseconds.
    Pass { duration_ms: u64 },
    /// Last run failed, with its error message when there is one.
    Fail { error: Option<String> },
    /// Last run was skipped.
    Skip,
}

/// A CodeLens entry.
#[derive(Debug, Clone)]
pub struct CodeLensEntry {
    /// The range of the declaration name.
    pub range: Range,
    /// The label, e.g. `3 references`.
    pub title: String,
    pub kind: CodeLensKind,
}

/// The label of a reference count: `1 reference`, else `<n> references`.
pub open spec fn reference_text(count: usize) -> Seq<char> {
    if count == 1 {
        "1 reference"@
    } else {
        digits(count as nat) + " references"@
    }
}

/// The label of a reference count.
pub fn reference_label(count: usize) -> (r: String)
    ensures
        r@ == reference_text(count),
{
    let mut s = String::new();
    if count == 1 {
        push_str(&mut s, "1 reference");
    } else {
        push_decimal(&mut s, count as u64);
        push_str(&mut s, " references");
    }
    s
}

/// The label of a test status.
pub open spec fn test_title(status: TestLensStatus) -> Seq<char> {
    match status {
        TestLensStatus::NotRun => "○ Not run"@,
        TestLensStatus::Running => "⟳ Running…"@,
        TestLensStatus::Pass { duration_ms } => "✓ Pass ("@ + digits(duration_ms as nat) + "ms)"@,
        TestLensStatus::Fail { error: Some(e) } => "✗ Fail: "@ + e@,
        TestLensStatus::Fail { error: None } => "✗ Fail"@,
        TestLensStatus::Skip => "⊘ Skip"@,
    }
}

/// The label of a test status, e.g. `✓ Pass (12ms)`.
pub fn test_lens_title(status: &TestLensStatus) -> (r: String)
    ensures
        r@ == test_title(*status),
{
    let mut s = String::new();
    match status {
        TestLensStatus::NotRun => push_str(&mut s, "○ Not run"),
        TestLensStatus::Running => push_str(&mut s, "⟳ Running…"),
        TestLensStatus::Pass { duration_ms } => {
            push_str(&mut s, "✓ Pass (");
            push_decimal(&mut s, *duration_ms);
            push_str(&mut s, "ms)");
        },
        TestLensStatus::Fail { error: Some(e) } => {
            push_str(&mut s, "✗ Fail: ");
            push_str(&mut s, e.as_str());
        },
        TestLensStatus::Fail { error: None } => push_str(&mut s, "✗ Fail"),
        TestLensStatus::Skip => push_str(&mut s, "⊘ Skip"),
    }
    s
}

/// The outcome of a recorded test run.
#[derive(Debug, Clone, Copy, PartialEq, Eq, Structural)]
pub enum TestStatus {
    Pass,
    Fail,
    Skip,
}

/// A recorded run of one test method.
#[derive(Debug, Clone)]
pub struct TestRunRecord {
    pub codeunit_id: i32,
    pub codeunit_name: String,
    pub method_name: String,
    pub status: TestStatus,
    pub duration_ms: Option<u64>,
    pub error: Option<String>,
    pub timestamp: u64,
}

/// What a file's test lenses are built from: its test codeunit's number,
/// the lowercased names of its `[Test]` procedures, and the recorded runs
/// when a result store is there.
#[derive(Debug, Clone)]
pub struct TestLensContext {
    pub codeunit_id: i32,
    pub test_proc_names_lower: Vec<String>,
    pub store_snapshot: Option<Vec<TestRunRecord>>,
}

/// A record is a run of method `lower` (compared lowercased) of codeunit `id`.
pub open spec fn record_matches(r: TestRunRecord, id: i32, lower: Seq<char>) -> bool {
    r.codeunit_id == id && lowercase(r.method_name@) == lower
}

/// The index of the latest matching record among the first `n` (the last of
/// those with the greatest timestamp), if any.
pub open spec fn latest_match(recs: Seq<TestRunRecord>, id: i32, lower: Seq<char>, n: int) -> Option<
    int,
>
    decreases n,
{
    if n <= 0 {
        None
    } else {
        let prev = latest_match(recs, id, lower, n - 1);
        if record_matches(recs[n - 1], id, lower) {
            match prev {
                Some(b) => if recs[n - 1].timestamp >= recs[b].timestamp {
                    Some(n - 1)
                } else {
                    Some(b)
                },
                None => Some(n - 1),
            }
        } else {
            prev
        }
    }
}

/// The lens status a record gives.
pub open spec fn status_of_record(r: TestRunRecord) -> TestLensStatus {
    match r.status {
        TestStatus::Pass => TestLensStatus::Pass {
            duration_ms: match r.duration_ms {
                Some(d) => d,
                None => 0,
            },
        },
        TestStatus::Fail => TestLensStatus::Fail { error: r.error },
        TestStatus::Skip => TestLensStatus::Skip,
    }
}

/// The status of a procedure: none unless it is a test; not run without a
/// store or a matching record; else what the latest matching record says.
pub open spec fn lens_status(ctx: TestLensContext, proc_name: Seq<char>) -> Option<TestLensStatus> {
    let lower = lowercase(proc_name);
    if !strs(ctx.test_proc_names_lower@).contains(lower) {
        None
    } else {
        match ctx.store_snapshot {
            None => Some(TestLensStatus::NotRun),
            Some(recs) => match latest_match(recs@, ctx.codeunit_id, lower, recs@.len() as int) {
                None => Some(TestLensStatus::NotRun),
                Some(i) => Some(status_of_record(recs@[i])),
            },
        }
    }
}

fn contains_string(v: &Vec<String>, s: &Vec<char>) -> (b: bool)
    ensures
        b == strs(v@).contains(s@),
{
    let mut i: usize = 0;
    while i < v.len()
        invariant
            i <= v@.len(),
            forall|j: int| 0 <= j < i ==> strs(v@)[j] != s@,
        decreases v@.len() - i,
    {
        assert(strs(v@)[i as int] == v@[i as int]@);
        if vec_eq(&chars_of(v[i].as_str()), s) {
            return true;
        }
        i = i + 1;
    }
    false
}

fn copy_opt(o: &Option<String>) -> (r: Option<String>)
    ensures
        r == *o,
{
    match o {
        Some(e) => Some(e.clone()),
        None => None,
    }
}

impl TestLensContext {
    /// The lens status of a procedure, or none when it is not a test.
    pub fn status_for(&self, proc_name: &str) -> (r: Option<TestLensStatus>)
        ensures
            r == lens_status(*self, proc_name@),
    {
        let lower = lower_vec(&chars_of(proc_name));
        if !contains_string(&self.test_proc_names_lower, &lower) {
            return None;
        }
        match &self.store_snapshot {
            None => Some(TestLensStatus::NotRun),
            Some(records) => {
                let mut best: Option<usize> = None;
                let mut k: usize = 0;
                while k < records.len()
                    invariant
                        k <= records@.len(),
                        lower@ == lowercase(proc_name@),
                        match best {
                            Some(b) => latest_match(records@, self.codeunit_id, lower@, k as int)
                                == Some(b as int) && b < k,
                            None => latest_match(records@, self.codeunit_id, lower@, k as int)
                                is None,
                        },
                    decreases records@.len() - k,
                {
                    let r = &records[k];
                    if r.codeunit_id == self.codeunit_id && vec_eq(
                        &lower_vec(&chars_of(r.method_name.as_str())),
                        &lower,
                    ) {
                        match best {
                            Some(b) => {
                                if r.timestamp >= records[b].timestamp {
                                    best = Some(k);
                                }
                            },
                            None => {
                                best = Some(k);
                            },
                        }
                    }
                    k = k + 1;
                }
                match best {
                    None => Some(TestLensStatus::NotRun),
                    Some(b) => {
                        let r = &records[b];
                        let status = match r.status {
                            TestStatus::Pass => TestLensStatus::Pass {
                                duration_ms: match r.duration_ms {
                                    Some(d) => d,
                                    None => 0,
                                },
                            },
                            TestStatus::Fail => TestLensStatus::Fail { error: copy_opt(&r.error) },
                            TestStatus::Skip => TestLensStatus::Skip,
                        };
                        Some(status)
                    },
                }
            },
        }
    }
}

// ---------------------------------------------------------------------------
// Reference counts
// ---------------------------------------------------------------------------

/// A call site found in a workspace file: the called name as written, and
/// the document and position where it stands.
#[derive(Debug, Clone)]
pub struct ReferenceSite {
    pub name: String,
    pub uri: String,
    pub line: u32,
    pub character: u32,
}

/// A position as plain values: document, line, character.
pub type LocV = (Seq<char>, u32, u32);

/// The name a site counts under: lowercased, without surrounding quotes.
pub open spec fn site_key(s: ReferenceSite) -> Seq<char> {
    lowercase(strip_char(s.name@, '"'))
}

pub open spec fn site_loc(s: ReferenceSite) -> LocV {
    (s.uri@, s.line, s.character)
}

/// The non-empty names of the first `n` sites, each once, in order of
/// first appearance.
pub open spec fn keys_upto(sites: Seq<ReferenceSite>, n: int) -> Seq<Seq<char>>
    decreases n,
{
    if n <= 0 || n > sites.len() {
        seq![]
    } else {
        let prev = keys_upto(sites, n - 1);
        let k = site_key(sites[n - 1]);
        if k.len() == 0 || prev.contains(k) {
            prev
        } else {
            prev.push(k)
        }
    }
}

/// The distinct positions among the first `n` sites that count under `k`,
/// each once, in order of first appearance.
pub open spec fn distinct_locs(sites: Seq<ReferenceSite>, k: Seq<char>, n: int) -> Seq<LocV>
    decreases n,
{
    if n <= 0 || n > sites.len() {
        seq![]
    } else {
        let prev = distinct_locs(sites, k, n - 1);
        if site_key(sites[n - 1]) == k && !prev.contains(site_loc(sites[n - 1])) {
            prev.push(site_loc(sites[n - 1]))
        } else {
            prev
        }
    }
}

proof fn lemma_no_key_no_locs(sites: Seq<ReferenceSite>, k: Seq<char>, n: int)
    requires
        k.len() > 0,
        !keys_upto(sites, n).contains(k),
    ensures
        distinct_locs(sites, k, n) == Seq::<LocV>::empty(),
    decreases n,
{
    if 0 < n <= sites.len() {
        let prev = keys_upto(sites, n - 1);
        if prev.contains(k) {
            let j = choose|j: int| 0 <= j < prev.len() && prev[j] == k;
            assert(keys_upto(sites, n)[j] == k);
        }
        lemma_no_key_no_locs(sites, k, n - 1);
        if site_key(sites[n - 1]) == k {
            assert(keys_upto(sites, n) == prev.push(k));
            assert(keys_upto(sites, n)[prev.len() as int] == k);
        }
    }
}

proof fn lemma_keys_distinct(sites: Seq<ReferenceSite>, n: int)
    ensures
        keys_upto(sites, n).no_duplicates(),
        forall|j: int| 0 <= j < keys_upto(sites, n).len() ==> (#[trigger] keys_upto(sites, n)[j]).len() > 0,
    decreases n,
{
    if 0 < n <= sites.len() {
        lemma_keys_distinct(sites, n - 1);
    }
}

/// Each distinct position is counted once.
pub proof fn lemma_locs_distinct(sites: Seq<ReferenceSite>, k: Seq<char>, n: int)
    ensures
        distinct_locs(sites, k, n).no_duplicates(),
        distinct_locs(sites, k, n).len() == distinct_locs(sites, k, n).to_set().len(),
    decreases n,
{
    if 0 < n <= sites.len() {
        lemma_locs_distinct(sites, k, n - 1);
    }
    distinct_locs(sites, k, n).unique_seq_to_set();
}

fn index_of_key(keys: &Vec<Vec<char>>, k: &Vec<char>) -> (r: Option<usize>)
    ensures
        match r {
            Some(j) => j < keys@.len() && keys@[j as int]@ == k@,
            None => forall|j: int| 0 <= j < keys@.len() ==> (#[trigger] keys@[j])@ != k@,
        },
{
    let mut j: usize = 0;
    while j < keys.len()
        invariant
            j <= keys@.len(),
            forall|t: int| 0 <= t < j ==> (#[trigger] keys@[t])@ != k@,
        decreases keys@.len() - j,
    {
        if vec_eq(&keys[j], k) {
            return Some(j);
        }
        j = j + 1;
    }
    None
}

pub open spec fn locs_view(v: Seq<(Vec<char>, u32, u32)>) -> Seq<LocV> {
    v.map_values(|l: (Vec<char>, u32, u32)| (l.0@, l.1, l.2))
}

fn contains_loc(locs: &Vec<(Vec<char>, u32, u32)>, uri: &Vec<char>, line: u32, character: u32) -> (b:
    bool)
    ensures
        b == locs_view(locs@).contains((uri@, line, character)),
{
    let mut j: usize = 0;
    while j < locs.len()
        invariant
            j <= locs@.len(),
            forall|t: int| 0 <= t < j ==> locs_view(locs@)[t] != (uri@, line, character),
        decreases locs@.len() - j,
    {
        if locs[j].1 == line && locs[j].2 == character && vec_eq(&locs[j].0, uri) {
            assert(locs_view(locs@)[j as int] == (uri@, line, character));
            return true;
        }
        j = j + 1;
    }
    false
}

/// How often each name is called across the workspace: for every name
/// that occurs (lowercased, quotes stripped, empty names left out), the
/// number of distinct positions calling it. Names come in order of first
/// appearance.
pub fn build_reference_counts(sites: &Vec<ReferenceSite>) -> (r: Vec<(String, usize)>)
    ensures
        r@.len() == keys_upto(sites@, sites@.len() as int).len(),
        forall|j: int|
            0 <= j < r@.len() ==> (#[trigger] r@[j]).0@ == keys_upto(sites@, sites@.len() as int)[j]
                && r@[j].1 == distinct_locs(sites@, r@[j].0@, sites@.len() as int).len(),
{
    let mut keys: Vec<Vec<char>> = Vec::new();
    let mut locs: Vec<Vec<(Vec<char>, u32, u32)>> = Vec::new();
    let mut i: usize = 0;
    while i < sites.len()
        invariant
            i <= sites@.len(),
            keys@.len() == locs@.len(),
            keys@.map_values(|v: Vec<char>| v@) == keys_upto(sites@, i as int),
            forall|j: int|
                0 <= j < locs@.len() ==> locs_view(#[trigger] locs@[j]@) == distinct_locs(
                    sites@,
                    keys@[j]@,
                    i as int,
                ),
        decreases sites@.len() - i,
    {
        let ghost kv = keys_upto(sites@, i as int);
        let site = &sites[i];
        let key = lower_vec(&strip_char_vec(&chars_of(site.name.as_str()), '"'));
        let uri = chars_of(site.uri.as_str());
        assert(key@ == site_key(sites@[i as int]));
        proof {
            lemma_keys_distinct(sites@, i as int);
        }
        if key.len() > 0 {
            match index_of_key(&keys, &key) {
                Some(j) => {
                    assert(kv[j as int] == key@);
                    assert(kv.contains(key@));
                    assert(keys_upto(sites@, i + 1) == kv);
                    let present = contains_loc(&locs[j], &uri, site.line, site.character);
                    if !present {
                        let ghost l0 = locs@;
                        let mut lj = locs.remove(j);
                        lj.push((uri, site.line, site.character));
                        locs.insert(j, lj);
                        proof {
                            assert forall|t: int| 0 <= t < locs@.len() implies locs_view(
                                #[trigger] locs@[t]@,
                            ) == distinct_locs(sites@, keys@[t]@, i + 1) by {
                                if t == j {
                                    assert(locs_view(locs@[t]@) =~= locs_view(l0[t]@).push(
                                        site_loc(sites@[i as int]),
                                    ));
                                } else {
                                    assert(locs@[t] == l0[t]);
                                    assert(kv[t] == keys@[t]@);
                                    assert(keys@[t]@ != key@);
                                }
                            }
                        }
                    } else {
                        proof {
                            assert forall|t: int| 0 <= t < locs@.len() implies locs_view(
                                #[trigger] locs@[t]@,
                            ) == distinct_locs(sites@, keys@[t]@, i + 1) by {
                                if t != j {
                                    assert(kv[t] == keys@[t]@);
                                    assert(keys@[t]@ != key@);
                                }
                            }
                        }
                    }
                },
                None => {
                    assert(!kv.contains(key@)) by {
                        if kv.contains(key@) {
                            let t = choose|t: int| 0 <= t < kv.len() && kv[t] == key@;
                            assert(keys@[t]@ == kv[t]);
                        }
                    }
                    proof {
                        lemma_no_key_no_locs(sites@, key@, i as int);
                    }
                    let ghost l0 = locs@;
                    let ghost k0 = keys@;
                    let mut first: Vec<(Vec<char>, u32, u32)> = Vec::new();
                    first.push((uri, site.line, site.character));
                    keys.push(key);
                    locs.push(first);
                    proof {
                        assert(keys@.map_values(|v: Vec<char>| v@) =~= kv.push(key@));
                        assert(keys_upto(sites@, i + 1) == kv.push(key@));
                        assert forall|t: int| 0 <= t < locs@.len() implies locs_view(
                            #[trigger] locs@[t]@,
                        ) == distinct_locs(sites@, keys@[t]@, i + 1) by {
                            if t < l0.len() {
                                assert(locs@[t] == l0[t]);
                                assert(keys@[t] == k0[t]);
                                assert(kv[t] == k0[t]@);
                                assert(k0[t]@ != key@);
                            } else {
                                assert(locs_view(locs@[t]@) =~= seq![site_loc(sites@[i as int])]);
                                assert(distinct_locs(sites@, key@, i as int) == Seq::<LocV>::empty());
                            }
                        }
                    }
                },
            }
        } else {
            assert(keys_upto(sites@, i + 1) == kv);
            proof {
                assert forall|t: int| 0 <= t < locs@.len() implies locs_view(#[trigger] locs@[t]@)
                    == distinct_locs(sites@, keys@[t]@, i + 1) by {
                    assert(kv[t] == keys@[t]@);
                }
            }
        }
        i = i + 1;
    }
    let ghost kv = keys_upto(sites@, sites@.len() as int);
    let mut out: Vec<(String, usize)> = Vec::new();
    let mut j: usize = 0;
    while j < keys.len()
        invariant
            j <= keys@.len(),
            keys@.len() == locs@.len(),
            keys@.map_values(|v: Vec<char>| v@) == kv,
            forall|t: int|
                0 <= t < locs@.len() ==> locs_view(#[trigger] locs@[t]@) == distinct_locs(
                    sites@,
                    keys@[t]@,
                    sites@.len() as int,
                ),
            out@.len() == j,
            forall|t: int|
                0 <= t < j ==> (#[trigger] out@[t]).0@ == kv[t] && out@[t].1 == distinct_locs(
                    sites@,
                    out@[t].0@,
                    sites@.len() as int,
                ).len(),
        decreases keys@.len() - j,
    {
        assert(kv[j as int] == keys@[j as int]@);
        assert(locs_view(locs@[j as int]@).len() == locs@[j as int]@.len());
        out.push((string_of(&keys[j]), locs[j].len()));
        j = j + 1;
    }
    out
}

// ---------------------------------------------------------------------------
// The lenses of a document
// ---------------------------------------------------------------------------

/// A procedure (or trigger or event) declared in the document: its name as
/// written and the range of that name.
#[derive(Debug, Clone)]
pub struct ProcSymbol {
    pub name: String,
    pub selection_range: Range,
}

/// The count recorded for `k` (the first entry with that name), 0 when
/// there is none.
pub open spec fn count_for(counts: Seq<(String, usize)>, k: Seq<char>) -> usize
    decreases counts.len(),
{
    if counts.len() == 0 {
        0
    } else if counts[0].0@ == k {
        counts[0].1
    } else {
        count_for(counts.drop_first(), k)
    }
}

/// A lens as plain values: range, title, kind.
pub type LensV = (Range, Seq<char>, CodeLensKind);

/// The lenses of the first `n` procedures: for each, a reference lens with
/// the count of its name (quotes stripped, lowercased), then a test lens
/// when there is a test context that gives the procedure a status.
pub open spec fn lenses_upto(
    procs: Seq<ProcSymbol>,
    counts: Seq<(String, usize)>,
    ctx: Option<TestLensContext>,
    n: int,
) -> Seq<LensV>
    decreases n,
{
    if n <= 0 || n > procs.len() {
        seq![]
    } else {
        let p = procs[n - 1];
        let raw = strip_char(p.name@, '"');
        let count = count_for(counts, lowercase(raw));
        let with_ref = lenses_upto(procs, counts, ctx, n - 1).push(
            (p.selection_range, reference_text(count), CodeLensKind::Reference(count)),
        );
        match ctx {
            Some(c) => match lens_status(c, raw) {
                Some(st) => with_ref.push((p.selection_range, test_title(st), CodeLensKind::Test(st))),
                None => with_ref,
            },
            None => with_ref,
        }
    }
}

pub open spec fn lens_view(l: CodeLensEntry) -> LensV {
    (l.range, l.title@, l.kind)
}

fn lookup_count(counts: &Vec<(String, usize)>, k: &Vec<char>) -> (r: usize)
    ensures
        r == count_for(counts@, k@),
{
    let mut j: usize = 0;
    assert(counts@.skip(0) =~= counts@);
    while j < counts.len()
        invariant
            j <= counts@.len(),
            count_for(counts@, k@) == count_for(counts@.skip(j as int), k@),
        decreases counts@.len() - j,
    {
        assert(counts@.skip(j as int)[0] == counts@[j as int]);
        if vec_eq(&chars_of(counts[j].0.as_str()), k) {
            return counts[j].1;
        }
        assert(counts@.skip(j as int).drop_first() =~= counts@.skip(j + 1));
        j = j + 1;
    }
    0
}

/// The reference and test lenses of a document's procedures, in order
/// (see [`lenses_upto`]); `counts` is what [`build_reference_counts`] gave
/// for the workspace.
pub fn procedure_lenses(
    procs: &Vec<ProcSymbol>,
    counts: &Vec<(String, usize)>,
    test_ctx: &Option<TestLensContext>,
) -> (r: Vec<CodeLensEntry>)
    ensures
        r@.map_values(|l: CodeLensEntry| lens_view(l)) == lenses_upto(
            procs@,
            counts@,
            *test_ctx,
            procs@.len() as int,
        ),
{
    let mut out: Vec<CodeLensEntry> = Vec::new();
    let mut i: usize = 0;
    assert(out@.map_values(|l: CodeLensEntry| lens_view(l)) =~= Seq::<LensV>::empty());
    while i < procs.len()
        invariant
            i <= procs@.len(),
            out@.map_values(|l: CodeLensEntry| lens_view(l)) == lenses_upto(
                procs@,
                counts@,
                *test_ctx,
                i as int,
            ),
        decreases procs@.len() - i,
    {
        let p = &procs[i];
        let raw = strip_char_vec(&chars_of(p.name.as_str()), '"');
        let count = lookup_count(counts, &lower_vec(&raw));
        let ghost o0 = out@.map_values(|l: CodeLensEntry| lens_view(l));
        out.push(
            CodeLensEntry {
                range: p.selection_range,
                title: reference_label(count),
                kind: CodeLensKind::Reference(count),
            },
        );
        assert(out@.map_values(|l: CodeLensEntry| lens_view(l)) =~= o0.push(
            (p.selection_range, reference_text(count), CodeLensKind::Reference(count)),
        ));
        match test_ctx {
            Some(ctx) => {
                let raw_s = string_of(&raw);
                match ctx.status_for(raw_s.as_str()) {
                    Some(status) => {
                        let ghost o1 = out@.map_values(|l: CodeLensEntry| lens_view(l));
                        let title = test_lens_title(&status);
                        out.push(
                            CodeLensEntry {
                                range: p.selection_range,
                                title,
                                kind: CodeLensKind::Test(status),
                            },
                        );
                        assert(out@.map_values(|l: CodeLensEntry| lens_view(l)) =~= o1.push(
                            (p.selection_range, test_title(status), CodeLensKind::Test(status)),
                        ));
                    },
                    None => {},
                }
            },
            None => {},
        }
        i = i + 1;
    }
    out
}

} // verus!
