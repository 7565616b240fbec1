//! AL project model: the `app.json` manifest, the dependencies it implies,
//! the package files worth loading, and the public NuGet feeds.
//!
//! Finding the project on disk and listing `.alpackages` is the caller's
//! part; this module decides what the files found mean.

use vstd::prelude::*;

use crate::launch::{AppDependency, BcServerConfig};
use crate::numfmt::{digits, push_decimal};
use crate::text::{
    chars_of, index_of_char, lowercase, opt_view, push_str, starts_with, string_of, strs,
};

verus! {

/// A discovered AL project.
#[derive(Debug, Clone)]
pub struct AlProject {
    pub root: String,
    pub app_json: AppManifest,
    pub packages_dir: String,
    pub packages: Vec<String>,
    /// Server configs from the debug configuration, for downloading symbols.
    pub server_configs: Vec<BcServerConfig>,
}

/// Parsed app.json manifest.
#[derive(Debug, Clone)]
pub struct AppManifest {
    pub id: String,
    pub name: String,
    pub publisher: String,
    pub version: String,
    pub dependencies: Vec<AppDependency>,
    pub application: Option<String>,
    pub platform: Option<String>,
    pub runtime: Option<String>,
}

/// A NuGet feed for BC symbol packages.
#[derive(Debug, Clone)]
pub struct NuGetFeed {
    pub name: String,
    pub index_url: String,
}

/// A dependency as plain text: id, name, publisher, version.
pub type DepV = (Seq<char>, Seq<char>, Seq<char>, Seq<char>);

pub open spec fn dep_view(d: AppDependency) -> DepV {
    (d.id@, d.name@, d.publisher@, d.version@)
}

pub open spec fn deps_view(v: Seq<AppDependency>) -> Seq<DepV> {
    v.map_values(|d: AppDependency| dep_view(d))
}

/// `deps` with a Microsoft dependency `(id, name, version)` added unless a
/// dependency with that id is already there.
pub open spec fn with_implicit(deps: Seq<DepV>, id: Seq<char>, name: Seq<char>, version: Seq<char>) -> Seq<
    DepV,
> {
    if exists|i: int| 0 <= i < deps.len() && #[trigger] deps[i].0 == id {
        deps
    } else {
        deps.push((id, name, "Microsoft"@, version))
    }
}

/// The version of the implicit System dependency: the major of the
/// `application` version as `N.0.0.0`, or the current BC major when there
/// is no `application`.
pub open spec fn platform_version(application: Option<Seq<char>>) -> Seq<char> {
    match application {
        Some(v) => v.take(index_of_char(v, '.') as int) + ".0.0.0"@,
        None => "26.0.0.0"@,
    }
}

/// The full dependency list of a manifest: its own dependencies, then, when
/// it names an `application` version, Application, Base Application,
/// Business Foundation and System Application at that version, then, when
/// it names a `platform`, System — each only if no dependency with its id
/// is already listed.
pub open spec fn all_deps(m: AppManifest) -> Seq<DepV> {
    let d0 = deps_view(m.dependencies@);
    let d1 = match opt_view(m.application) {
        Some(av) => with_implicit(
            with_implicit(
                with_implicit(
                    with_implicit(d0, "c1335042-3002-4257-bf8a-75c898ccb1b8"@, "Application"@, av),
                    "437dbf0e-84ff-417a-965d-ed2bb9650972"@,
                    "Base Application"@,
                    av,
                ),
                "f3552374-a1f2-4356-848e-196002525837"@,
                "Business Foundation"@,
                av,
            ),
            "63ca2fa4-4f03-4f2b-a480-172fef340d3f"@,
            "System Application"@,
            av,
        ),
        None => d0,
    };
    if m.platform is Some {
        with_implicit(
            d1,
            "8874ed3a-0643-4247-9ced-7a7002f7135d"@,
            "System"@,
            platform_version(opt_view(m.application)),
        )
    } else {
        d1
    }
}

fn copy_dep(d: &AppDependency) -> (r: AppDependency)
    ensures
        dep_view(r) == dep_view(*d),
{
    AppDependency {
        id: d.id.clone(),
        name: d.name.clone(),
        publisher: d.publisher.clone(),
        version: d.version.clone(),
    }
}

/// Adds a Microsoft dependency unless its id is already listed.
fn add_implicit(deps: &mut Vec<AppDependency>, id: &str, name: &str, version: &String)
    ensures
        deps_view(final(deps)@) == with_implicit(deps_view(old(deps)@), id@, name@, version@),
{
    let target = chars_of(id);
    let mut i: usize = 0;
    while i < deps.len()
        invariant
            i <= deps@.len(),
            target@ == id@,
            forall|j: int| 0 <= j < i ==> deps@[j].id@ != id@,
        decreases deps@.len() - i,
    {
        if crate::text::vec_eq(&chars_of(deps[i].id.as_str()), &target) {
            assert(deps_view(deps@)[i as int].0 == id@);
            return;
        }
        i = i + 1;
    }
    assert(!exists|j: int|
        0 <= j < deps_view(deps@).len() && #[trigger] deps_view(deps@)[j].0 == id@) by {
        if exists|j: int| 0 <= j < deps_view(deps@).len() && #[trigger] deps_view(deps@)[j].0 == id@ {
            let j = choose|j: int| 0 <= j < deps_view(deps@).len() && #[trigger] deps_view(deps@)[j].0 == id@;
            assert(deps@[j].id@ == id@);
        }
    }
    let ghost d0 = deps_view(deps@);
    let d = AppDependency {
        id: id.to_owned(),
        name: name.to_owned(),
        publisher: "Microsoft".to_owned(),
        version: version.clone(),
    };
    deps.push(d);
    assert(deps_view(deps@) =~= d0.push(dep_view(d)));
}

impl AlProject {
    /// The full dependency list including the implicit BC dependencies (see
    /// [`all_deps`]).
    pub fn all_dependencies(&self) -> (r: Vec<AppDependency>)
        ensures
            deps_view(r@) == all_deps(self.app_json),
    {
        let m = &self.app_json;
        let mut deps: Vec<AppDependency> = Vec::new();
        let mut i: usize = 0;
        while i < m.dependencies.len()
            invariant
                i <= m.dependencies@.len(),
                deps_view(deps@) == deps_view(m.dependencies@).take(i as int),
            decreases m.dependencies@.len() - i,
        {
            let ghost d0 = deps_view(deps@);
            let d = copy_dep(&m.dependencies[i]);
            deps.push(d);
            assert(deps_view(deps@) =~= d0.push(dep_view(d)));
            assert(deps_view(m.dependencies@).take(i + 1) =~= deps_view(m.dependencies@).take(
                i as int,
            ).push(dep_view(m.dependencies@[i as int])));
            i = i + 1;
        }
        assert(deps_view(m.dependencies@).take(m.dependencies@.len() as int) =~= deps_view(
            m.dependencies@,
        ));
        if let Some(av) = &m.application {
            add_implicit(&mut deps, "c1335042-3002-4257-bf8a-75c898ccb1b8", "Application", av);
            add_implicit(
                &mut deps,
                "437dbf0e-84ff-417a-965d-ed2bb9650972",
                "Base Application",
                av,
            );
            add_implicit(
                &mut deps,
                "f3552374-a1f2-4356-848e-196002525837",
                "Business Foundation",
                av,
            );
            add_implicit(
                &mut deps,
                "63ca2fa4-4f03-4f2b-a480-172fef340d3f",
                "System Application",
                av,
            );
        }
        if m.platform.is_some() {
            let version = match &m.application {
                Some(v) => {
                    let cv = chars_of(v.as_str());
                    let dot = crate::text::find_char_in(&cv, '.', 0, cv.len());
                    assert(cv@.subrange(0, cv@.len() as int) =~= cv@);
                    let major = crate::text::copy_range(&cv, 0, dot);
                    assert(major@ =~= cv@.take(dot as int));
                    let mut s = string_of(&major);
                    push_str(&mut s, ".0.0.0");
                    s
                },
                None => "26.0.0.0".to_owned(),
            };
            add_implicit(&mut deps, "8874ed3a-0643-4247-9ced-7a7002f7135d", "System", &version);
        }
        deps
    }
}

/// The public BC NuGet feeds, in order: BC Symbols, AppSource Symbols,
/// MS Apps.
pub open spec fn feed_list() -> Seq<(Seq<char>, Seq<char>)> {
    seq![
        ("BC Symbols"@, "https://dynamicssmb2.pkgs.visualstudio.com/DynamicsBCPublicFeeds/_packaging/MSSymbols/nuget/v3/index.json"@),
        ("AppSource Symbols"@, "https://dynamicssmb2.pkgs.visualstudio.com/DynamicsBCPublicFeeds/_packaging/AppSourceSymbols/nuget/v3/index.json"@),
        ("MS Apps"@, "https://dynamicssmb2.pkgs.visualstudio.com/DynamicsBCPublicFeeds/_packaging/MSApps/nuget/v3/index.json"@),
    ]
}

/// Returns the 3 public BC NuGet feeds (Azure DevOps hosted).
pub fn nuget_feeds() -> (r: Vec<NuGetFeed>)
    ensures
        r@.map_values(|f: NuGetFeed| (f.name@, f.index_url@)) == feed_list(),
{
    let mut v: Vec<NuGetFeed> = Vec::new();
    v.push(NuGetFeed {
        name: "BC Symbols".to_owned(),
        index_url: "https://dynamicssmb2.pkgs.visualstudio.com/DynamicsBCPublicFeeds/_packaging/MSSymbols/nuget/v3/index.json".to_owned(),
    });
    v.push(NuGetFeed {
        name: "AppSource Symbols".to_owned(),
        index_url: "https://dynamicssmb2.pkgs.visualstudio.com/DynamicsBCPublicFeeds/_packaging/AppSourceSymbols/nuget/v3/index.json".to_owned(),
    });
    v.push(NuGetFeed {
        name: "MS Apps".to_owned(),
        index_url: "https://dynamicssmb2.pkgs.visualstudio.com/DynamicsBCPublicFeeds/_packaging/MSApps/nuget/v3/index.json".to_owned(),
    });
    assert(v@.map_values(|f: NuGetFeed| (f.name@, f.index_url@)) =~= feed_list());
    v
}

// ---------------------------------------------------------------------------
// Limits and filters of the on-disk discovery
// ---------------------------------------------------------------------------

/// Largest `app.json` that is read, in bytes.
pub const MAX_APP_JSON_BYTES: u64 = 1_048_576;

/// The refusal for an `app.json` of `size` bytes, when it is over the cap.
pub open spec fn app_json_size_refusal(size: u64) -> Option<Seq<char>> {
    if size > MAX_APP_JSON_BYTES {
        Some("app.json is "@ + digits(size as nat) + " bytes — refusing to parse (cap = "@ + digits(
            MAX_APP_JSON_BYTES as nat,
        ) + " bytes)"@)
    } else {
        None
    }
}

/// The refusal message for an oversized `app.json` (see
/// [`app_json_size_refusal`]).
pub fn app_json_size_check(size: u64) -> (r: Option<String>)
    ensures
        r matches Some(m) ==> app_json_size_refusal(size) == Some(m@),
        r is None ==> app_json_size_refusal(size) is None,
{
    if size > MAX_APP_JSON_BYTES {
        let mut m = "app.json is ".to_owned();
        push_decimal(&mut m, size);
        push_str(&mut m, " bytes — refusing to parse (cap = ");
        push_decimal(&mut m, MAX_APP_JSON_BYTES);
        push_str(&mut m, " bytes)");
        Some(m)
    } else {
        None
    }
}

/// Whether the downward project search looks into a subdirectory: not
/// hidden and not `node_modules`.
pub fn searches_subdir(name: &str) -> (b: bool)
    ensures
        b == (!starts_with(name@, "."@) && name@ != "node_modules"@),
{
    let v = chars_of(name);
    !crate::text::vec_starts_with(&v, ".") && !crate::text::vec_eq(&v, &chars_of("node_modules"))
}

/// Whether a file extension marks a symbol package (`app`, any ASCII case).
pub fn is_app_package_ext(ext: &str) -> (b: bool)
    ensures
        b == crate::text::eq_ignore_ascii_case(ext@, "app"@),
{
    crate::text::eq_ignore_case(&chars_of(ext), &chars_of("app"))
}


// ---------------------------------------------------------------------------
// Package versions
// ---------------------------------------------------------------------------

/// What `Path::file_stem` returns for a path, as text: the file name
/// without its last extension; `None` when the path has no file name.
pub uninterp spec fn path_file_stem(p: Seq<char>) -> Option<Seq<char>>;

/// `std::path::Path::file_stem` of `path`, as text; the result is
/// [`path_file_stem`] of the path (the stem of a `&str` path is always
/// valid UTF-8, so `to_str` does not fail here).
#[verifier::external_body]
fn file_stem_of(path: &str) -> (r: Option<String>)
    ensures
        r matches Some(s) ==> path_file_stem(path@) == Some(s@),
        r is None ==> path_file_stem(path@) is None,
{
    match std::path::Path::new(path).file_stem() {
        Some(s) => match s.to_str() {
            Some(t) => Some(t.to_owned()),
            None => None,
        },
        None => None,
    }
}

/// The value of a string of decimal digits.
pub open spec fn decimal_value(s: Seq<char>) -> nat
    decreases s.len(),
{
    if s.len() == 0 {
        0
    } else {
        decimal_value(s.drop_last()) * 10 + digit_val(s.last())
    }
}

/// The value of a decimal digit character (0 for other characters).
pub open spec fn digit_val(c: char) -> nat {
    if '0' <= c <= '9' {
        (c as u32 - 48) as nat
    } else {
        0
    }
}

/// All characters are ASCII digits.
pub open spec fn all_digits(s: Seq<char>) -> bool {
    forall|i: int| 0 <= i < s.len() ==> '0' <= #[trigger] s[i] <= '9'
}

/// `u64::from_str`: an optional `+` then at least one digit, the value
/// fitting in `u64`.
pub open spec fn parse_u64(s: Seq<char>) -> Option<u64> {
    let d = if s.len() > 0 && s[0] == '+' {
        s.skip(1)
    } else {
        s
    };
    if d.len() > 0 && all_digits(d) && decimal_value(d) <= u64::MAX {
        Some(decimal_value(d) as u64)
    } else {
        None
    }
}

/// The pieces of `s` between `.` separators (`str::split('.')`; at least
/// one piece).
pub open spec fn split_dots(s: Seq<char>) -> Seq<Seq<char>>
    decreases s.len(),
{
    let i = index_of_char(s, '.');
    if i < s.len() {
        seq![s.take(i as int)] + split_dots(s.skip(i as int + 1))
    } else {
        seq![s]
    }
}

/// Every piece parsed as `u64`, or `None` when one does not parse.
pub open spec fn parse_all(pieces: Seq<Seq<char>>) -> Option<Seq<u64>>
    decreases pieces.len(),
{
    if pieces.len() == 0 {
        Some(Seq::empty())
    } else {
        match (parse_u64(pieces[0]), parse_all(pieces.drop_first())) {
            (Some(v), Some(rest)) => Some(seq![v] + rest),
            _ => None,
        }
    }
}

/// A package file named `<prefix>_<dotted numeric version>.<ext>`: its
/// lowercase prefix and version numbers.
pub open spec fn versioned(path: Seq<char>) -> Option<(Seq<char>, Seq<u64>)> {
    match path_file_stem(path) {
        None => None,
        Some(stem) => if exists|i: int| crate::text::last_at(stem, seq!['_'], i) {
            let i = choose|i: int| crate::text::last_at(stem, seq!['_'], i);
            match parse_all(split_dots(stem.skip(i + 1))) {
                Some(parts) => if parts.len() > 0 {
                    Some((lowercase(stem.take(i)), parts))
                } else {
                    None
                },
                None => None,
            }
        } else {
            None
        },
    }
}

/// Lexicographic `a < b` on version numbers (as `Vec<u64>` orders).
pub open spec fn version_lt(a: Seq<u64>, b: Seq<u64>) -> bool
    decreases a.len(),
{
    if a.len() == 0 {
        b.len() > 0
    } else if b.len() == 0 {
        false
    } else if a[0] != b[0] {
        a[0] < b[0]
    } else {
        version_lt(a.drop_first(), b.drop_first())
    }
}

/// `version_lt` is `Vec<u64>`'s lexicographic order: `a < b` exactly when,
/// after a common prefix of length `i`, either `a` ends and `b` goes on, or
/// both go on and `a[i] < b[i]`.
pub proof fn lemma_version_lt_lexicographic(a: Seq<u64>, b: Seq<u64>)
    ensures
        version_lt(a, b) <==> exists|i: int|
            0 <= i <= a.len() && i <= b.len() && #[trigger] a.take(i) == b.take(i) && ((i == a.len() && a.len()
                < b.len()) || (i < a.len() && i < b.len() && a[i] < b[i])),
    decreases a.len(),
{
    if a.len() == 0 {
        if b.len() > 0 {
            assert(a.take(0) =~= b.take(0));
        }
    } else if b.len() == 0 {
    } else if a[0] != b[0] {
        if a[0] < b[0] {
            assert(a.take(0) =~= b.take(0));
        }
        if exists|i: int|
            0 <= i <= a.len() && i <= b.len() && #[trigger] a.take(i) == b.take(i) && ((i == a.len() && a.len()
                < b.len()) || (i < a.len() && i < b.len() && a[i] < b[i])) {
            let i = choose|i: int|
                0 <= i <= a.len() && i <= b.len() && #[trigger] a.take(i) == b.take(i) && ((i == a.len() && a.len()
                    < b.len()) || (i < a.len() && i < b.len() && a[i] < b[i]));
            if i > 0 {
                assert(a.take(i)[0] == b.take(i)[0]);
            }
        }
    } else {
        let ta = a.drop_first();
        let tb = b.drop_first();
        lemma_version_lt_lexicographic(ta, tb);
        if version_lt(ta, tb) {
            let i = choose|i: int|
                0 <= i <= ta.len() && i <= tb.len() && #[trigger] ta.take(i) == tb.take(i) && ((i == ta.len()
                    && ta.len() < tb.len()) || (i < ta.len() && i < tb.len() && ta[i] < tb[i]));
            assert(a.take(i + 1) =~= seq![a[0]] + ta.take(i));
            assert(b.take(i + 1) =~= seq![b[0]] + tb.take(i));
            assert(a.take(i + 1) == b.take(i + 1));
        }
        if exists|i: int|
            0 <= i <= a.len() && i <= b.len() && #[trigger] a.take(i) == b.take(i) && ((i == a.len() && a.len()
                < b.len()) || (i < a.len() && i < b.len() && a[i] < b[i])) {
            let i = choose|i: int|
                0 <= i <= a.len() && i <= b.len() && #[trigger] a.take(i) == b.take(i) && ((i == a.len() && a.len()
                    < b.len()) || (i < a.len() && i < b.len() && a[i] < b[i]));
            assert(i > 0);
            assert(ta.take(i - 1) =~= a.take(i).drop_first());
            assert(tb.take(i - 1) =~= b.take(i).drop_first());
            assert(ta.take(i - 1) == tb.take(i - 1));
            if i < a.len() && i < b.len() {
                assert(ta[i - 1] == a[i] && tb[i - 1] == b[i]);
            }
        }
    }
}

/// No version is older than itself.
pub proof fn lemma_version_lt_irreflexive(a: Seq<u64>)
    ensures
        !version_lt(a, a),
    decreases a.len(),
{
    if a.len() > 0 {
        lemma_version_lt_irreflexive(a.drop_first());
    }
}

/// Older-than is transitive.
pub proof fn lemma_version_lt_transitive(a: Seq<u64>, b: Seq<u64>, c: Seq<u64>)
    requires
        version_lt(a, b),
        version_lt(b, c),
    ensures
        version_lt(a, c),
    decreases a.len(),
{
    if a.len() > 0 && b.len() > 0 && c.len() > 0 && a[0] == b[0] && b[0] == c[0] {
        lemma_version_lt_transitive(a.drop_first(), b.drop_first(), c.drop_first());
    }
}

/// The newest version seen per package prefix: (prefix, version, path).
pub type BestEntry = (Seq<char>, Seq<u64>, Seq<char>);

/// The table of newest versions after the paths `ps`, and the paths that
/// carry no version, in order.
pub open spec fn best_versions(ps: Seq<Seq<char>>) -> (Seq<BestEntry>, Seq<Seq<char>>)
    decreases ps.len(),
{
    if ps.len() == 0 {
        (Seq::empty(), Seq::empty())
    } else {
        let (table, unversioned) = best_versions(ps.drop_last());
        let p = ps.last();
        match versioned(p) {
            Some((k, v)) => if exists|i: int| 0 <= i < table.len() && #[trigger] table[i].0 == k {
                let i = choose|i: int| 0 <= i < table.len() && #[trigger] table[i].0 == k;
                if !version_lt(table[i].1, v) {
                    (table, unversioned)
                } else {
                    (table.update(i, (k, v, p)), unversioned)
                }
            } else {
                (table.push((k, v, p)), unversioned)
            },
            None => (table, unversioned.push(p)),
        }
    }
}

/// The table has an entry for prefix `k` whose version is not older than
/// `v`.
pub open spec fn has_newer_or_equal(table: Seq<BestEntry>, k: Seq<char>, v: Seq<u64>) -> bool {
    exists|i: int| 0 <= i < table.len() && (#[trigger] table[i]).0 == k && !version_lt(table[i].1, v)
}

/// Every kept path is one of `ps`, named with its entry's prefix and
/// version; and for every versioned path of `ps` the kept path of its prefix
/// has a version at least as new.
#[verifier::rlimit(80)]
#[verifier::spinoff_prover]
pub proof fn lemma_kept_path_is_newest(ps: Seq<Seq<char>>)
    ensures
        forall|i: int|
            0 <= i < best_versions(ps).0.len() ==> ps.contains((#[trigger] best_versions(ps).0[i]).2) && versioned(
                best_versions(ps).0[i].2,
            ) == Some((best_versions(ps).0[i].0, best_versions(ps).0[i].1)),
        forall|j: int|
            0 <= j < ps.len() && (#[trigger] versioned(ps[j])) is Some ==> has_newer_or_equal(
                best_versions(ps).0,
                versioned(ps[j]).unwrap().0,
                versioned(ps[j]).unwrap().1,
            ),
    decreases ps.len(),
{
    if ps.len() > 0 {
        let d = ps.drop_last();
        lemma_kept_path_is_newest(d);
        let (table, unv) = best_versions(d);
        let p = ps.last();
        let nt = best_versions(ps).0;
        assert forall|j: int| 0 <= j < d.len() implies #[trigger] d[j] == ps[j] by {}
        match versioned(p) {
            Some((k, v)) => {
                if exists|i: int| 0 <= i < table.len() && #[trigger] table[i].0 == k {
                    let i0 = choose|i: int| 0 <= i < table.len() && #[trigger] table[i].0 == k;
                    if !version_lt(table[i0].1, v) {
                        assert(nt == table);
                        assert forall|i: int| 0 <= i < nt.len() implies ps.contains((#[trigger] nt[i]).2) by {
                            let m = choose|m: int| 0 <= m < d.len() && d[m] == table[i].2;
                            assert(ps[m] == d[m]);
                        }
                        assert forall|j: int|
                            0 <= j < ps.len() && (#[trigger] versioned(ps[j])) is Some implies has_newer_or_equal(
                                nt,
                                versioned(ps[j]).unwrap().0,
                                versioned(ps[j]).unwrap().1,
                            ) by {
                            if j == ps.len() - 1 {
                                assert(nt[i0].0 == k);
                            } else {
                                assert(ps[j] == d[j]);
                            }
                        }
                    } else {
                        assert(nt == table.update(i0, (k, v, p)));
                        assert forall|i: int| 0 <= i < nt.len() implies ps.contains((#[trigger] nt[i]).2) by {
                            if i == i0 {
                                assert(ps[ps.len() - 1] == p);
                            } else {
                                assert(nt[i] == table[i]);
                                let m = choose|m: int| 0 <= m < d.len() && d[m] == table[i].2;
                                assert(ps[m] == d[m]);
                            }
                        }
                        assert forall|j: int|
                            0 <= j < ps.len() && (#[trigger] versioned(ps[j])) is Some implies has_newer_or_equal(
                                nt,
                                versioned(ps[j]).unwrap().0,
                                versioned(ps[j]).unwrap().1,
                            ) by {
                            if j == ps.len() - 1 {
                                lemma_version_lt_irreflexive(v);
                                assert(nt[i0].0 == k && nt[i0].1 == v);
                            } else {
                                assert(ps[j] == d[j]);
                                let kj = versioned(ps[j]).unwrap().0;
                                let vj = versioned(ps[j]).unwrap().1;
                                let w = choose|w: int| 0 <= w < table.len() && (#[trigger] table[w]).0 == kj && !version_lt(table[w].1, vj);
                                if w == i0 {
                                    if version_lt(v, vj) {
                                        lemma_version_lt_transitive(table[i0].1, v, vj);
                                    }
                                    assert(nt[w].0 == kj && !version_lt(nt[w].1, vj));
                                } else {
                                    assert(nt[w] == table[w]);
                                }
                            }
                        }
                    }
                } else {
                    assert(nt == table.push((k, v, p)));
                    assert forall|i: int| 0 <= i < nt.len() implies ps.contains((#[trigger] nt[i]).2) by {
                        if i == table.len() {
                            assert(ps[ps.len() - 1] == p);
                        } else {
                            assert(nt[i] == table[i]);
                            let m = choose|m: int| 0 <= m < d.len() && d[m] == table[i].2;
                            assert(ps[m] == d[m]);
                        }
                    }
                    assert forall|j: int|
                        0 <= j < ps.len() && (#[trigger] versioned(ps[j])) is Some implies has_newer_or_equal(
                            nt,
                            versioned(ps[j]).unwrap().0,
                            versioned(ps[j]).unwrap().1,
                        ) by {
                        if j == ps.len() - 1 {
                            lemma_version_lt_irreflexive(v);
                            assert(nt[table.len() as int].0 == k);
                        } else {
                            assert(ps[j] == d[j]);
                            let kj = versioned(ps[j]).unwrap().0;
                            let vj = versioned(ps[j]).unwrap().1;
                            let w = choose|w: int| 0 <= w < table.len() && (#[trigger] table[w]).0 == kj && !version_lt(table[w].1, vj);
                            assert(nt[w] == table[w]);
                        }
                    }
                }
            },
            None => {
                assert(nt == table);
                assert forall|i: int| 0 <= i < nt.len() implies ps.contains((#[trigger] nt[i]).2) by {
                    let m = choose|m: int| 0 <= m < d.len() && d[m] == table[i].2;
                    assert(ps[m] == d[m]);
                }
                assert forall|j: int|
                    0 <= j < ps.len() && (#[trigger] versioned(ps[j])) is Some implies has_newer_or_equal(
                        nt,
                        versioned(ps[j]).unwrap().0,
                        versioned(ps[j]).unwrap().1,
                    ) by {
                    if j < ps.len() - 1 {
                        assert(ps[j] == d[j]);
                    }
                }
            },
        }
    }
}

/// Whether path `a` sorts before path `b` under `Path`'s ordering, which
/// compares the paths component by component.
pub uninterp spec fn path_before(a: Seq<char>, b: Seq<char>) -> bool;

/// `Path::new(a) < Path::new(b)`: the result is [`path_before`] of the two
/// texts; how components are split and compared is not restated.
#[verifier::external_body]
fn path_lt(a: &str, b: &str) -> (r: bool)
    ensures
        r == path_before(a@, b@),
{
    std::path::Path::new(a) < std::path::Path::new(b)
}

/// `s` with `x` inserted before its first element greater than `x`.
pub open spec fn insert_sorted(s: Seq<Seq<char>>, x: Seq<char>) -> Seq<Seq<char>>
    decreases s.len(),
{
    if s.len() == 0 {
        seq![x]
    } else if path_before(x, s[0]) {
        seq![x] + s
    } else {
        seq![s[0]] + insert_sorted(s.drop_first(), x)
    }
}

/// `s` sorted in ascending path order, equal paths keeping their order
/// (insertion sort).
pub open spec fn sorted_texts(s: Seq<Seq<char>>) -> Seq<Seq<char>>
    decreases s.len(),
{
    if s.len() == 0 {
        Seq::empty()
    } else {
        insert_sorted(sorted_texts(s.drop_last()), s.last())
    }
}

/// The packages kept: for each prefix the path of its newest version (the
/// first path when versions tie), plus every unversioned path, sorted.
pub open spec fn deduped_packages(ps: Seq<Seq<char>>) -> Seq<Seq<char>> {
    let (table, unversioned) = best_versions(ps);
    sorted_texts(table.map_values(|e: BestEntry| e.2) + unversioned)
}

proof fn lemma_decimal_step(s: Seq<char>, k: int)
    requires
        0 <= k < s.len(),
    ensures
        decimal_value(s.take(k + 1)) == decimal_value(s.take(k)) * 10 + digit_val(s[k]),
{
    assert(s.take(k + 1).drop_last() =~= s.take(k));
}

/// Parses a `u64` (see [`parse_u64`]).
pub fn parse_u64_vec(s: &Vec<char>) -> (r: Option<u64>)
    ensures
        r == parse_u64(s@),
{
    let start: usize = if s.len() > 0 && s[0] == '+' {
        1
    } else {
        0
    };
    let ghost d = if s@.len() > 0 && s@[0] == '+' {
        s@.skip(1)
    } else {
        s@
    };
    assert(d =~= s@.skip(start as int));
    if start == s.len() {
        return None;
    }
    let mut v: u64 = 0;
    let mut i = start;
    while i < s.len()
        invariant
            start <= i <= s@.len(),
            d == s@.skip(start as int),
            d == (if s@.len() > 0 && s@[0] == '+' {
                s@.skip(1)
            } else {
                s@
            }),
            d.len() > 0,
            all_digits(d.take(i - start)),
            v == decimal_value(d.take(i - start)),
        decreases s@.len() - i,
    {
        let c = s[i];
        proof {
            lemma_decimal_step(d, i - start);
            assert(d[i - start] == c);
        }
        if !('0' <= c && c <= '9') {
            proof {
                assert(!all_digits(d));
            }
            return None;
        }
        let digit = (c as u64) - ('0' as u64);
        match v.checked_mul(10) {
            Some(m) => match m.checked_add(digit) {
                Some(n) => {
                    v = n;
                },
                None => {
                    proof {
                        lemma_decimal_prefix_le(d, i - start + 1);
                    }
                    return None;
                },
            },
            None => {
                proof {
                    lemma_decimal_prefix_le(d, i - start + 1);
                }
                return None;
            },
        }
        proof {
            assert forall|j: int| 0 <= j < i + 1 - start implies '0' <= #[trigger] d.take(i + 1 - start)[j] <= '9' by {
                if j < i - start {
                    assert(d.take(i + 1 - start)[j] == d.take(i - start)[j]);
                }
            }
        }
        i = i + 1;
    }
    assert(d.take(i - start) =~= d);
    Some(v)
}

/// A longer digit string is worth at least as much as its prefix.
proof fn lemma_decimal_prefix_le(d: Seq<char>, k: int)
    requires
        0 <= k <= d.len(),
        all_digits(d.take(k)) || all_digits(d),
    ensures
        all_digits(d) ==> decimal_value(d.take(k)) <= decimal_value(d),
    decreases d.len() - k,
{
    if k < d.len() && all_digits(d) {
        lemma_decimal_prefix_le(d, k + 1);
        lemma_decimal_step(d, k);
        assert('0' <= d[k] <= '9');
    }
    if k == d.len() {
        assert(d.take(k) =~= d);
    }
}


fn split_dots_vec(s: &Vec<char>) -> (r: Vec<Vec<char>>)
    ensures
        crate::text::seqs_of(r@) == split_dots(s@),
{
    let mut out: Vec<Vec<char>> = Vec::new();
    let mut start: usize = 0;
    assert(s@.skip(0) =~= s@);
    loop
        invariant
            start <= s@.len(),
            split_dots(s@) == crate::text::seqs_of(out@) + split_dots(s@.skip(start as int)),
        decreases s@.len() - start,
    {
        let e = crate::text::find_char_in(s, '.', start, s.len());
        let piece = crate::text::copy_range(s, start, e);
        let ghost o0 = crate::text::seqs_of(out@);
        let ghost rest = s@.skip(start as int);
        assert(s@.subrange(start as int, s@.len() as int) =~= rest);
        assert(piece@ =~= rest.take(e - start));
        out.push(piece);
        assert(crate::text::seqs_of(out@) =~= o0.push(piece@));
        if e == s.len() {
            assert(split_dots(rest) =~= seq![rest]);
            assert(o0 + seq![rest] =~= crate::text::seqs_of(out@));
            return out;
        }
        assert(rest.skip(e - start + 1) =~= s@.skip(e + 1));
        assert(split_dots(rest) =~= seq![piece@] + split_dots(s@.skip(e + 1)));
        assert(o0 + (seq![piece@] + split_dots(s@.skip(e + 1))) =~= crate::text::seqs_of(out@)
            + split_dots(s@.skip(e + 1)));
        start = e + 1;
    }
}

fn parse_all_vec(pieces: &Vec<Vec<char>>) -> (r: Option<Vec<u64>>)
    ensures
        match r {
            Some(v) => parse_all(crate::text::seqs_of(pieces@)) == Some(v@),
            None => parse_all(crate::text::seqs_of(pieces@)) is None,
        },
{
    let ghost pv = crate::text::seqs_of(pieces@);
    let mut parts: Vec<u64> = Vec::new();
    let mut k: usize = 0;
    assert(pv.skip(0) =~= pv);
    assert(parts@ + Seq::<u64>::empty() =~= parts@);
    while k < pieces.len()
        invariant
            k <= pieces@.len(),
            pv == crate::text::seqs_of(pieces@),
            parse_all(pv) == (match parse_all(pv.skip(k as int)) {
                Some(rest) => Some(parts@ + rest),
                None => None,
            }),
        decreases pieces@.len() - k,
    {
        let ghost t = pv.skip(k as int);
        assert(t[0] == pieces@[k as int]@);
        assert(t.drop_first() =~= pv.skip(k + 1));
        match parse_u64_vec(&pieces[k]) {
            Some(v) => {
                let ghost p0 = parts@;
                parts.push(v);
                proof {
                    if parse_all(pv.skip(k + 1)) is Some {
                        let rest = parse_all(pv.skip(k + 1))->0;
                        assert(p0 + (seq![v] + rest) =~= parts@ + rest);
                    }
                }
            },
            None => {
                return None;
            },
        }
        k = k + 1;
    }
    assert(pv.skip(k as int) =~= Seq::<Seq<char>>::empty());
    assert(parts@ + Seq::<u64>::empty() =~= parts@);
    Some(parts)
}

/// The prefix and version of a versioned package path (see [`versioned`]).
fn split_versioned(path: &str) -> (r: Option<(Vec<char>, Vec<u64>)>)
    ensures
        match r {
            Some((k, v)) => versioned(path@) == Some((k@, v@)),
            None => versioned(path@) is None,
        },
{
    let stem = match file_stem_of(path) {
        Some(s) => chars_of(s.as_str()),
        None => {
            return None;
        },
    };
    let mut us: Vec<char> = Vec::new();
    us.push('_');
    assert(us@ =~= seq!['_']);
    let i = match crate::text::rfind(&stem, &us) {
        Some(i) => i,
        None => {
            return None;
        },
    };
    proof {
        let c2 = choose|j: int| crate::text::last_at(stem@, seq!['_'], j);
        if c2 < i {
            assert(!crate::text::occurs_at(stem@, seq!['_'], i as int));
        }
        if c2 > i {
            assert(!crate::text::occurs_at(stem@, seq!['_'], c2));
        }
        assert(crate::text::occurs_at(stem@, seq!['_'], i as int));
    }
    let sl = stem.len();
    assert(i + 1 <= sl);
    let ver = crate::text::copy_range(&stem, i + 1, stem.len());
    assert(ver@ =~= stem@.skip(i + 1));
    let pieces = split_dots_vec(&ver);
    let parts = match parse_all_vec(&pieces) {
        Some(p) => p,
        None => {
            return None;
        },
    };
    if parts.len() == 0 {
        return None;
    }
    let prefix = crate::text::copy_range(&stem, 0, i);
    assert(prefix@ =~= stem@.take(i as int));
    Some((crate::text::lower_vec(&prefix), parts))
}

/// Whether version `a` is older than version `b`.
fn version_lt_vec(a: &Vec<u64>, b: &Vec<u64>) -> (r: bool)
    ensures
        r == version_lt(a@, b@),
{
    let mut i: usize = 0;
    assert(a@.skip(0) =~= a@ && b@.skip(0) =~= b@);
    while i < a.len() && i < b.len() && a[i] == b[i]
        invariant
            i <= a@.len(),
            i <= b@.len(),
            version_lt(a@, b@) == version_lt(a@.skip(i as int), b@.skip(i as int)),
        decreases a@.len() - i,
    {
        assert(a@.skip(i as int).drop_first() =~= a@.skip(i + 1));
        assert(b@.skip(i as int).drop_first() =~= b@.skip(i + 1));
        i = i + 1;
    }
    if i == a.len() {
        i < b.len()
    } else if i == b.len() {
        false
    } else {
        a[i] < b[i]
    }
}

/// No two entries of a version table share a prefix.
pub open spec fn table_unique(t: Seq<BestEntry>) -> bool {
    forall|a: int, b: int| 0 <= a < b < t.len() ==> #[trigger] t[a].0 != #[trigger] t[b].0
}

proof fn lemma_best_unique(ps: Seq<Seq<char>>)
    ensures
        table_unique(best_versions(ps).0),
    decreases ps.len(),
{
    if ps.len() > 0 {
        lemma_best_unique(ps.drop_last());
        let (table, unversioned) = best_versions(ps.drop_last());
        let p = ps.last();
        if let Some((k, v)) = versioned(p) {
            if exists|i: int| 0 <= i < table.len() && #[trigger] table[i].0 == k {
                let i = choose|i: int| 0 <= i < table.len() && #[trigger] table[i].0 == k;
                let t = table.update(i, (k, v, p));
                assert forall|a: int, b: int| 0 <= a < b < t.len() implies #[trigger] t[a].0 != #[trigger] t[b].0 by {
                    assert(t[a].0 == table[a].0 && t[b].0 == table[b].0);
                }
            } else {
                let t = table.push((k, v, p));
                assert forall|a: int, b: int| 0 <= a < b < t.len() implies #[trigger] t[a].0 != #[trigger] t[b].0 by {
                    if b == table.len() {
                        assert(table[a].0 != k);
                    } else {
                        assert(table[a].0 != table[b].0);
                    }
                }
            }
        }
    }
}

pub type BestRow = (Vec<char>, Vec<u64>, String);

pub open spec fn rows_view(v: Seq<BestRow>) -> Seq<BestEntry> {
    v.map_values(|r: BestRow| (r.0@, r.1@, r.2@))
}

/// Inserts `x` into the sorted `v` before its first greater element.
fn insert_sorted_vec(v: Vec<String>, x: String) -> (r: Vec<String>)
    ensures
        strs(r@) == insert_sorted(strs(v@), x@),
{
    let ghost sv = strs(v@);
    let mut k: usize = 0;
    assert(sv.skip(0) =~= sv);
    assert(sv.take(0) + insert_sorted(sv, x@) =~= insert_sorted(sv, x@));
    while k < v.len() && !path_lt(x.as_str(), v[k].as_str())
        invariant
            k <= v@.len(),
            sv == strs(v@),
            insert_sorted(sv, x@) == sv.take(k as int) + insert_sorted(sv.skip(k as int), x@),
        decreases v@.len() - k,
    {
        proof {
            let t = sv.skip(k as int);
            assert(t[0] == sv[k as int]);
            assert(t.drop_first() =~= sv.skip(k + 1));
            assert(sv.take(k + 1) =~= sv.take(k as int) + seq![sv[k as int]]);
        }
        k = k + 1;
    }
    let mut r = v;
    r.insert(k, x);
    proof {
        assert(strs(r@) =~= sv.take(k as int) + seq![x@] + sv.skip(k as int));
        if k < sv.len() {
            assert(sv.skip(k as int)[0] == sv[k as int]);
        }
        assert(insert_sorted(sv.skip(k as int), x@) =~= seq![x@] + sv.skip(k as int));
    }
    r
}

/// Keeps only the newest version of each package, and every path without a
/// version, sorted (see [`deduped_packages`]).
pub fn dedup_package_versions(packages: Vec<String>) -> (r: Vec<String>)
    ensures
        strs(r@) == deduped_packages(strs(packages@)),
{
    let ghost ps = strs(packages@);
    let mut table: Vec<BestRow> = Vec::new();
    let mut unversioned: Vec<String> = Vec::new();
    let mut i: usize = 0;
    while i < packages.len()
        invariant
            i <= packages@.len(),
            ps == strs(packages@),
            (rows_view(table@), strs(unversioned@)) == best_versions(ps.take(i as int)),
        decreases packages@.len() - i,
    {
        assert(ps.take(i + 1).drop_last() =~= ps.take(i as int));
        assert(ps.take(i + 1).last() == packages@[i as int]@);
        let path = &packages[i];
        proof {
            lemma_best_unique(ps.take(i as int));
        }
        match split_versioned(path.as_str()) {
            Some((k, v)) => {
                let ghost tv = rows_view(table@);
                let mut j: usize = 0;
                while j < table.len() && !crate::text::vec_eq(&table[j].0, &k)
                    invariant
                        j <= table@.len(),
                        forall|jj: int| 0 <= jj < j ==> table@[jj].0@ != k@,
                    decreases table@.len() - j,
                {
                    j = j + 1;
                }
                if j < table.len() {
                    proof {
                        let w = choose|w: int| 0 <= w < tv.len() && #[trigger] tv[w].0 == k@;
                        assert(tv[j as int].0 == k@);
                        if w != j {
                            if w < j {
                                assert(table@[w].0@ != k@);
                            } else {
                                assert(tv[j as int].0 != tv[w].0);
                            }
                        }
                    }
                    if version_lt_vec(&table[j].1, &v) {
                        let _ = table.remove(j);
                        table.insert(j, (k, v, path.clone()));
                        assert(rows_view(table@) =~= tv.update(j as int, (k@, v@, path@)));
                    }
                } else {
                    proof {
                        if exists|w: int| 0 <= w < tv.len() && #[trigger] tv[w].0 == k@ {
                            let w = choose|w: int| 0 <= w < tv.len() && #[trigger] tv[w].0 == k@;
                            assert(table@[w].0@ != k@);
                        }
                    }
                    let ghost t0 = table@;
                    table.push((k, v, path.clone()));
                    assert(rows_view(table@) =~= rows_view(t0).push((k@, v@, path@)));
                }
            },
            None => {
                let ghost u0 = unversioned@;
                unversioned.push(path.clone());
                assert(strs(unversioned@) =~= strs(u0).push(path@));
            },
        }
        i = i + 1;
    }
    assert(ps.take(ps.len() as int) =~= ps);
    // The kept paths, then sorted by insertion.
    let ghost kept = rows_view(table@).map_values(|e: BestEntry| e.2) + strs(unversioned@);
    let mut all: Vec<String> = Vec::new();
    let mut t: usize = 0;
    while t < table.len()
        invariant
            t <= table@.len(),
            strs(all@) == rows_view(table@).map_values(|e: BestEntry| e.2).take(t as int),
        decreases table@.len() - t,
    {
        let ghost a0 = all@;
        all.push(table[t].2.clone());
        assert(strs(all@) =~= strs(a0).push(table@[t as int].2@));
        assert(rows_view(table@).map_values(|e: BestEntry| e.2).take(t + 1) =~= rows_view(
            table@,
        ).map_values(|e: BestEntry| e.2).take(t as int).push(table@[t as int].2@));
        t = t + 1;
    }
    let ghost tk = strs(all@);
    assert(rows_view(table@).map_values(|e: BestEntry| e.2).take(table@.len() as int) =~= rows_view(
        table@,
    ).map_values(|e: BestEntry| e.2));
    let mut u: usize = 0;
    while u < unversioned.len()
        invariant
            u <= unversioned@.len(),
            strs(all@) == tk + strs(unversioned@).take(u as int),
        decreases unversioned@.len() - u,
    {
        let ghost a0 = all@;
        all.push(unversioned[u].clone());
        assert(strs(all@) =~= strs(a0).push(unversioned@[u as int]@));
        assert(strs(unversioned@).take(u + 1) =~= strs(unversioned@).take(u as int).push(
            unversioned@[u as int]@,
        ));
        u = u + 1;
    }
    assert(strs(unversioned@).take(unversioned@.len() as int) =~= strs(unversioned@));
    assert(strs(all@) == kept);
    let mut sorted: Vec<String> = Vec::new();
    let mut rest = all;
    let mut s: usize = 0;
    let total = rest.len();
    while rest.len() > 0
        invariant
            s + rest@.len() == kept.len(),
            total == kept.len(),
            strs(rest@) == kept.skip(s as int),
            strs(sorted@) == sorted_texts(kept.take(s as int)),
        decreases rest@.len(),
    {
        let ghost r0 = rest@;
        assert(strs(r0)[0] == kept.skip(s as int)[0]);
        let x = rest.remove(0);
        assert(x@ == kept[s as int]);
        assert(strs(rest@) =~= strs(r0).drop_first());
        assert(kept.take(s + 1).drop_last() =~= kept.take(s as int));
        sorted = insert_sorted_vec(sorted, x);
        s = s + 1;
        assert(strs(rest@) =~= kept.skip(s as int));
    }
    assert(kept.take(kept.len() as int) =~= kept);
    sorted
}

} // verus!
