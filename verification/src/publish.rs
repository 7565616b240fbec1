//! Publishing an AL extension to a BC server: options, pipeline steps,
//! errors, and the choice of the server configuration.

use vstd::prelude::*;

use crate::launch::{BcServerConfig, DebugConfigFile};
use crate::numfmt::{digits, push_decimal};
use crate::text::{chars_of, opt_view, push_str, vec_eq};

verus! {

/// Options of a publish operation.
#[derive(Debug, Clone)]
pub struct PublishConfig {
    /// Project root directory.
    pub project_root: String,
    /// The launch configuration to use (the first one when absent).
    pub config_name: Option<String>,
    /// Do not attach the debugger after publishing.
    pub no_debug: bool,
    /// Deploy incrementally through the RAD API instead of a full upload.
    pub incremental: bool,
}

impl PublishConfig {
    /// A configuration for the project at `project_root` with default options.
    pub fn new(project_root: String) -> (r: Self)
        ensures
            r.project_root == project_root,
            r.config_name is None,
            !r.no_debug,
            !r.incremental,
    {
        PublishConfig { project_root, config_name: None, no_debug: false, incremental: false }
    }
}

/// Phase of the publish pipeline.
#[derive(Debug, Clone, Copy, PartialEq, Eq, Structural)]
pub enum PublishPhase {
    Compile,
    Upload,
    Install,
    Rad,
}

/// The result of one step of the pipeline.
#[derive(Debug, Clone)]
pub struct PublishStep {
    pub phase: PublishPhase,
    pub success: bool,
    pub message: Option<String>,
}

/// Errors of a publish operation.
#[derive(Debug, Clone)]
pub enum PublishError {
    NoLaunchConfig,
    ConfigNotFound { name: String },
    NoToolchain,
    ToolchainBusy,
    NoProject,
    CompilationFailed { count: usize },
    NoAppFile,
    Build(String),
}

/// The text of an error.
pub open spec fn publish_error_text(e: PublishError) -> Seq<char> {
    match e {
        PublishError::NoLaunchConfig => "No launch.json configuration found in project root"@,
        PublishError::ConfigNotFound { name } => "Named configuration '"@ + name@
            + "' not found in launch.json"@,
        PublishError::NoToolchain => "Toolchain not available (ALTool not installed)"@,
        PublishError::ToolchainBusy => "Toolchain lock is busy — another operation is in progress, please try again"@,
        PublishError::NoProject => "No project loaded"@,
        PublishError::CompilationFailed { count } => "Compilation failed with "@ + digits(
            count as nat,
        ) + " error(s)"@,
        PublishError::NoAppFile => "No .app file produced by compiler"@,
        PublishError::Build(m) => "Build error: "@ + m@,
    }
}

impl PublishError {
    /// The error's message.
    pub fn message(&self) -> (r: String)
        ensures
            r@ == publish_error_text(*self),
    {
        let mut s = String::new();
        match self {
            PublishError::NoLaunchConfig => push_str(
                &mut s,
                "No launch.json configuration found in project root",
            ),
            PublishError::ConfigNotFound { name } => {
                push_str(&mut s, "Named configuration '");
                push_str(&mut s, name.as_str());
                push_str(&mut s, "' not found in launch.json");
            },
            PublishError::NoToolchain => push_str(
                &mut s,
                "Toolchain not available (ALTool not installed)",
            ),
            PublishError::ToolchainBusy => push_str(
                &mut s,
                "Toolchain lock is busy — another operation is in progress, please try again",
            ),
            PublishError::NoProject => push_str(&mut s, "No project loaded"),
            PublishError::CompilationFailed { count } => {
                push_str(&mut s, "Compilation failed with ");
                push_decimal(&mut s, *count as u64);
                push_str(&mut s, " error(s)");
            },
            PublishError::NoAppFile => push_str(&mut s, "No .app file produced by compiler"),
            PublishError::Build(m) => {
                push_str(&mut s, "Build error: ");
                push_str(&mut s, m.as_str());
            },
        }
        s
    }
}

/// Index of the first configuration called `name`, or the length.
pub open spec fn first_named(cs: Seq<BcServerConfig>, name: Seq<char>) -> int
    decreases cs.len(),
{
    if cs.len() == 0 || cs[0].name@ == name {
        0
    } else {
        1 + first_named(cs.drop_first(), name)
    }
}

/// Choose the server configuration from the launch file found in the
/// project: none without a launch file; the first configuration called
/// `config_name` when one is named (an error naming it when there is none);
/// else the first configuration.
pub fn resolve_server_config(found: Option<DebugConfigFile>, config_name: Option<&str>) -> (r:
    Result<BcServerConfig, PublishError>)
    ensures
        match found {
            None => r matches Err(PublishError::NoLaunchConfig),
            Some(f) => match config_name {
                Some(name) => if first_named(f.configs@, name@) < f.configs@.len() {
                    r == Ok::<BcServerConfig, PublishError>(
                        f.configs@[first_named(f.configs@, name@)],
                    )
                } else {
                    r matches Err(PublishError::ConfigNotFound { name: n }) && n@ == name@
                },
                None => if f.configs@.len() > 0 {
                    r == Ok::<BcServerConfig, PublishError>(f.configs@[0])
                } else {
                    r matches Err(PublishError::NoLaunchConfig)
                },
            },
        },
{
    let f = match found {
        None => {
            return Err(PublishError::NoLaunchConfig);
        },
        Some(f) => f,
    };
    let ghost all = f.configs@;
    assert(all.len() == f.configs.len());
    assert(found == Some(f));
    let mut rest = f.configs;
    match config_name {
        Some(name) => {
            let nv = chars_of(name);
            let mut i: usize = 0;
            assert(all.skip(0) =~= all);
            while rest.len() > 0
                invariant
                    rest@ == all.skip(i as int),
                    i + rest@.len() == all.len(),
                    nv@ == name@,
                    first_named(all, name@) == i + first_named(rest@, name@),
                    all.len() <= usize::MAX,
                    config_name == Some(name),
                    found matches Some(ff) && ff.configs@ == all,
                decreases rest@.len(),
            {
                let ghost r0 = rest@;
                let c = rest.remove(0);
                assert(c == all[i as int]);
                assert(c == r0[0]);
                if vec_eq(&chars_of(c.name.as_str()), &nv) {
                    assert(first_named(r0, name@) == 0);
                    assert(first_named(all, name@) == i);
                    assert(all[first_named(all, name@)] == c);
                    return Ok(c);
                }
                assert(all.skip(i as int).drop_first() =~= all.skip(i + 1));
                i = i + 1;
            }
            let mut n = String::new();
            push_str(&mut n, name);
            Err(PublishError::ConfigNotFound { name: n })
        },
        None => {
            if rest.len() > 0 {
                Ok(rest.remove(0))
            } else {
                Err(PublishError::NoLaunchConfig)
            }
        },
    }
}

// ---------------------------------------------------------------------------
// The steps of the pipeline
// ---------------------------------------------------------------------------

/// How the extension is deployed: `rad` (incremental) or `standard`.
pub fn publish_method(incremental: bool) -> (r: &'static str)
    ensures
        r@ == (if incremental { "rad"@ } else { "standard"@ }),
{
    if incremental {
        "rad"
    } else {
        "standard"
    }
}

/// The compile step: on success `Built: <app path>` (no message without an
/// app file), else the number of compilation errors.
pub fn compile_step(success: bool, app_path: Option<&str>, error_count: usize) -> (r: PublishStep)
    ensures
        r.phase == PublishPhase::Compile,
        r.success == success,
        success ==> opt_view(r.message) == match app_path {
            Some(p) => Some("Built: "@ + p@),
            None => None,
        },
        !success ==> opt_view(r.message) == Some(digits(error_count as nat) + " compilation error(s)"@),
{
    let message = if success {
        match app_path {
            Some(p) => {
                let mut m = String::new();
                push_str(&mut m, "Built: ");
                push_str(&mut m, p);
                Some(m)
            },
            None => None,
        }
    } else {
        let mut m = String::new();
        push_decimal(&mut m, error_count as u64);
        push_str(&mut m, " compilation error(s)");
        Some(m)
    };
    PublishStep { phase: PublishPhase::Compile, success, message }
}

/// A server status reports failure only when it is `Failed`.
pub open spec fn status_ok(status: Option<Seq<char>>) -> bool {
    status != Some("Failed"@)
}

fn status_failed(status: &Option<String>) -> (b: bool)
    ensures
        b == !status_ok(opt_view(*status)),
{
    match status {
        Some(s) => vec_eq(&chars_of(s.as_str()), &chars_of("Failed")),
        None => false,
    }
}

/// The upload step of a full publish, from the server's status reply
/// (`Ok`) or the request's error text (`Err`): the status decides success
/// (none reads `Uploaded`); an error fails the step with its text.
pub fn upload_step(reply: &Result<Option<String>, String>) -> (r: PublishStep)
    ensures
        r.phase == PublishPhase::Upload,
        match reply {
            Ok(status) => r.success == status_ok(opt_view(*status)) && opt_view(r.message) == Some(
                match status {
                    Some(s) => s@,
                    None => "Uploaded"@,
                },
            ),
            Err(e) => !r.success && opt_view(r.message) == Some(e@),
        },
{
    match reply {
        Ok(status) => {
            let success = !status_failed(status);
            let message = match status {
                Some(s) => s.clone(),
                None => "Uploaded".to_string(),
            };
            proof {
                reveal_strlit("Uploaded");
            }
            PublishStep { phase: PublishPhase::Upload, success, message: Some(message) }
        },
        Err(e) => PublishStep { phase: PublishPhase::Upload, success: false, message: Some(e.clone()) },
    }
}

/// The RAD step of an incremental publish: the status decides success and
/// is the message; an error fails the step with its text.
pub fn rad_step(reply: &Result<Option<String>, String>) -> (r: PublishStep)
    ensures
        r.phase == PublishPhase::Rad,
        match reply {
            Ok(status) => r.success == status_ok(opt_view(*status)) && opt_view(r.message) == opt_view(*status),
            Err(e) => !r.success && opt_view(r.message) == Some(e@),
        },
{
    match reply {
        Ok(status) => {
            let success = !status_failed(status);
            let message = match status {
                Some(s) => Some(s.clone()),
                None => None,
            };
            PublishStep { phase: PublishPhase::Rad, success, message }
        },
        Err(e) => PublishStep { phase: PublishPhase::Rad, success: false, message: Some(e.clone()) },
    }
}

// ---------------------------------------------------------------------------
// The app id of a manifest
// ---------------------------------------------------------------------------

/// What `serde_json::from_slice` into a `serde_json::Value`, then
/// `.get("id")` and `.as_str()`, give for the bytes of an `app.json`: the
/// `id` string of a well-formed JSON object, else nothing.
pub uninterp spec fn manifest_id(bytes: Seq<u8>) -> Option<Seq<char>>;

/// `serde_json::from_slice` into a `serde_json::Value`, then the `id`
/// member as a string; the result is [`manifest_id`] of the bytes. JSON
/// decoding itself is not restated here.
#[verifier::external_body]
fn decode_manifest_id(bytes: &[u8]) -> (r: Option<String>)
    ensures
        r matches Some(s) ==> manifest_id(bytes@) == Some(s@),
        r is None ==> manifest_id(bytes@) is None,
{
    let json: serde_json::Value = serde_json::from_slice(bytes).ok()?;
    json.get("id")?.as_str().map(|s| s.to_string())
}

/// The app id the bytes of an `app.json` declare (needed for incremental
/// publishing), `None` when they are not a JSON object with a string `id`.
pub fn extract_app_id_from_manifest(manifest: &[u8]) -> (r: Option<String>)
    ensures
        r matches Some(s) ==> manifest_id(manifest@) == Some(s@),
        r is None ==> manifest_id(manifest@) is None,
{
    decode_manifest_id(manifest)
}

// ---------------------------------------------------------------------------
// The pipeline as a state machine
// ---------------------------------------------------------------------------

/// Severity of a compiler diagnostic.
#[derive(Debug, Clone, Copy, PartialEq, Eq, Structural)]
pub enum DiagnosticSeverity {
    Error,
    Warning,
    Info,
    Hint,
}

/// A diagnostic of the compiler: its severity and its text.
#[derive(Debug, Clone)]
pub struct CompileDiagnostic {
    pub severity: DiagnosticSeverity,
    pub message: String,
}

/// The number of errors among the diagnostics.
pub open spec fn error_total(d: Seq<CompileDiagnostic>) -> nat
    decreases d.len(),
{
    if d.len() == 0 {
        0
    } else {
        error_total(d.drop_last()) + (if d.last().severity == DiagnosticSeverity::Error { 1nat } else { 0nat })
    }
}

/// Counts the errors among the diagnostics.
pub fn count_errors(d: &Vec<CompileDiagnostic>) -> (n: usize)
    ensures
        n == error_total(d@),
{
    let mut n: usize = 0;
    let mut i: usize = 0;
    while i < d.len()
        invariant
            i <= d@.len(),
            n == error_total(d@.take(i as int)),
            n <= i,
        decreases d@.len() - i,
    {
        assert(d@.take(i + 1).drop_last() =~= d@.take(i as int));
        if d[i].severity == DiagnosticSeverity::Error {
            n = n + 1;
        }
        i = i + 1;
    }
    assert(d@.take(d@.len() as int) =~= d@);
    n
}

fn copy_diagnostics(v: &Vec<CompileDiagnostic>) -> (r: Vec<CompileDiagnostic>)
    ensures
        r@ == v@,
{
    let mut out: Vec<CompileDiagnostic> = Vec::new();
    let mut i: usize = 0;
    while i < v.len()
        invariant
            i <= v@.len(),
            out@ == v@.take(i as int),
        decreases v@.len() - i,
    {
        let d = &v[i];
        out.push(CompileDiagnostic { severity: d.severity, message: d.message.clone() });
        assert(out@ =~= v@.take(i + 1));
        i = i + 1;
    }
    assert(v@.take(v@.len() as int) =~= v@);
    out
}

/// The outcome of a publish run.
#[derive(Debug, Clone)]
pub struct PublishResult {
    pub success: bool,
    /// The server, as [`crate::launch::BcServerConfig::display_name`] shows it.
    pub server: String,
    /// `rad` or `standard`.
    pub method: String,
    pub app_path: Option<String>,
    pub app_id: Option<String>,
    pub app_version: Option<String>,
    /// The compiler's diagnostics.
    pub diagnostics: Vec<CompileDiagnostic>,
    pub steps: Vec<PublishStep>,
}

/// What the server answered to an upload or a RAD deploy.
#[derive(Debug, Clone)]
pub struct PublishReply {
    pub status: Option<String>,
    pub app_id: Option<String>,
    pub version: Option<String>,
}

/// Where a publish run stands.
#[derive(Debug, Clone)]
pub struct PublishState {
    pub server: String,
    pub incremental: bool,
    pub steps: Vec<PublishStep>,
    pub app_path: Option<String>,
    /// The compiler's diagnostics, once compiled.
    pub diagnostics: Vec<CompileDiagnostic>,
}

/// What happened since the last action.
#[derive(Debug)]
pub enum PublishEvent {
    /// The project was compiled.
    Compiled { success: bool, app_path: Option<String>, diagnostics: Vec<CompileDiagnostic> },
    /// The app id of the manifest was read (for an incremental deploy).
    ManifestRead(Option<String>),
    /// The RAD deploy answered, or failed with this text.
    RadReplied(Result<PublishReply, String>),
    /// The full upload answered, or failed with this text.
    Uploaded(Result<PublishReply, String>),
}

/// What to do next.
#[derive(Debug, Clone)]
pub enum PublishAction {
    /// Read the project's manifest for its app id.
    ReadManifest,
    /// Deploy the app file incrementally under this app id.
    RadPublish { app_id: String, app_path: String },
    /// Upload the app file in full.
    Upload { app_path: String },
    /// The run is over with this result.
    Finish(PublishResult),
    /// The run failed.
    Fail(PublishError),
}

fn copy_steps(v: &Vec<PublishStep>) -> (r: Vec<PublishStep>)
    ensures
        r@ == v@,
{
    let mut out: Vec<PublishStep> = Vec::new();
    let mut i: usize = 0;
    while i < v.len()
        invariant
            i <= v@.len(),
            out@ == v@.take(i as int),
        decreases v@.len() - i,
    {
        let s = &v[i];
        let message = match &s.message {
            Some(m) => Some(m.clone()),
            None => None,
        };
        out.push(PublishStep { phase: s.phase, success: s.success, message });
        assert(out@ =~= v@.take(i + 1));
        i = i + 1;
    }
    assert(v@.take(v@.len() as int) =~= v@);
    out
}

/// The state a run starts in, before compiling, for the server shown as
/// `server`.
pub fn publish_start(server: String, incremental: bool) -> (r: PublishState)
    ensures
        r.server == server,
        r.incremental == incremental,
        r.steps@.len() == 0,
        r.app_path is None,
        r.diagnostics@.len() == 0,
{
    PublishState { server, incremental, steps: Vec::new(), app_path: None, diagnostics: Vec::new() }
}

/// A finished run's result as plain values: success, server, method, app
/// path, app id, version, diagnostics, steps.
pub open spec fn result_is(
    r: PublishResult,
    success: bool,
    st: PublishState,
    app_path: Option<Seq<char>>,
    app_id: Option<Seq<char>>,
    version: Option<Seq<char>>,
    diagnostics: Seq<CompileDiagnostic>,
    steps: Seq<PublishStep>,
) -> bool {
    &&& r.success == success
    &&& r.server == st.server
    &&& r.method@ == (if st.incremental { "rad"@ } else { "standard"@ })
    &&& opt_view(r.app_path) == app_path
    &&& opt_view(r.app_id) == app_id
    &&& opt_view(r.app_version) == version
    &&& r.diagnostics@ == diagnostics
    &&& r.steps@ == steps
}

/// The compile step of a build: `Built: <app path>` on success (no message
/// without an app file), else the number of errors among the diagnostics.
pub open spec fn compile_step_is(
    step: PublishStep,
    success: bool,
    app_path: Option<Seq<char>>,
    diagnostics: Seq<CompileDiagnostic>,
) -> bool {
    &&& step.phase == PublishPhase::Compile
    &&& step.success == success
    &&& opt_view(step.message) == if success {
        match app_path {
            Some(p) => Some("Built: "@ + p),
            None => None,
        }
    } else {
        Some(digits(error_total(diagnostics)) + " compilation error(s)"@)
    }
}

/// The step a server reply makes (see [`rad_step`], [`upload_step`]): the
/// status decides success; the message is the status, or for an upload
/// without one `Uploaded`; an error fails the step with its text.
pub open spec fn reply_step_is(
    step: PublishStep,
    phase: PublishPhase,
    reply: Result<PublishReply, String>,
) -> bool {
    &&& step.phase == phase
    &&& match reply {
        Ok(rep) => step.success == status_ok(opt_view(rep.status)) && opt_view(step.message) == (
        match rep.status {
            Some(s) => Some(s@),
            None => if phase == PublishPhase::Upload {
                Some("Uploaded"@)
            } else {
                None
            },
        }),
        Err(e) => !step.success && opt_view(step.message) == Some(e@),
    }
}

/// The next step of a publish run. After compiling: a failed build
/// finishes unsuccessfully with the compile step and the diagnostics; a
/// build without an app file fails; otherwise an incremental run reads the
/// manifest and a full one uploads. With the manifest's app id the run
/// deploys by RAD; without one it falls back to the upload. A reply adds
/// its step ([`rad_step`] or [`upload_step`]) and finishes, successful when
/// that step is; a reply that comes out of order fails the run with a
/// build error.
pub fn publish_next(state: PublishState, event: PublishEvent) -> (r: (PublishState, PublishAction))
    ensures
        r.0.server == state.server,
        r.0.incremental == state.incremental,
        match event {
            PublishEvent::Compiled { success, app_path, diagnostics } => {
                &&& r.0.steps@.len() == state.steps@.len() + 1
                &&& r.0.steps@.drop_last() == state.steps@
                &&& compile_step_is(r.0.steps@.last(), success, opt_view(app_path), diagnostics@)
                &&& r.0.diagnostics@ == diagnostics@
                &&& if !success {
                    r.1 matches PublishAction::Finish(res) && result_is(
                        res,
                        false,
                        state,
                        None,
                        None,
                        None,
                        diagnostics@,
                        r.0.steps@,
                    )
                } else {
                    match app_path {
                        None => r.1 matches PublishAction::Fail(PublishError::NoAppFile),
                        Some(p) => r.0.app_path == Some(p) && if state.incremental {
                            r.1 is ReadManifest
                        } else {
                            r.1 matches PublishAction::Upload { app_path: q } && q == p
                        },
                    }
                }
            },
            PublishEvent::ManifestRead(id) => r.0.steps@ == state.steps@ && r.0.diagnostics@
                == state.diagnostics@ && match state.app_path {
                None => r.1 matches PublishAction::Fail(PublishError::Build(_)),
                Some(p) => match id {
                    Some(i) => r.1 matches PublishAction::RadPublish { app_id: a, app_path: q } && a == i && q == p,
                    None => r.1 matches PublishAction::Upload { app_path: q } && q == p,
                },
            },
            PublishEvent::RadReplied(reply) => {
                &&& r.0.steps@.len() == state.steps@.len() + 1
                &&& r.0.steps@.drop_last() == state.steps@
                &&& reply_step_is(r.0.steps@.last(), PublishPhase::Rad, reply)
                &&& r.0.diagnostics@ == state.diagnostics@
                &&& r.1 matches PublishAction::Finish(res)
                &&& result_is(
                res,
                r.0.steps@.last().success,
                state,
                opt_view(state.app_path),
                match reply {
                    Ok(rep) => opt_view(rep.app_id),
                    Err(_) => None,
                },
                match reply {
                    Ok(rep) => opt_view(rep.version),
                    Err(_) => None,
                },
                state.diagnostics@,
                r.0.steps@,
            )
            },
            PublishEvent::Uploaded(reply) => {
                &&& r.0.steps@.len() == state.steps@.len() + 1
                &&& r.0.steps@.drop_last() == state.steps@
                &&& reply_step_is(r.0.steps@.last(), PublishPhase::Upload, reply)
                &&& r.0.diagnostics@ == state.diagnostics@
                &&& r.1 matches PublishAction::Finish(res)
                &&& result_is(
                res,
                r.0.steps@.last().success,
                state,
                opt_view(state.app_path),
                match reply {
                    Ok(rep) => opt_view(rep.app_id),
                    Err(_) => None,
                },
                match reply {
                    Ok(rep) => opt_view(rep.version),
                    Err(_) => None,
                },
                state.diagnostics@,
                r.0.steps@,
            )
            },
        },
{
    let mut st = state;
    let ghost s0 = st;
    let method = publish_method(st.incremental).to_string();
    proof {
        reveal_strlit("rad");
        reveal_strlit("standard");
        reveal_strlit("Uploaded");
    }
    match event {
        PublishEvent::Compiled { success, app_path, diagnostics } => {
            let errors = count_errors(&diagnostics);
            let step = compile_step(
                success,
                match &app_path {
                    Some(p) => Some(p.as_str()),
                    None => None,
                },
                errors,
            );
            st.steps.push(step);
            st.diagnostics = diagnostics;
            assert(st.steps@.drop_last() =~= s0.steps@);
            if !success {
                let res = PublishResult {
                    success: false,
                    server: st.server.clone(),
                    method,
                    app_path: None,
                    app_id: None,
                    app_version: None,
                    diagnostics: copy_diagnostics(&st.diagnostics),
                    steps: copy_steps(&st.steps),
                };
                return (st, PublishAction::Finish(res));
            }
            match app_path {
                None => (st, PublishAction::Fail(PublishError::NoAppFile)),
                Some(p) => {
                    st.app_path = Some(p.clone());
                    if st.incremental {
                        (st, PublishAction::ReadManifest)
                    } else {
                        (st, PublishAction::Upload { app_path: p })
                    }
                },
            }
        },
        PublishEvent::ManifestRead(id) => {
            let path = match &st.app_path {
                Some(p) => p.clone(),
                None => {
                    let mut m = String::new();
                    push_str(&mut m, "manifest read before a build");
                    return (st, PublishAction::Fail(PublishError::Build(m)));
                },
            };
            match id {
                Some(i) => (st, PublishAction::RadPublish { app_id: i, app_path: path }),
                None => (st, PublishAction::Upload { app_path: path }),
            }
        },
        PublishEvent::RadReplied(reply) => {
            let (step, app_id, version) = match &reply {
                Ok(rep) => (rad_step(&Ok(rep.status.clone())), rep.app_id.clone(), rep.version.clone()),
                Err(e) => (rad_step(&Err(e.clone())), None, None),
            };
            let success = step.success;
            st.steps.push(step);
            assert(st.steps@.drop_last() =~= s0.steps@);
            let res = PublishResult {
                success,
                server: st.server.clone(),
                method,
                app_path: st.app_path.clone(),
                app_id,
                app_version: version,
                diagnostics: copy_diagnostics(&st.diagnostics),
                steps: copy_steps(&st.steps),
            };
            (st, PublishAction::Finish(res))
        },
        PublishEvent::Uploaded(reply) => {
            let (step, app_id, version) = match &reply {
                Ok(rep) => (upload_step(&Ok(rep.status.clone())), rep.app_id.clone(), rep.version.clone()),
                Err(e) => (upload_step(&Err(e.clone())), None, None),
            };
            let success = step.success;
            st.steps.push(step);
            assert(st.steps@.drop_last() =~= s0.steps@);
            let res = PublishResult {
                success,
                server: st.server.clone(),
                method,
                app_path: st.app_path.clone(),
                app_id,
                app_version: version,
                diagnostics: copy_diagnostics(&st.diagnostics),
                steps: copy_steps(&st.steps),
            };
            (st, PublishAction::Finish(res))
        },
    }
}

} // verus!
