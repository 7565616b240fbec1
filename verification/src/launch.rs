//! Debug/launch configuration: BC server connection details read from a
//! debug configuration file (Zed `.zed/debug.json` or VS Code
//! `.vscode/launch.json`), and the URLs built from them.
//!
//! Reading the files and decoding their JSON happens at the caller; this
//! module decides what the decoded entries mean.

use vstd::prelude::*;
use vstd::utf8::encode_utf8;

use crate::numfmt::{digits, push_decimal};
use crate::text::{
    ascii_lower_seq, char_is_ascii_digit, chars_of, contains, count_char, count_char_in, find_char_in,
    first_at, index_of_char, is_ascii_digit, opt_view, push_str, string_of, trim,
};

verus! {

/// BC environment type.
#[derive(Debug, Clone, Copy, PartialEq, Eq, Structural)]
pub enum EnvironmentType {
    OnPrem,
    Sandbox,
    Production,
}

/// Authentication method for BC connections.
#[derive(Debug, Clone, Copy, PartialEq, Eq, Structural)]
pub enum AuthMethod {
    UserPassword,
    Windows,
    AAD,
}

/// A dependency entry of `app.json`.
#[derive(Debug, Clone, PartialEq, Eq)]
pub struct AppDependency {
    pub id: String,
    pub name: String,
    pub publisher: String,
    pub version: String,
}

/// A parsed debug configuration file.
#[derive(Debug, Clone)]
pub struct DebugConfigFile {
    pub path: String,
    pub configs: Vec<BcServerConfig>,
}

/// BC server connection configuration extracted from debug config.
#[derive(Debug, Clone)]
pub struct BcServerConfig {
    pub name: String,
    pub environment_type: EnvironmentType,
    /// On-prem server URL (e.g., "https://erp.example.com")
    pub server: Option<String>,
    /// On-prem server instance name (e.g., "BC")
    pub server_instance: Option<String>,
    /// Dev services port (default 7049)
    pub port: Option<u16>,
    /// Cloud environment name (e.g., "Sandbox")
    pub environment_name: Option<String>,
    /// Tenant ID (Azure AD domain or "default" for on-prem)
    pub tenant: Option<String>,
    /// Authentication method
    pub authentication: AuthMethod,
    /// Accept invalid/self-signed TLS certificates.
    pub accept_invalid_certs: bool,
}

// ---------------------------------------------------------------------------
// URL encoding
// ---------------------------------------------------------------------------

/// A byte that percent-encoding leaves as it is: ASCII alphanumerics and
/// `-`, `.`, `_`, `~`.
pub open spec fn unreserved(b: u8) -> bool {
    (48 <= b <= 57) || (65 <= b <= 90) || (97 <= b <= 122) || b == 45 || b == 46 || b == 95
        || b == 126
}

/// The uppercase hexadecimal digit for `d < 16`.
pub open spec fn hex_digit(d: u8) -> char {
    if d < 10 {
        (48 + d) as char
    } else {
        (55 + d) as char
    }
}

/// Percent-encoding of a byte string: unreserved bytes as themselves, every
/// other byte as `%` and two uppercase hex digits.
pub open spec fn percent_encode(bytes: Seq<u8>) -> Seq<char>
    decreases bytes.len(),
{
    if bytes.len() == 0 {
        Seq::empty()
    } else {
        let b = bytes.last();
        percent_encode(bytes.drop_last()) + if unreserved(b) {
            seq![b as char]
        } else {
            seq!['%', hex_digit(b / 16), hex_digit(b % 16)]
        }
    }
}

/// The URL encoding of a string: its UTF-8 bytes, percent-encoded.
pub open spec fn url_encoded(s: Seq<char>) -> Seq<char> {
    percent_encode(encode_utf8(s))
}

/// `urlencoding::encode`: percent-encodes every UTF-8 byte of `s` except
/// ASCII alphanumerics and `-`, `_`, `.`, `~`, with uppercase hex digits,
/// which is what the crate's `encode_into` does.
#[verifier::external_body]
pub(crate) fn url_encode(s: &str) -> (r: String)
    ensures
        r@ == url_encoded(s@),
{
    urlencoding::encode(s).into_owned()
}

// ---------------------------------------------------------------------------
// Server URLs
// ---------------------------------------------------------------------------

/// `s` without its trailing `/` characters.
pub open spec fn trim_end_slashes(s: Seq<char>) -> Seq<char>
    decreases s.len(),
{
    if s.len() > 0 && s.last() == '/' {
        trim_end_slashes(s.drop_last())
    } else {
        s
    }
}

/// `s` is a bare host with an optional numeric port: no `/`, and either no
/// `:` or exactly one, with a non-empty host before it and only ASCII
/// digits (at least one) after it.
pub open spec fn bare_host_port(s: Seq<char>) -> bool {
    let c = index_of_char(s, ':');
    &&& count_char(s, '/') == 0
    &&& (count_char(s, ':') == 0 || (count_char(s, ':') == 1 && 0 < c && c + 1 < s.len()
        && forall|i: int| c < i < s.len() ==> is_ascii_digit(#[trigger] s[i])))
}

/// The on-prem `server` value is acceptable: after trimming it is not
/// empty; if it names a scheme (`x://`), the scheme is `http` or `https` in
/// any ASCII case; otherwise it is a bare host with an optional numeric
/// port (see [`bare_host_port`]).
pub open spec fn safe_http_server(server: Seq<char>) -> bool {
    let s = trim(server);
    if s.len() == 0 {
        false
    } else if contains(s, "://"@) {
        let scheme = s.take(choose|i: int| first_at(s, "://"@, i));
        ascii_lower_seq(scheme) == "http"@ || ascii_lower_seq(scheme) == "https"@
    } else {
        bare_host_port(s)
    }
}

fn is_bare_host_port(s: &Vec<char>) -> (b: bool)
    ensures
        b == bare_host_port(s@),
{
    let n = s.len();
    assert(s@.subrange(0, n as int) =~= s@);
    if count_char_in(s, '/', 0, n) != 0 {
        return false;
    }
    let colons = count_char_in(s, ':', 0, n);
    if colons == 0 {
        return true;
    }
    if colons != 1 {
        return false;
    }
    let c = find_char_in(s, ':', 0, n);
    if c == 0 || c >= n - 1 {
        return false;
    }
    let mut i = c + 1;
    while i < n
        invariant
            c < i <= n,
            n == s@.len(),
            c as nat == index_of_char(s@, ':'),
            count_char(s@, '/') == 0,
            count_char(s@, ':') == 1,
            forall|j: int| c < j < i ==> is_ascii_digit(#[trigger] s@[j]),
        decreases n - i,
    {
        if !char_is_ascii_digit(s[i]) {
            assert(!(forall|j: int| c < j < s@.len() ==> is_ascii_digit(#[trigger] s@[j])));
            return false;
        }
        i = i + 1;
    }
    true
}

/// Whether an on-prem `server` value is an allowed HTTP server (see
/// [`safe_http_server`]).
pub fn is_safe_http_server(server: &str) -> (b: bool)
    ensures
        b == safe_http_server(server@),
{
    let s = crate::text::trim_vec(&chars_of(server));
    if s.len() == 0 {
        return false;
    }
    match crate::text::find(&s, &chars_of("://")) {
        Some(p) => {
            proof {
                let c = choose|i: int| first_at(s@, "://"@, i);
                assert(c == p);
            }
            let scheme = crate::text::ascii_lower_range(&s, 0, p);
            assert(s@.subrange(0, p as int) =~= s@.take(p as int));
            crate::text::vec_eq(&scheme, &chars_of("http")) || crate::text::vec_eq(
                &scheme,
                &chars_of("https"),
            )
        },
        None => is_bare_host_port(&s),
    }
}

/// The query selecting one dependency package.
pub open spec fn package_query(dep: AppDependency) -> Seq<char> {
    "publisher="@ + url_encoded(dep.publisher@) + "&appName="@ + url_encoded(dep.name@)
        + "&versionText="@ + url_encoded(dep.version@)
}

/// The `/dev/packages` URL for downloading `dep` from the server `c`
/// describes; `None` when a needed field is missing or the on-prem server
/// is not an allowed HTTP server.
pub open spec fn packages_url(c: BcServerConfig, dep: AppDependency) -> Option<Seq<char>> {
    let query = package_query(dep);
    match c.environment_type {
        EnvironmentType::OnPrem => match (opt_view(c.server), opt_view(c.server_instance)) {
            (Some(server), Some(instance)) => if !safe_http_server(server) {
                None
            } else {
                let base = match c.port {
                    Some(p) => trim_end_slashes(server) + ":"@ + digits(p as nat),
                    None => trim_end_slashes(server),
                };
                let tenant_param = match opt_view(c.tenant) {
                    Some(t) => "&tenant="@ + url_encoded(t),
                    None => Seq::empty(),
                };
                Some(base + "/"@ + instance + "/dev/packages?"@ + query + tenant_param)
            },
            _ => None,
        },
        _ => match (opt_view(c.tenant), opt_view(c.environment_name)) {
            (Some(tenant), Some(env)) => Some(
                "https://api.businesscentral.dynamics.com/v2.0/"@ + url_encoded(tenant) + "/"@
                    + url_encoded(env) + "/dev/packages?"@ + query,
            ),
            _ => None,
        },
    }
}

/// The human-readable name of a server configuration.
pub open spec fn server_display_name(c: BcServerConfig) -> Seq<char> {
    match c.environment_type {
        EnvironmentType::OnPrem => {
            let server = match opt_view(c.server) {
                Some(s) => s,
                None => "?"@,
            };
            let instance = match opt_view(c.server_instance) {
                Some(s) => s,
                None => "?"@,
            };
            server + "/"@ + instance
        },
        _ => {
            let env = match opt_view(c.environment_name) {
                Some(s) => s,
                None => "?"@,
            };
            "BC Cloud ("@ + env + ")"@
        },
    }
}

impl BcServerConfig {
    /// Construct the `/dev/packages` URL for downloading a single dependency
    /// (see [`packages_url`]).
    pub fn dev_packages_url(&self, dep: &AppDependency) -> (r: Option<String>)
        ensures
            r matches Some(u) ==> packages_url(*self, *dep) == Some(u@),
            r is None ==> packages_url(*self, *dep) is None,
    {
        let mut query = "publisher=".to_owned();
        push_str(&mut query, url_encode(dep.publisher.as_str()).as_str());
        push_str(&mut query, "&appName=");
        push_str(&mut query, url_encode(dep.name.as_str()).as_str());
        push_str(&mut query, "&versionText=");
        push_str(&mut query, url_encode(dep.version.as_str()).as_str());
        match self.environment_type {
            EnvironmentType::OnPrem => {
                let server = match &self.server {
                    Some(s) => s,
                    None => {
                        return None;
                    },
                };
                if !is_safe_http_server(server.as_str()) {
                    return None;
                }
                let instance = match &self.server_instance {
                    Some(s) => s,
                    None => {
                        return None;
                    },
                };
                let sv = chars_of(server.as_str());
                let mut e = sv.len();
                assert(sv@.take(e as int) =~= sv@);
                while e > 0 && sv[e - 1] == '/'
                    invariant
                        e <= sv@.len(),
                        trim_end_slashes(sv@) == trim_end_slashes(sv@.take(e as int)),
                    decreases e,
                {
                    assert(sv@.take(e as int).drop_last() =~= sv@.take(e - 1));
                    e = e - 1;
                }
                assert(sv@.take(e as int) == sv@.take(e as int).take(e as int));
                let mut url = string_of(&crate::text::copy_range(&sv, 0, e));
                assert(sv@.subrange(0, e as int) =~= sv@.take(e as int));
                if let Some(p) = self.port {
                    push_str(&mut url, ":");
                    push_decimal(&mut url, p as u64);
                }
                push_str(&mut url, "/");
                push_str(&mut url, instance.as_str());
                push_str(&mut url, "/dev/packages?");
                push_str(&mut url, query.as_str());
                if let Some(t) = &self.tenant {
                    push_str(&mut url, "&tenant=");
                    push_str(&mut url, url_encode(t.as_str()).as_str());
                }
                Some(url)
            },
            _ => {
                let tenant = match &self.tenant {
                    Some(t) => t,
                    None => {
                        return None;
                    },
                };
                let env = match &self.environment_name {
                    Some(e) => e,
                    None => {
                        return None;
                    },
                };
                let mut url = "https://api.businesscentral.dynamics.com/v2.0/".to_owned();
                push_str(&mut url, url_encode(tenant.as_str()).as_str());
                push_str(&mut url, "/");
                push_str(&mut url, url_encode(env.as_str()).as_str());
                push_str(&mut url, "/dev/packages?");
                push_str(&mut url, query.as_str());
                Some(url)
            },
        }
    }

    /// Human-readable display name for logging.
    pub fn display_name(&self) -> (r: String)
        ensures
            r@ == server_display_name(*self),
    {
        match self.environment_type {
            EnvironmentType::OnPrem => {
                let mut s = match &self.server {
                    Some(v) => v.clone(),
                    None => "?".to_owned(),
                };
                push_str(&mut s, "/");
                match &self.server_instance {
                    Some(v) => push_str(&mut s, v.as_str()),
                    None => push_str(&mut s, "?"),
                }
                s
            },
            _ => {
                let mut s = "BC Cloud (".to_owned();
                match &self.environment_name {
                    Some(v) => push_str(&mut s, v.as_str()),
                    None => push_str(&mut s, "?"),
                }
                push_str(&mut s, ")");
                s
            },
        }
    }
}


// ---------------------------------------------------------------------------
// Decoded configuration entries
// ---------------------------------------------------------------------------

/// One entry of a debug configuration file as decoded from JSON: `name` is
/// the Zed `label` or the VS Code `name`, `adapter` the Zed `adapter` or the
/// VS Code `type`; missing strings are empty, missing flags false.
#[derive(Debug, Clone)]
pub struct RawLaunchConfig {
    pub name: String,
    pub adapter: String,
    pub environment_type: Option<String>,
    pub server: Option<String>,
    pub server_instance: Option<String>,
    pub port: Option<u16>,
    pub environment_name: Option<String>,
    pub tenant: Option<String>,
    pub authentication: Option<String>,
    pub accept_invalid_certs: bool,
}

/// The environment type named by `s`, if it is one of `OnPrem`, `Sandbox`,
/// `Production`.
pub open spec fn environment_type_of(s: Seq<char>) -> Option<EnvironmentType> {
    if s == "OnPrem"@ {
        Some(EnvironmentType::OnPrem)
    } else if s == "Sandbox"@ {
        Some(EnvironmentType::Sandbox)
    } else if s == "Production"@ {
        Some(EnvironmentType::Production)
    } else {
        None
    }
}

/// Parses an `environmentType` value (see [`environment_type_of`]).
pub fn parse_environment_type(s: &str) -> (r: Option<EnvironmentType>)
    ensures
        r == environment_type_of(s@),
{
    let v = chars_of(s);
    if crate::text::vec_eq(&v, &chars_of("OnPrem")) {
        Some(EnvironmentType::OnPrem)
    } else if crate::text::vec_eq(&v, &chars_of("Sandbox")) {
        Some(EnvironmentType::Sandbox)
    } else if crate::text::vec_eq(&v, &chars_of("Production")) {
        Some(EnvironmentType::Production)
    } else {
        None
    }
}

/// The default authentication of an environment type: Windows on-prem,
/// AAD in the cloud.
pub open spec fn default_auth(env: EnvironmentType) -> AuthMethod {
    if env == EnvironmentType::OnPrem {
        AuthMethod::Windows
    } else {
        AuthMethod::AAD
    }
}

/// The authentication method named by `s`; absent or unknown names fall
/// back to the environment type's default.
pub open spec fn auth_method_of(s: Option<Seq<char>>, env: EnvironmentType) -> AuthMethod {
    match s {
        Some(a) => if a == "UserPassword"@ {
            AuthMethod::UserPassword
        } else if a == "Windows"@ {
            AuthMethod::Windows
        } else if a == "AAD"@ || a == "MicrosoftEntraID"@ {
            AuthMethod::AAD
        } else {
            default_auth(env)
        },
        None => default_auth(env),
    }
}

/// Parses an `authentication` value (see [`auth_method_of`]).
pub fn parse_auth_method(s: Option<&str>, env_type: &EnvironmentType) -> (r: AuthMethod)
    ensures
        r == auth_method_of(
            match s {
                Some(a) => Some(a@),
                None => None,
            },
            *env_type,
        ),
{
    let fallback = if *env_type == EnvironmentType::OnPrem {
        AuthMethod::Windows
    } else {
        AuthMethod::AAD
    };
    match s {
        Some(a) => {
            let v = chars_of(a);
            if crate::text::vec_eq(&v, &chars_of("UserPassword")) {
                AuthMethod::UserPassword
            } else if crate::text::vec_eq(&v, &chars_of("Windows")) {
                AuthMethod::Windows
            } else if crate::text::vec_eq(&v, &chars_of("AAD")) || crate::text::vec_eq(
                &v,
                &chars_of("MicrosoftEntraID"),
            ) {
                AuthMethod::AAD
            } else {
                fallback
            }
        },
        None => fallback,
    }
}

/// The server configuration an entry describes: entries without a known
/// environment type describe none.
pub open spec fn config_of(raw: RawLaunchConfig) -> Option<(EnvironmentType, AuthMethod)> {
    match opt_view(raw.environment_type) {
        Some(e) => match environment_type_of(e) {
            Some(env) => Some((env, auth_method_of(opt_view(raw.authentication), env))),
            None => None,
        },
        None => None,
    }
}

/// The environment type of an entry that describes a server.
pub open spec fn config_env(raw: RawLaunchConfig) -> EnvironmentType {
    match config_of(raw) {
        Some((e, _)) => e,
        None => EnvironmentType::OnPrem,
    }
}

/// The authentication of an entry that describes a server.
pub open spec fn config_auth(raw: RawLaunchConfig) -> AuthMethod {
    match config_of(raw) {
        Some((_, a)) => a,
        None => AuthMethod::Windows,
    }
}

/// `c` carries the fields of `raw` with the given type and authentication.
pub open spec fn config_matches(c: BcServerConfig, raw: RawLaunchConfig, env: EnvironmentType, auth: AuthMethod) -> bool {
    &&& c.name@ == raw.name@
    &&& c.environment_type == env
    &&& opt_view(c.server) == opt_view(raw.server)
    &&& opt_view(c.server_instance) == opt_view(raw.server_instance)
    &&& c.port == raw.port
    &&& opt_view(c.environment_name) == opt_view(raw.environment_name)
    &&& opt_view(c.tenant) == opt_view(raw.tenant)
    &&& c.authentication == auth
    &&& c.accept_invalid_certs == raw.accept_invalid_certs
}

/// The server configuration of one decoded entry (see [`config_of`]).
pub fn convert_config(raw: RawLaunchConfig) -> (r: Option<BcServerConfig>)
    ensures
        r is Some <==> config_of(raw) is Some,
        r matches Some(c) ==> config_matches(c, raw, config_env(raw), config_auth(raw)),
{
    let env_type = match &raw.environment_type {
        Some(e) => match parse_environment_type(e.as_str()) {
            Some(t) => t,
            None => {
                return None;
            },
        },
        None => {
            return None;
        },
    };
    let auth = match &raw.authentication {
        Some(a) => parse_auth_method(Some(a.as_str()), &env_type),
        None => parse_auth_method(None, &env_type),
    };
    Some(BcServerConfig {
        name: raw.name,
        environment_type: env_type,
        server: raw.server,
        server_instance: raw.server_instance,
        port: raw.port,
        environment_name: raw.environment_name,
        tenant: raw.tenant,
        authentication: auth,
        accept_invalid_certs: raw.accept_invalid_certs,
    })
}

/// An entry is meant for AL: its adapter is `al` or it names an
/// environment type.
pub open spec fn is_al_entry(raw: RawLaunchConfig) -> bool {
    raw.adapter@ == "al"@ || raw.environment_type is Some
}

/// The entries of `raws` that yield a server configuration, in order.
pub open spec fn usable_entries(raws: Seq<RawLaunchConfig>) -> Seq<RawLaunchConfig>
    decreases raws.len(),
{
    if raws.len() == 0 {
        Seq::empty()
    } else {
        let rest = usable_entries(raws.drop_last());
        let r = raws.last();
        if is_al_entry(r) && config_of(r) is Some {
            rest.push(r)
        } else {
            rest
        }
    }
}

/// `cs` are the server configurations of the usable entries of `raws`, in
/// order.
pub open spec fn configs_of(cs: Seq<BcServerConfig>, raws: Seq<RawLaunchConfig>) -> bool {
    &&& cs.len() == usable_entries(raws).len()
    &&& forall|i: int|
        0 <= i < cs.len() ==> config_matches(
            #[trigger] cs[i],
            usable_entries(raws)[i],
            config_env(usable_entries(raws)[i]),
            config_auth(usable_entries(raws)[i]),
        )
}

/// The server configurations of a file's entries: AL entries with a known
/// environment type, in order.
pub fn select_configs(raws: Vec<RawLaunchConfig>) -> (r: Vec<BcServerConfig>)
    ensures
        configs_of(r@, raws@),
{
    let ghost all = raws@;
    let mut out: Vec<BcServerConfig> = Vec::new();
    let mut rest = raws;
    let mut i: usize = 0;
    let total = rest.len();
    while rest.len() > 0
        invariant
            i + rest@.len() == all.len(),
            total == all.len(),
            rest@ == all.skip(i as int),
            out@.len() == usable_entries(all.take(i as int)).len(),
            forall|k: int|
                0 <= k < out@.len() ==> config_matches(
                    #[trigger] out@[k],
                    usable_entries(all.take(i as int))[k],
                    config_env(usable_entries(all.take(i as int))[k]),
                    config_auth(usable_entries(all.take(i as int))[k]),
                ),
        decreases rest@.len(),
    {
        let raw = rest.remove(0);
        assert(raw == all[i as int]);
        assert(all.take(i + 1).drop_last() =~= all.take(i as int));
        assert(all.take(i + 1).last() == raw);
        let is_al = crate::text::vec_eq(&chars_of(raw.adapter.as_str()), &chars_of("al"))
            || raw.environment_type.is_some();
        if is_al {
            let ghost r0 = raw;
            let ghost o0 = out@;
            match convert_config(raw) {
                Some(c) => {
                    out.push(c);
                    assert forall|k: int| 0 <= k < out@.len() implies config_matches(
                        #[trigger] out@[k],
                        usable_entries(all.take(i + 1))[k],
                        config_env(usable_entries(all.take(i + 1))[k]),
                        config_auth(usable_entries(all.take(i + 1))[k]),
                    ) by {
                        if k < o0.len() {
                            assert(out@[k] == o0[k]);
                        }
                    }
                },
                None => {},
            }
        }
        i = i + 1;
        assert(rest@ =~= all.skip(i as int));
    }
    assert(all.take(all.len() as int) =~= all);
    out
}

/// What reading one configuration file gave: the file is absent, could not
/// be read or decoded (with the reason), or decoded into entries.
#[derive(Debug, Clone)]
pub enum LaunchFileRead {
    Missing,
    Failed(String),
    Decoded(Vec<RawLaunchConfig>),
}

/// The configuration file that wins: the Zed file when it yields a server
/// configuration, else the VS Code file when it does, else none.
pub fn find_launch_config(
    zed_path: String,
    zed: LaunchFileRead,
    vscode_path: String,
    vscode: LaunchFileRead,
) -> (r: Option<DebugConfigFile>)
    ensures
        r matches Some(f) ==> f.configs@.len() > 0 && ((zed matches LaunchFileRead::Decoded(raws)
            && f.path == zed_path && configs_of(f.configs@, raws@)) || (vscode matches LaunchFileRead::Decoded(
            raws,
        ) && f.path == vscode_path && configs_of(f.configs@, raws@) && !(zed matches LaunchFileRead::Decoded(
            zr,
        ) && usable_entries(zr@).len() > 0))),
        r is None ==> !(zed matches LaunchFileRead::Decoded(zr) && usable_entries(zr@).len() > 0)
            && !(vscode matches LaunchFileRead::Decoded(vr) && usable_entries(vr@).len() > 0),
{
    if let LaunchFileRead::Decoded(raws) = zed {
        let configs = select_configs(raws);
        if configs.len() > 0 {
            return Some(DebugConfigFile { path: zed_path, configs });
        }
    }
    if let LaunchFileRead::Decoded(raws) = vscode {
        let configs = select_configs(raws);
        if configs.len() > 0 {
            return Some(DebugConfigFile { path: vscode_path, configs });
        }
    }
    None
}

/// Largest debug configuration file that is read, in bytes.
pub const MAX_LAUNCH_FILE_BYTES: u64 = 1_048_576;

/// The refusal for a configuration file of `size` bytes at `path`, when it
/// is over [`MAX_LAUNCH_FILE_BYTES`].
pub open spec fn launch_size_refusal(path: Seq<char>, size: u64) -> Option<Seq<char>> {
    if size > MAX_LAUNCH_FILE_BYTES {
        Some(path + " is "@ + digits(size as nat) + " bytes — refusing to parse (cap = "@ + digits(
            MAX_LAUNCH_FILE_BYTES as nat,
        ) + " bytes)"@)
    } else {
        None
    }
}

/// The refusal message for an oversized configuration file (see
/// [`launch_size_refusal`]).
pub fn launch_file_size_check(path: &str, size: u64) -> (r: Option<String>)
    ensures
        r matches Some(m) ==> launch_size_refusal(path@, size) == Some(m@),
        r is None ==> launch_size_refusal(path@, size) is None,
{
    if size > MAX_LAUNCH_FILE_BYTES {
        let mut m = path.to_owned();
        push_str(&mut m, " is ");
        push_decimal(&mut m, size);
        push_str(&mut m, " bytes — refusing to parse (cap = ");
        push_decimal(&mut m, MAX_LAUNCH_FILE_BYTES);
        push_str(&mut m, " bytes)");
        Some(m)
    } else {
        None
    }
}


// ---------------------------------------------------------------------------
// Comments in JSON configuration files
// ---------------------------------------------------------------------------

/// Where a scan of JSON text with comments stands.
#[derive(Debug, Clone, Copy, PartialEq, Eq, Structural)]
pub enum JsonScan {
    /// Outside strings and comments.
    Code,
    /// Inside a string.
    Str,
    /// Inside a `//` comment.
    Line,
    /// Inside a `/* */` comment.
    Block,
}

/// `s` scanned from `mode` with its comments left out: `//` comments up
/// to (not including) the line break, and `/* */` comments; strings, with
/// their `\` escapes, are kept as they are.
pub open spec fn uncommented(s: Seq<char>, mode: JsonScan) -> Seq<char>
    decreases s.len(),
{
    if s.len() == 0 {
        seq![]
    } else {
        let c = s[0];
        let two = s.len() >= 2;
        match mode {
            JsonScan::Code => if c == '"' {
                seq![c] + uncommented(s.drop_first(), JsonScan::Str)
            } else if c == '/' && two && s[1] == '/' {
                uncommented(s.skip(2), JsonScan::Line)
            } else if c == '/' && two && s[1] == '*' {
                uncommented(s.skip(2), JsonScan::Block)
            } else {
                seq![c] + uncommented(s.drop_first(), JsonScan::Code)
            },
            JsonScan::Str => if c == '\\' && two {
                seq![c, s[1]] + uncommented(s.skip(2), JsonScan::Str)
            } else if c == '"' {
                seq![c] + uncommented(s.drop_first(), JsonScan::Code)
            } else {
                seq![c] + uncommented(s.drop_first(), JsonScan::Str)
            },
            JsonScan::Line => if c == '\n' {
                seq![c] + uncommented(s.drop_first(), JsonScan::Code)
            } else {
                uncommented(s.drop_first(), JsonScan::Line)
            },
            JsonScan::Block => if c == '*' && two && s[1] == '/' {
                uncommented(s.skip(2), JsonScan::Code)
            } else {
                uncommented(s.drop_first(), JsonScan::Block)
            },
        }
    }
}

/// JSON text with its `//` and `/* */` comments removed (see
/// [`uncommented`]), as `launch.json` and `.zed/debug.json` files allow them.
pub fn strip_json_comments(text: &str) -> (r: String)
    ensures
        r@ == uncommented(text@, JsonScan::Code),
{
    let v = chars_of(text);
    let n = v.len();
    let mut out: Vec<char> = Vec::new();
    let mut mode = JsonScan::Code;
    let mut i: usize = 0;
    assert(v@.skip(0) =~= v@);
    assert(out@ + uncommented(v@, JsonScan::Code) =~= uncommented(v@, JsonScan::Code));
    while i < n
        invariant
            n == v@.len(),
            i <= n,
            out@ + uncommented(v@.skip(i as int), mode) == uncommented(v@, JsonScan::Code),
        decreases n - i,
    {
        let ghost rest = v@.skip(i as int);
        let c = v[i];
        let two = i + 1 < n;
        assert(rest[0] == c);
        assert(two ==> rest[1] == v@[i + 1]);
        assert(rest.drop_first() =~= v@.skip(i + 1));
        assert(two ==> rest.skip(2) =~= v@.skip(i + 2));
        let ghost before = out@;
        let ghost m0 = mode;
        let mut step: usize = 1;
        match mode {
            JsonScan::Code => {
                if c == '"' {
                    out.push(c);
                    mode = JsonScan::Str;
                } else if c == '/' && two && v[i + 1] == '/' {
                    mode = JsonScan::Line;
                    step = 2;
                } else if c == '/' && two && v[i + 1] == '*' {
                    mode = JsonScan::Block;
                    step = 2;
                } else {
                    out.push(c);
                }
            },
            JsonScan::Str => {
                if c == '\\' && two {
                    out.push(c);
                    out.push(v[i + 1]);
                    step = 2;
                    assert(out@ =~= before + seq![c, v@[i + 1]]);
                } else if c == '"' {
                    out.push(c);
                    mode = JsonScan::Code;
                } else {
                    out.push(c);
                }
            },
            JsonScan::Line => {
                if c == '\n' {
                    out.push(c);
                    mode = JsonScan::Code;
                }
            },
            JsonScan::Block => {
                if c == '*' && two && v[i + 1] == '/' {
                    mode = JsonScan::Code;
                    step = 2;
                }
            },
        }
        assert(out@ + uncommented(v@.skip(i + step), mode) =~= before + uncommented(rest, m0));
        i = i + step;
    }
    assert(v@.skip(n as int) =~= Seq::<char>::empty());
    assert(out@ + Seq::<char>::empty() =~= out@);
    string_of(&out)
}

} // verus!
