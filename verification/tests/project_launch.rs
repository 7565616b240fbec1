use al_core::launch::strip_json_comments;
use al_core::launch::{
    find_launch_config, is_safe_http_server, launch_file_size_check, parse_auth_method,
    parse_environment_type, select_configs, AppDependency, AuthMethod, BcServerConfig,
    EnvironmentType, LaunchFileRead, RawLaunchConfig,
};
use al_core::project::{
    app_json_size_check, dedup_package_versions, is_app_package_ext, nuget_feeds,
    searches_subdir, AlProject, AppManifest,
};
use std::path::Path;

fn paths(names: &[&str]) -> Vec<String> {
    names.iter().map(|s| s.to_string()).collect()
}

fn file_name(p: &str) -> String {
    Path::new(p).file_name().unwrap().to_string_lossy().into_owned()
}

#[test]
fn keeps_only_highest_version_per_package() {
    let result = dedup_package_versions(paths(&[
        "/p/Microsoft_Application_27.3.44313.45677.app",
        "/p/Microsoft_Application_27.4.45366.45675.app",
        "/p/Insight Works_Product Configurator_4.0.9405.1.app",
        "/p/Insight Works_Product Configurator_4.0.9447.1.app",
    ]));
    let names: Vec<String> = result.iter().map(|p| file_name(p)).collect();
    assert_eq!(
        names,
        vec![
            "Insight Works_Product Configurator_4.0.9447.1.app",
            "Microsoft_Application_27.4.45366.45675.app",
        ],
        "only the newest version of each package may remain"
    );
}

#[test]
fn unversioned_and_distinct_packages_survive() {
    let result = dedup_package_versions(paths(&[
        "/p/System.app",
        "/p/Microsoft_Application_27.4.45366.45675.app",
        "/p/Microsoft_Base Application_27.4.45366.45675.app",
    ]));
    assert_eq!(result.len(), 3, "got: {result:?}");
}

#[test]
fn version_compare_is_numeric() {
    let result = dedup_package_versions(paths(&[
        "/p/Vendor_App_9.0.0.0.app",
        "/p/Vendor_App_10.0.0.0.app",
    ]));
    assert_eq!(file_name(&result[0]), "Vendor_App_10.0.0.0.app");
}

#[test]
fn test_nuget_feeds_returns_three() {
    assert_eq!(nuget_feeds().len(), 3);
}

#[test]
fn dedup_keeps_first_of_equal_versions_and_sorts() {
    let result = dedup_package_versions(paths(&[
        "/p/b_Lib_1.0.app",
        "/p/B_lib_1.0.app",
        "/p/a_X_+2.app",
        "/p/c_Y_1.x.app",
    ]));
    assert_eq!(result, vec!["/p/a_X_+2.app", "/p/b_Lib_1.0.app", "/p/c_Y_1.x.app"]);
}

fn manifest(application: Option<&str>, platform: Option<&str>, deps: Vec<AppDependency>) -> AppManifest {
    AppManifest {
        id: "00000000-0000-0000-0000-000000000000".into(),
        name: "Test".into(),
        publisher: "Test".into(),
        version: "1.0.0.0".into(),
        dependencies: deps,
        application: application.map(|s| s.to_string()),
        platform: platform.map(|s| s.to_string()),
        runtime: None,
    }
}

fn project(m: AppManifest) -> AlProject {
    AlProject {
        root: "/tmp/fake".into(),
        app_json: m,
        packages_dir: "/tmp/fake/.alpackages".into(),
        packages: vec![],
        server_configs: vec![],
    }
}

#[test]
fn all_dependencies_includes_implicit() {
    let p = project(manifest(Some("25.0.0.0"), Some("25.0.0.0"), vec![]));
    let deps = p.all_dependencies();
    assert_eq!(deps.len(), 5);
    assert_eq!(deps[0].name, "Application");
    assert_eq!(deps[4].name, "System");
    assert_eq!(deps[4].version, "25.0.0.0");
    assert!(deps.iter().all(|d| d.publisher == "Microsoft"));
}

#[test]
fn all_dependencies_respects_explicit_ids_and_fallback() {
    let base = AppDependency {
        id: "437dbf0e-84ff-417a-965d-ed2bb9650972".into(),
        name: "Base Application".into(),
        publisher: "Microsoft".into(),
        version: "24.1.0.0".into(),
    };
    let p = project(manifest(Some("24.5.0.0"), None, vec![base]));
    let deps = p.all_dependencies();
    assert_eq!(deps.len(), 4);
    assert_eq!(deps[0].version, "24.1.0.0");
    let p = project(manifest(None, Some("1.0.0.0"), vec![]));
    let deps = p.all_dependencies();
    assert_eq!(deps.len(), 1);
    assert_eq!(deps[0].version, "26.0.0.0");
}

#[test]
fn discovery_limits_and_filters() {
    assert_eq!(app_json_size_check(1_048_576), None);
    let m = app_json_size_check(2_000_000).unwrap();
    assert_eq!(m, "app.json is 2000000 bytes — refusing to parse (cap = 1048576 bytes)");
    assert!(m.contains("refusing to parse"));
    assert!(searches_subdir("src"));
    assert!(!searches_subdir(".git"));
    assert!(!searches_subdir("node_modules"));
    assert!(is_app_package_ext("APP"));
    assert!(!is_app_package_ext("zip"));
    let m = launch_file_size_check("x/launch.json", 3_000_000).unwrap();
    assert!(m.starts_with("x/launch.json is 3000000 bytes"));
    assert_eq!(launch_file_size_check("x", 10), None);
}

#[test]
fn server_scheme_allowlist_accepts_http_and_bare_host() {
    assert!(is_safe_http_server("http://localhost"));
    assert!(is_safe_http_server("https://bc.example.com"));
    assert!(is_safe_http_server("HTTP://CASE-INSENSITIVE"));
    assert!(is_safe_http_server("localhost"));
    assert!(is_safe_http_server("localhost:7048"));
    assert!(is_safe_http_server("bc.example.com"));
}

#[test]
fn server_scheme_allowlist_rejects_unsafe_schemes() {
    assert!(!is_safe_http_server("file:///etc/passwd"));
    assert!(!is_safe_http_server("gopher://example.com"));
    assert!(!is_safe_http_server("javascript://alert(1)"));
    assert!(!is_safe_http_server("ftp://example.com"));
    assert!(!is_safe_http_server(""));
    assert!(!is_safe_http_server("   "));
}

fn onprem() -> BcServerConfig {
    BcServerConfig {
        name: "local".into(),
        environment_type: EnvironmentType::OnPrem,
        server: Some("http://bc.local//".into()),
        server_instance: Some("BC".into()),
        port: Some(7049),
        environment_name: None,
        tenant: Some("default".into()),
        authentication: AuthMethod::Windows,
        accept_invalid_certs: false,
    }
}

fn dep() -> AppDependency {
    AppDependency {
        id: "x".into(),
        name: "Base Application".into(),
        publisher: "Microsoft".into(),
        version: "24.0.0.0".into(),
    }
}

#[test]
fn dev_packages_url_on_prem_and_cloud() {
    assert_eq!(
        onprem().dev_packages_url(&dep()).unwrap(),
        "http://bc.local:7049/BC/dev/packages?publisher=Microsoft&appName=Base%20Application&versionText=24.0.0.0&tenant=default"
    );
    let mut bad = onprem();
    bad.server = Some("file:///etc".into());
    assert_eq!(bad.dev_packages_url(&dep()), None);
    let mut no_instance = onprem();
    no_instance.server_instance = None;
    assert_eq!(no_instance.dev_packages_url(&dep()), None);
    let cloud = BcServerConfig {
        environment_type: EnvironmentType::Sandbox,
        environment_name: Some("My Sandbox".into()),
        tenant: Some("contoso.com".into()),
        ..onprem()
    };
    assert_eq!(
        cloud.dev_packages_url(&dep()).unwrap(),
        "https://api.businesscentral.dynamics.com/v2.0/contoso.com/My%20Sandbox/dev/packages?publisher=Microsoft&appName=Base%20Application&versionText=24.0.0.0"
    );
    assert_eq!(cloud.display_name(), "BC Cloud (My Sandbox)");
    assert_eq!(onprem().display_name(), "http://bc.local///BC");
}

#[test]
fn environment_and_auth_parsing() {
    assert_eq!(parse_environment_type("OnPrem"), Some(EnvironmentType::OnPrem));
    assert_eq!(parse_environment_type("onprem"), None);
    assert_eq!(parse_auth_method(Some("MicrosoftEntraID"), &EnvironmentType::OnPrem), AuthMethod::AAD);
    assert_eq!(parse_auth_method(Some("NavUserPassword"), &EnvironmentType::OnPrem), AuthMethod::Windows);
    assert_eq!(parse_auth_method(None, &EnvironmentType::Production), AuthMethod::AAD);
    assert_eq!(parse_auth_method(Some("UserPassword"), &EnvironmentType::Sandbox), AuthMethod::UserPassword);
}

fn raw(adapter: &str, env: Option<&str>) -> RawLaunchConfig {
    RawLaunchConfig {
        name: "n".into(),
        adapter: adapter.into(),
        environment_type: env.map(|s| s.to_string()),
        server: Some("http://localhost".into()),
        server_instance: Some("BC".into()),
        port: None,
        environment_name: None,
        tenant: None,
        authentication: None,
        accept_invalid_certs: false,
    }
}

#[test]
fn launch_config_selection() {
    let configs = select_configs(vec![raw("al", Some("OnPrem")), raw("node", None), raw("al", Some("Cloud"))]);
    assert_eq!(configs.len(), 1);
    assert_eq!(configs[0].authentication, AuthMethod::Windows);
    let found = find_launch_config(
        "z".into(),
        LaunchFileRead::Decoded(vec![raw("node", None)]),
        "v".into(),
        LaunchFileRead::Decoded(vec![raw("al", Some("Sandbox"))]),
    )
    .unwrap();
    assert_eq!(found.path, "v");
    assert_eq!(found.configs[0].authentication, AuthMethod::AAD);
    assert!(find_launch_config("z".into(), LaunchFileRead::Missing, "v".into(), LaunchFileRead::Failed("bad".into())).is_none());
}

#[test]
fn bare_server_must_be_host_with_optional_numeric_port() {
    assert!(!is_safe_http_server("x:/y"));
    assert!(!is_safe_http_server("file:/etc/passwd"));
    assert!(!is_safe_http_server("localhost:abc"));
    assert!(!is_safe_http_server("localhost:"));
    assert!(!is_safe_http_server(":7048"));
    assert!(!is_safe_http_server("a:1:2"));
    assert!(!is_safe_http_server("host/path"));
    assert!(is_safe_http_server("  bc-server:7049  "));
}

#[test]
fn packages_sort_by_path_components() {
    let kept = dedup_package_versions(vec!["/x/a.b/c.app".to_string(), "/x/a/c.app".to_string()]);
    assert_eq!(kept, vec!["/x/a/c.app".to_string(), "/x/a.b/c.app".to_string()]);
}

#[test]
fn json_comments_are_stripped_outside_strings() {
    let text = "{\n  // the server\n  \"server\": \"http://bc//x\", /* port */ \"port\": 7049,\n  \"name\": \"a \\\" /* not a comment */\"\n}";
    let clean = strip_json_comments(text);
    assert_eq!(
        clean,
        "{\n  \n  \"server\": \"http://bc//x\",  \"port\": 7049,\n  \"name\": \"a \\\" /* not a comment */\"\n}"
    );
    let v: serde_json::Value = serde_json::from_str(&clean).unwrap();
    assert_eq!(v["port"], 7049);
    assert_eq!(strip_json_comments("[1] // end"), "[1] ");
    assert_eq!(strip_json_comments("/* open"), "");
}
