use al_core::publish::{
    publish_next, publish_start, PublishAction, PublishEvent, PublishReply,
    extract_app_id_from_manifest, compile_step, publish_method, rad_step, resolve_server_config, upload_step, PublishConfig,
    PublishError, PublishPhase, CompileDiagnostic, DiagnosticSeverity, count_errors,
};

#[test]
fn publish_config_defaults() {
    let cfg = PublishConfig::new("/tmp/myproject".to_string());
    assert!(!cfg.no_debug);
    assert!(!cfg.incremental);
    assert!(cfg.config_name.is_none());
    assert_eq!(cfg.project_root, "/tmp/myproject");
}

#[test]
fn resolve_config_no_launch_json_returns_error() {
    let result = resolve_server_config(None, None);
    assert!(matches!(result, Err(PublishError::NoLaunchConfig)));
}

#[test]
fn methods_and_compile_steps() {
    assert_eq!(publish_method(true), "rad");
    assert_eq!(publish_method(false), "standard");
    let ok = compile_step(true, Some("/tmp/MyPub_MyApp_1.0.0.0.app"), 0);
    assert_eq!(ok.phase, PublishPhase::Compile);
    assert!(ok.success);
    assert_eq!(ok.message.as_deref(), Some("Built: /tmp/MyPub_MyApp_1.0.0.0.app"));
    assert_eq!(compile_step(true, None, 0).message, None);
    let failed = compile_step(false, None, 3);
    assert!(!failed.success);
    assert_eq!(failed.message.as_deref(), Some("3 compilation error(s)"));
}

#[test]
fn upload_and_rad_steps_read_the_status() {
    let s = upload_step(&Ok(None));
    assert!(s.success);
    assert_eq!(s.phase, PublishPhase::Upload);
    assert_eq!(s.message.as_deref(), Some("Uploaded"));
    let s = upload_step(&Ok(Some("Failed".to_string())));
    assert!(!s.success);
    assert_eq!(s.message.as_deref(), Some("Failed"));
    let s = upload_step(&Err("connection refused".to_string()));
    assert!(!s.success);
    assert_eq!(s.message.as_deref(), Some("connection refused"));

    let r = rad_step(&Ok(None));
    assert!(r.success);
    assert_eq!(r.phase, PublishPhase::Rad);
    assert_eq!(r.message, None);
    let r = rad_step(&Ok(Some("Completed".to_string())));
    assert!(r.success);
    assert_eq!(r.message.as_deref(), Some("Completed"));
    assert!(!rad_step(&Ok(Some("Failed".to_string()))).success);
}

#[test]
fn extract_app_id_from_valid_manifest() {
    let bytes = br#"{"id":"test-guid-123","name":"Test","publisher":"Me","version":"1.0.0"}"#;
    assert_eq!(extract_app_id_from_manifest(bytes).as_deref(), Some("test-guid-123"));
}

#[test]
fn manifest_without_string_id_gives_none() {
    assert_eq!(extract_app_id_from_manifest(br#"{"id":5}"#), None);
    assert_eq!(extract_app_id_from_manifest(b"not json"), None);
    assert_eq!(extract_app_id_from_manifest(b""), None);
}

fn compiled(path: Option<&str>) -> PublishEvent {
    PublishEvent::Compiled { success: true, app_path: path.map(|p| p.to_string()), diagnostics: Vec::new() }
}

fn diag(severity: DiagnosticSeverity, message: &str) -> CompileDiagnostic {
    CompileDiagnostic { severity, message: message.to_string() }
}

fn diags() -> Vec<CompileDiagnostic> {
    vec![
        diag(DiagnosticSeverity::Error, "missing semicolon"),
        diag(DiagnosticSeverity::Warning, "unused variable"),
        diag(DiagnosticSeverity::Error, "unknown identifier"),
    ]
}

fn reply(status: Option<&str>) -> PublishReply {
    PublishReply {
        status: status.map(|s| s.to_string()),
        app_id: Some("guid-123".to_string()),
        version: Some("1.0.0.0".to_string()),
    }
}

#[test]
fn standard_publish_runs_compile_then_upload() {
    let st = publish_start("localhost/BC".to_string(), false);
    let (st, action) = publish_next(st, compiled(Some("/tmp/MyPub_MyApp_1.0.0.0.app")));
    assert!(matches!(&action, PublishAction::Upload { app_path } if app_path == "/tmp/MyPub_MyApp_1.0.0.0.app"));
    let (_, action) = publish_next(st, PublishEvent::Uploaded(Ok(reply(None))));
    match action {
        PublishAction::Finish(r) => {
            assert!(r.success);
            assert_eq!(r.server, "localhost/BC");
            assert_eq!(r.method, "standard");
            assert_eq!(r.app_path.as_deref(), Some("/tmp/MyPub_MyApp_1.0.0.0.app"));
            assert_eq!(r.app_id.as_deref(), Some("guid-123"));
            assert_eq!(r.app_version.as_deref(), Some("1.0.0.0"));
            assert_eq!(r.steps.len(), 2);
            assert_eq!(r.steps[0].phase, PublishPhase::Compile);
            assert_eq!(r.steps[1].message.as_deref(), Some("Uploaded"));
        }
        other => panic!("unexpected {other:?}"),
    }
}

#[test]
fn failed_build_finishes_without_upload() {
    let st = publish_start("s".to_string(), false);
    let (_, action) =
        publish_next(st, PublishEvent::Compiled { success: false, app_path: None, diagnostics: diags() });
    match action {
        PublishAction::Finish(r) => {
            assert!(!r.success);
            assert_eq!(r.method, "standard");
            assert_eq!(r.app_path, None);
            assert_eq!(r.app_id, None);
            assert_eq!(r.steps.len(), 1);
            assert_eq!(r.steps[0].phase, PublishPhase::Compile);
            assert!(!r.steps[0].success);
            assert_eq!(r.steps[0].message.as_deref(), Some("2 compilation error(s)"));
            assert_eq!(r.diagnostics.len(), 3);
            assert_eq!(r.diagnostics[1].message, "unused variable");
        }
        other => panic!("unexpected {other:?}"),
    }
    let (_, action) = publish_next(publish_start("s".to_string(), false), compiled(None));
    assert!(matches!(action, PublishAction::Fail(PublishError::NoAppFile)));
}

#[test]
fn incremental_publish_uses_rad_when_manifest_has_id() {
    let st = publish_start("s".to_string(), true);
    let (st, action) = publish_next(st, compiled(Some("a.app")));
    assert!(matches!(action, PublishAction::ReadManifest));
    let (st2, action) = publish_next(st.clone(), PublishEvent::ManifestRead(Some("id-1".to_string())));
    assert!(matches!(&action, PublishAction::RadPublish { app_id, app_path } if app_id == "id-1" && app_path == "a.app"));
    let (_, action) = publish_next(st2, PublishEvent::RadReplied(Ok(reply(Some("Failed")))));
    match action {
        PublishAction::Finish(r) => {
            assert!(!r.success);
            assert_eq!(r.method, "rad");
            assert_eq!(r.steps[1].phase, PublishPhase::Rad);
        }
        other => panic!("unexpected {other:?}"),
    }
    let (_, action) = publish_next(st, PublishEvent::ManifestRead(None));
    assert!(matches!(&action, PublishAction::Upload { app_path } if app_path == "a.app"));
}

#[test]
fn count_errors_counts_only_errors() {
    assert_eq!(count_errors(&diags()), 2);
    assert_eq!(count_errors(&Vec::new()), 0);
}

#[test]
fn finished_run_carries_the_build_diagnostics() {
    let st = publish_start("s".to_string(), false);
    let ev = PublishEvent::Compiled { success: true, app_path: Some("x.app".to_string()), diagnostics: vec![diag(DiagnosticSeverity::Warning, "w")] };
    let (st, _) = publish_next(st, ev);
    assert_eq!(st.steps[0].message.as_deref(), Some("Built: x.app"));
    let (_, action) = publish_next(st, PublishEvent::Uploaded(Err("connection refused".to_string())));
    match action {
        PublishAction::Finish(r) => {
            assert!(!r.success);
            assert_eq!(r.diagnostics.len(), 1);
            assert_eq!(r.diagnostics[0].message, "w");
            assert_eq!(r.steps[1].phase, PublishPhase::Upload);
            assert!(!r.steps[1].success);
            assert_eq!(r.steps[1].message.as_deref(), Some("connection refused"));
            assert_eq!(r.app_id, None);
        }
        other => panic!("unexpected {other:?}"),
    }
}
