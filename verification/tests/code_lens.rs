use al_core::queries::code_lens::{
    build_reference_counts, procedure_lenses, reference_label, test_lens_title, CodeLensEntry,
    CodeLensKind, ProcSymbol, ReferenceSite, TestLensContext, TestLensStatus, TestRunRecord,
    TestStatus,
};
use al_core::queries::{Position, Range};

#[test]
fn test_reference_label_values() {
    assert_eq!(reference_label(0), "0 references");
    assert_eq!(reference_label(1), "1 reference");
    assert_eq!(reference_label(2), "2 references");
    assert_eq!(reference_label(100), "100 references");
}

#[test]
fn test_titles() {
    assert_eq!(test_lens_title(&TestLensStatus::NotRun), "○ Not run");
    assert_eq!(test_lens_title(&TestLensStatus::Running), "⟳ Running…");
    assert_eq!(
        test_lens_title(&TestLensStatus::Pass { duration_ms: 42 }),
        "✓ Pass (42ms)"
    );
    assert_eq!(
        test_lens_title(&TestLensStatus::Fail {
            error: Some("boom".to_string())
        }),
        "✗ Fail: boom"
    );
    assert_eq!(test_lens_title(&TestLensStatus::Fail { error: None }), "✗ Fail");
    assert_eq!(test_lens_title(&TestLensStatus::Skip), "⊘ Skip");
}

fn record(method: &str, status: TestStatus, ts: u64, dur: Option<u64>) -> TestRunRecord {
    TestRunRecord {
        codeunit_id: 50200,
        codeunit_name: "MyCodeunit".to_string(),
        method_name: method.to_string(),
        status,
        duration_ms: dur,
        error: None,
        timestamp: ts,
    }
}

fn ctx(records: Option<Vec<TestRunRecord>>) -> TestLensContext {
    TestLensContext {
        codeunit_id: 50200,
        test_proc_names_lower: vec!["testalpha".to_string(), "testbeta".to_string()],
        store_snapshot: records,
    }
}

#[test]
fn status_of_non_test_procedure_is_none() {
    assert_eq!(ctx(None).status_for("Helper"), None);
}

#[test]
fn status_without_store_is_not_run() {
    assert_eq!(ctx(None).status_for("TestAlpha"), Some(TestLensStatus::NotRun));
}

#[test]
fn status_follows_latest_matching_record() {
    let recs = vec![
        record("TestAlpha", TestStatus::Fail, 1000, None),
        record("TESTALPHA", TestStatus::Pass, 3000, Some(123)),
        record("TestAlpha", TestStatus::Skip, 2000, None),
        record("TestGamma", TestStatus::Pass, 9000, Some(1)),
    ];
    let c = ctx(Some(recs));
    assert_eq!(
        c.status_for("testalpha"),
        Some(TestLensStatus::Pass { duration_ms: 123 })
    );
    assert_eq!(c.status_for("TestBeta"), Some(TestLensStatus::NotRun));
}

#[test]
fn equal_timestamps_pick_the_later_record() {
    let mut failed = record("TestBeta", TestStatus::Fail, 5, None);
    failed.error = Some("Assert failed".to_string());
    let recs = vec![record("TestBeta", TestStatus::Pass, 5, None), failed];
    assert_eq!(
        ctx(Some(recs)).status_for("TestBeta"),
        Some(TestLensStatus::Fail {
            error: Some("Assert failed".to_string())
        })
    );
}

#[test]
fn records_of_other_codeunits_are_ignored() {
    let mut other = record("TestAlpha", TestStatus::Pass, 10, Some(5));
    other.codeunit_id = 1;
    assert_eq!(
        ctx(Some(vec![other])).status_for("TestAlpha"),
        Some(TestLensStatus::NotRun)
    );
}

fn at(line: u32, character: u32) -> Range {
    Range { start: Position { line, character }, end: Position { line, character: character + 4 } }
}

fn proc_sym(name: &str, line: u32) -> ProcSymbol {
    ProcSymbol { name: name.to_string(), selection_range: at(line, 14) }
}

fn site(name: &str, uri: &str, line: u32, character: u32) -> ReferenceSite {
    ReferenceSite { name: name.to_string(), uri: uri.to_string(), line, character }
}

#[test]
fn test_code_lens_finds_procedures() {
    let procs = vec![proc_sym("DoSomething", 3), proc_sym("AlsoThis", 7)];
    let lenses = procedure_lenses(&procs, &build_reference_counts(&Vec::new()), &None);
    assert!(lenses.len() >= 2);
    for l in &lenses {
        assert!(l.title.contains("reference"), "unexpected lens title: {}", l.title);
    }
}

#[test]
fn test_code_lens_with_references() {
    // `Greet` is called twice in its own body.
    let sites = vec![site("Greet", "file:///test.al", 5, 8), site("Greet", "file:///test.al", 6, 8)];
    let counts = build_reference_counts(&sites);
    let lenses = procedure_lenses(&vec![proc_sym("Greet", 3)], &counts, &None);
    assert!(!lenses.is_empty());
    let greet_lens = lenses.iter().find(|l| l.title.contains("reference"));
    assert!(greet_lens.is_some());
    assert_ne!(greet_lens.unwrap().title, "0 references");
    assert_eq!(greet_lens.unwrap().kind, CodeLensKind::Reference(2));
}

#[test]
fn test_code_lens_empty_file() {
    let lenses = procedure_lenses(&Vec::new(), &Vec::new(), &None);
    assert!(lenses.is_empty());
}

#[test]
fn reference_counts_merge_case_and_quotes_and_positions() {
    let sites = vec![
        site("\"Post Doc\"", "file:///a.al", 1, 4),
        site("post doc", "file:///a.al", 1, 4),
        site("POST DOC", "file:///b.al", 1, 4),
        site("Other", "file:///a.al", 2, 0),
        site("\"\"", "file:///a.al", 3, 0),
    ];
    let counts = build_reference_counts(&sites);
    assert_eq!(counts, vec![("post doc".to_string(), 2), ("other".to_string(), 1)]);
}

const TEST_PROCS: [&str; 3] = ["TestAlpha", "TestBeta", "HelperProc"];

fn test_ctx(records: Option<Vec<TestRunRecord>>) -> Option<TestLensContext> {
    Some(TestLensContext {
        codeunit_id: 50200,
        test_proc_names_lower: vec!["testalpha".to_string(), "testbeta".to_string()],
        store_snapshot: records,
    })
}

fn lenses_of(records: Option<Vec<TestRunRecord>>) -> Vec<CodeLensEntry> {
    let procs: Vec<ProcSymbol> = TEST_PROCS.iter().enumerate().map(|(i, n)| proc_sym(n, i as u32 * 5)).collect();
    procedure_lenses(&procs, &Vec::new(), &test_ctx(records))
}

fn test_lenses(lenses: &[CodeLensEntry]) -> Vec<&CodeLensEntry> {
    lenses.iter().filter(|l| matches!(l.kind, CodeLensKind::Test(_))).collect()
}

fn run(method: &str, status: TestStatus, duration_ms: Option<u64>, error: Option<&str>, ts: u64) -> TestRunRecord {
    TestRunRecord {
        codeunit_id: 50200,
        codeunit_name: "MyCodeunit".to_string(),
        method_name: method.to_string(),
        status,
        duration_ms,
        error: error.map(|e| e.to_string()),
        timestamp: ts,
    }
}

#[test]
fn test_lens_not_run_when_no_history() {
    let lenses = lenses_of(None);
    let tl = test_lenses(&lenses);
    assert_eq!(tl.len(), 2);
    for l in &tl {
        assert_eq!(l.kind, CodeLensKind::Test(TestLensStatus::NotRun));
        assert!(l.title.contains("Not run"));
    }
}

#[test]
fn test_lens_pass_when_history_shows_pass() {
    let lenses = lenses_of(Some(vec![run("TestAlpha", TestStatus::Pass, Some(123), None, 1000)]));
    let tl = test_lenses(&lenses);
    let alpha = tl.iter().find(|l| l.title.contains("Pass")).expect("a Pass lens");
    assert_eq!(alpha.kind, CodeLensKind::Test(TestLensStatus::Pass { duration_ms: 123 }));
}

#[test]
fn test_lens_fail_with_error_message() {
    let lenses = lenses_of(Some(vec![run(
        "TestBeta",
        TestStatus::Fail,
        None,
        Some("Assert failed: expected true"),
        2000,
    )]));
    let tl = test_lenses(&lenses);
    let beta = tl.iter().find(|l| l.title.contains("Fail")).expect("a Fail lens");
    assert_eq!(
        beta.kind,
        CodeLensKind::Test(TestLensStatus::Fail { error: Some("Assert failed: expected true".to_string()) })
    );
    assert!(beta.title.contains("Assert failed"));
}

#[test]
fn test_lens_history_mismatch_returns_not_run() {
    let lenses = lenses_of(Some(vec![run("TestGamma", TestStatus::Pass, Some(50), None, 1000)]));
    let tl = test_lenses(&lenses);
    assert_eq!(tl.len(), 2);
    for l in &tl {
        assert_eq!(l.kind, CodeLensKind::Test(TestLensStatus::NotRun));
    }
}

#[test]
fn test_lens_non_test_proc_gets_no_test_lens() {
    let lenses = lenses_of(None);
    // Reference, test, reference, test, reference: HelperProc has only its reference lens.
    assert_eq!(lenses.len(), 5);
    assert!(matches!(lenses[4].kind, CodeLensKind::Reference(0)));
    assert_eq!(lenses[4].range, at(10, 14));
}
