use al_core::native_debug::JsonScalar;
use al_core::profiling::{
    profile_file_name, profiler_url, select_hotspots, start_session_id, CallFrame, ProfileNode,
    ProfilingConfig,
};

fn node(name: &str, url: &str, hits: u64) -> ProfileNode {
    ProfileNode {
        hit_count: hits,
        call_frame: Some(CallFrame {
            function_name: Some(name.to_string()),
            url: Some(url.to_string()),
        }),
        object: None,
    }
}

#[test]
fn analyze_minimal_profile() {
    let nodes = vec![
        node("(root)", "", 0),
        node("Customer.OnAfterGetRecord", "Customer.al", 120),
        node("Sales-Post.PostDocument", "Sales-Post.al", 45),
        node("(idle)", "", 835),
    ];
    let hotspots = select_hotspots(&nodes, 10);
    assert_eq!(hotspots.len(), 2);
    assert_eq!(hotspots[0].procedure, "Customer.OnAfterGetRecord");
    assert_eq!(hotspots[0].hit_count, 120);
    assert_eq!(hotspots[0].object.as_deref(), Some("Customer.al"));
    assert_eq!(hotspots[1].procedure, "Sales-Post.PostDocument");
    assert_eq!(hotspots[1].hit_count, 45);
}

#[test]
fn analyze_profile_top_n_limit() {
    let nodes: Vec<ProfileNode> = (1..=20u64)
        .map(|i| node(&format!("Proc{i}"), "test.al", i * 10))
        .collect();
    let hotspots = select_hotspots(&nodes, 5);
    assert_eq!(hotspots.len(), 5);
    assert!(hotspots[0].hit_count >= hotspots[1].hit_count);
    assert!(hotspots[1].hit_count >= hotspots[2].hit_count);
    assert_eq!(hotspots[0].procedure, "Proc20");
    assert_eq!(hotspots[4].procedure, "Proc16");
}

#[test]
fn analyze_empty_profile() {
    assert_eq!(select_hotspots(&Vec::new(), 10).len(), 0);
}

#[test]
fn equal_hit_counts_keep_node_order() {
    let nodes = vec![node("A", "a.al", 5), node("B", "b.al", 7), node("C", "c.al", 5)];
    let names: Vec<String> = select_hotspots(&nodes, 10).into_iter().map(|h| h.procedure).collect();
    assert_eq!(names, vec!["B", "A", "C"]);
}

#[test]
fn missing_name_reads_anonymous_and_object_falls_back() {
    let nodes = vec![
        ProfileNode {
            hit_count: 3,
            call_frame: Some(CallFrame { function_name: None, url: Some(String::new()) }),
            object: Some("Codeunit 80".to_string()),
        },
        ProfileNode { hit_count: 9, call_frame: None, object: None },
        node("", "x.al", 100),
    ];
    let hotspots = select_hotspots(&nodes, 10);
    assert_eq!(hotspots.len(), 1);
    assert_eq!(hotspots[0].procedure, "(anonymous)");
    assert_eq!(hotspots[0].object.as_deref(), Some("Codeunit 80"));
}

#[test]
fn top_zero_keeps_nothing() {
    assert!(select_hotspots(&vec![node("P", "p.al", 1)], 0).is_empty());
}

fn config(server_url: &str, company: &str) -> ProfilingConfig {
    ProfilingConfig {
        server_url: server_url.to_string(),
        company: company.to_string(),
        output_dir: "/tmp/profiles".to_string(),
        username: None,
        password: None,
        accept_invalid_certs: false,
    }
}

#[test]
fn profiler_urls_trim_slashes_and_encode_company() {
    let c = config("http://localhost:7049/BC//", "CRONUS International Ltd.");
    assert_eq!(
        profiler_url(&c, "start"),
        "http://localhost:7049/BC/dev/profiler/start?company=CRONUS%20International%20Ltd."
    );
    assert_eq!(
        profiler_url(&config("https://bc", "A&B"), "stop"),
        "https://bc/dev/profiler/stop?company=A%26B"
    );
}

#[test]
fn start_reply_session_id() {
    let m = |pairs: Vec<(&str, JsonScalar)>| -> Vec<(String, JsonScalar)> {
        pairs.into_iter().map(|(k, v)| (k.to_string(), v)).collect()
    };
    assert_eq!(start_session_id(&m(vec![("id", JsonScalar::Str("s-1".to_string()))])), Some("s-1".to_string()));
    assert_eq!(
        start_session_id(&m(vec![("sessionId", JsonScalar::Str("s-2".to_string()))])),
        Some("s-2".to_string())
    );
    assert_eq!(start_session_id(&m(vec![("id", JsonScalar::Str(String::new()))])), None);
    assert_eq!(start_session_id(&m(vec![("id", JsonScalar::Int(5))])), None);
    assert_eq!(start_session_id(&Vec::new()), None);
}

#[test]
fn downloaded_profile_name() {
    assert_eq!(profile_file_name(1778160318), "profile-1778160318.alcpuprofile");
    assert_eq!(profile_file_name(0), "profile-0.alcpuprofile");
}
