use al_core::queries::code_actions::implement_interface::{
    implement_interface_actions, InterfaceMethod, InterfaceSymbol, StubParam,
};
use al_core::queries::code_actions::CodeActionKind;

fn param(name: &str, ty: &str, is_var: bool) -> StubParam {
    StubParam { name: name.to_string(), param_type: ty.to_string(), is_var }
}

fn method(name: &str, parameters: Vec<StubParam>, ret: Option<&str>) -> InterfaceMethod {
    InterfaceMethod { name: name.to_string(), parameters, return_type: ret.map(|s| s.to_string()) }
}

fn iface(name: &str, methods: Vec<InterfaceMethod>) -> InterfaceSymbol {
    InterfaceSymbol { name: name.to_string(), methods }
}

fn strings(v: &[&str]) -> Vec<String> {
    v.iter().map(|s| s.to_string()).collect()
}

fn stub_text(a: &al_core::queries::code_actions::CodeActionEntry) -> String {
    let edit = a.edit.as_ref().expect("should have edit");
    edit.changes[0].1[0].new_text.clone()
}

const EMPTY_CODEUNIT: &str = "codeunit 50100 \"My Codeunit\" implements IMyInterface\n{\n}\n";

#[test]
fn implement_interface_implement_interface_offered_for_codeunit_with_implements() {
    let ifaces = vec![iface(
        "IMyInterface",
        vec![
            method("DoSomething", vec![param("Input", "Text", false)], None),
            method("GetValue", vec![], Some("Integer")),
        ],
    )];
    let actions = implement_interface_actions(
        "file:///test/Impl.al",
        EMPTY_CODEUNIT,
        &strings(&["IMyInterface"]),
        &Vec::new(),
        2,
        &ifaces,
    );
    assert!(!actions.is_empty(), "Should offer 'Implement interface' action");
    assert!(actions[0].title.contains("IMyInterface"));
    let new_text = stub_text(&actions[0]);
    assert!(new_text.contains("procedure DoSomething"));
    assert!(new_text.contains("Input: Text"));
    assert!(new_text.contains("procedure GetValue"));
    assert!(new_text.contains(": Integer"));
    assert!(new_text.contains("Error('Not implemented')"));
}

#[test]
fn implement_interface_implement_interface_skips_already_implemented_methods() {
    let ifaces = vec![iface(
        "IMyInterface",
        vec![method("DoSomething", vec![], None), method("GetValue", vec![], Some("Integer"))],
    )];
    let text = "codeunit 50100 \"My Codeunit\" implements IMyInterface\n{\n    procedure DoSomething()\n    begin\n        Message('Already done');\n    end;\n}\n";
    let actions = implement_interface_actions(
        "file:///test/Impl.al",
        text,
        &strings(&["IMyInterface"]),
        &strings(&["DoSomething"]),
        6,
        &ifaces,
    );
    assert!(!actions.is_empty());
    let new_text = stub_text(&actions[0]);
    assert!(!new_text.contains("procedure DoSomething"));
    assert!(new_text.contains("procedure GetValue"));
}

#[test]
fn implement_interface_implement_interface_not_offered_when_all_methods_present() {
    let ifaces = vec![iface("IMyInterface", vec![method("DoSomething", vec![], None)])];
    let text = "codeunit 50100 \"My Codeunit\" implements IMyInterface\n{\n    procedure DoSomething()\n    begin\n        Message('Done');\n    end;\n}\n";
    let actions = implement_interface_actions(
        "file:///test/Impl.al",
        text,
        &strings(&["IMyInterface"]),
        &strings(&["dosomething"]),
        6,
        &ifaces,
    );
    assert!(actions.is_empty());
}

#[test]
fn implement_interface_implement_interface_not_offered_for_non_implementing_codeunit() {
    let text = "codeunit 50100 \"My Codeunit\"\n{\n    procedure DoStuff()\n    begin\n        Message('Hello');\n    end;\n}\n";
    let actions = implement_interface_actions(
        "file:///test/NoImpl.al",
        text,
        &Vec::new(),
        &strings(&["DoStuff"]),
        6,
        &Vec::new(),
    );
    assert!(actions.is_empty());
}

#[test]
fn implement_interface_implement_interface_handles_var_parameters() {
    let ifaces = vec![iface(
        "IProcessor",
        vec![method(
            "Process",
            vec![param("Input", "Text", false), param("Output", "Text", true)],
            Some("Boolean"),
        )],
    )];
    let actions = implement_interface_actions(
        "file:///test/Proc.al",
        "codeunit 50100 \"My Processor\" implements IProcessor\n{\n}\n",
        &strings(&["IProcessor"]),
        &Vec::new(),
        2,
        &ifaces,
    );
    assert!(!actions.is_empty());
    let new_text = stub_text(&actions[0]);
    assert!(new_text.contains("var Output: Text"));
    assert!(new_text.contains("Input: Text"));
    assert!(new_text.contains(": Boolean"));
}

#[test]
fn stub_text_is_exact_and_indented_like_the_line_before() {
    let ifaces = vec![iface(
        "IProcessor",
        vec![method(
            "Process",
            vec![param("Input", "Text", false), param("Output", "Text", true)],
            Some("Boolean"),
        )],
    )];
    let text = "codeunit 1 X implements iprocessor\n{\n    var\n}\n";
    let actions = implement_interface_actions(
        "file:///x.al",
        text,
        &strings(&["iprocessor"]),
        &Vec::new(),
        3,
        &ifaces,
    );
    assert_eq!(actions.len(), 1);
    let a = &actions[0];
    assert_eq!(a.title, "Implement interface 'iprocessor'");
    assert_eq!(a.kind, CodeActionKind::Refactor);
    assert!(!a.is_preferred);
    let edit = a.edit.as_ref().unwrap();
    assert_eq!(edit.changes[0].0, "file:///x.al");
    assert_eq!(edit.changes[0].1[0].range.start.line, 3);
    assert_eq!(
        stub_text(a),
        "\n    procedure Process(Input: Text; var Output: Text): Boolean\n    begin\n        Error('Not implemented');\n    end;\n"
    );
}

#[test]
fn unknown_interface_gives_no_action() {
    let ifaces = vec![iface("IKnown", vec![method("A", vec![], None)])];
    let actions = implement_interface_actions(
        "file:///x.al",
        "codeunit 1 X implements IUnknown, IKnown\n{\n}\n",
        &strings(&["IUnknown", "IKnown"]),
        &Vec::new(),
        2,
        &ifaces,
    );
    assert_eq!(actions.len(), 1);
    assert_eq!(actions[0].title, "Implement interface 'IKnown'");
}
