use al_core::calendar::days_to_civil;
use al_core::native_debug::{
    breakpoint_outcome, eval_fields, step_exit_reason, format_event_timestamp, format_unix_secs, make_bp_info,
    parse_bc_variables, push_with_cap, BreakpointHit, JsonMembers, JsonScalar, Location,
    NativeDebugSession, Variable, HISTORY_CAP,
};
use std::collections::VecDeque;
use std::time::{Duration, UNIX_EPOCH};

#[test]
fn epoch_renders_as_1970() {
    assert_eq!(format_event_timestamp(UNIX_EPOCH), "1970-01-01T00:00:00Z");
}

#[test]
fn output_has_iso8601_shape() {
    let t = UNIX_EPOCH + Duration::from_secs(1_778_160_318);
    let out = format_event_timestamp(t);
    assert_eq!(out.len(), 20, "{out}");
    let b = out.as_bytes();
    assert_eq!(b[4], b'-');
    assert_eq!(b[7], b'-');
    assert_eq!(b[10], b'T');
    assert_eq!(b[13], b':');
    assert_eq!(b[16], b':');
    assert_eq!(b[19], b'Z');
}

#[test]
fn time_before_epoch_does_not_panic() {
    let t = UNIX_EPOCH
        .checked_sub(Duration::from_secs(10))
        .unwrap_or(UNIX_EPOCH);
    let s = format_event_timestamp(t);
    assert!(s.starts_with("19") || s.starts_with("20"));
}

#[test]
fn known_seconds_render_exact_date_and_time() {
    let t = UNIX_EPOCH + Duration::from_secs(1_778_160_318);
    assert_eq!(format_event_timestamp(t), "2026-05-07T13:25:18Z");
}

#[test]
fn second_day_after_epoch() {
    let t = UNIX_EPOCH + Duration::from_secs(86_400);
    assert_eq!(format_event_timestamp(t), "1970-01-02T00:00:00Z");
}

#[test]
fn leap_day_2000_renders_feb_29() {
    let t = UNIX_EPOCH + Duration::from_secs(951_782_400);
    assert_eq!(format_event_timestamp(t), "2000-02-29T00:00:00Z");
}

#[test]
fn non_leap_century_2100_has_no_feb_29() {
    let t = UNIX_EPOCH + Duration::from_secs(4_107_456_000);
    assert_eq!(format_event_timestamp(t), "2100-02-28T00:00:00Z");
}

#[test]
fn march_first_crosses_month_boundary() {
    let t = UNIX_EPOCH + Duration::from_secs(1_583_020_800);
    assert_eq!(format_event_timestamp(t), "2020-03-01T00:00:00Z");
}

const UNIX_OFFSET: i64 = 719_468;

#[test]
fn unix_epoch_is_1970_01_01() {
    assert_eq!(days_to_civil(UNIX_OFFSET), (1970, 1, 1));
}

#[test]
fn january_uses_high_month_index_branch() {
    assert_eq!(days_to_civil(UNIX_OFFSET + 30), (1970, 1, 31));
}

#[test]
fn december_uses_low_month_index_branch() {
    assert_eq!(days_to_civil(UNIX_OFFSET + 364), (1970, 12, 31));
}

#[test]
fn handles_pre_epoch_negative_internal_days() {
    let (y, m, d) = days_to_civil(UNIX_OFFSET - 719_162);
    assert_eq!((y, m, d), (1, 1, 1));
}

fn hit(seq: u32) -> BreakpointHit {
    BreakpointHit {
        seq,
        breakpoint_id: 0,
        timestamp: String::new(),
        location: Location {
            file: String::new(),
            line: 0,
            column: 0,
            procedure: None,
        },
        variables: Vec::new(),
    }
}

#[test]
fn under_cap_keeps_everything() {
    let mut h = VecDeque::new();
    for i in 0..5 {
        push_with_cap(&mut h, hit(i), 10);
    }
    assert_eq!(h.len(), 5);
    assert_eq!(h.front().unwrap().seq, 0);
    assert_eq!(h.back().unwrap().seq, 4);
}

#[test]
fn at_cap_evicts_oldest_first() {
    let mut h = VecDeque::new();
    let cap = 3;
    for i in 0..5 {
        push_with_cap(&mut h, hit(i), cap);
    }
    assert_eq!(h.len(), cap);
    let seqs: Vec<_> = h.iter().map(|h| h.seq).collect();
    assert_eq!(seqs, vec![2, 3, 4]);
}

#[test]
fn cap_zero_drops_input() {
    let mut h = VecDeque::new();
    push_with_cap(&mut h, hit(7), 0);
    assert!(h.is_empty());
}

#[test]
fn default_cap_drops_at_documented_bound() {
    let mut h = VecDeque::new();
    for i in 0..HISTORY_CAP as u32 {
        push_with_cap(&mut h, hit(i), HISTORY_CAP);
    }
    assert_eq!(h.len(), HISTORY_CAP);
    push_with_cap(&mut h, hit(HISTORY_CAP as u32), HISTORY_CAP);
    assert_eq!(h.len(), HISTORY_CAP);
    assert_eq!(h.front().unwrap().seq, 1);
    assert_eq!(h.back().unwrap().seq, HISTORY_CAP as u32);
}

#[test]
fn empty_condition_normalises_to_none() {
    let info = make_bp_info("src/Foo.al", 42, "", 7, true);
    assert_eq!(info.condition, None);
    assert_eq!(info.id, 7);
    assert_eq!(info.file, "src/Foo.al");
    assert_eq!(info.line, 42);
    assert!(info.verified);
}

#[test]
fn non_empty_condition_is_preserved() {
    let info = make_bp_info("src/Bar.al", 10, "x > 5", 3, true);
    assert_eq!(info.condition.as_deref(), Some("x > 5"));
}

#[test]
fn failed_breakpoint_records_zero_id_and_unverified() {
    let info = make_bp_info("src/Baz.al", 1, "", 0, false);
    assert_eq!(info.id, 0);
    assert!(!info.verified);
    assert_eq!(info.condition, None);
}

#[test]
fn unix_secs_formatting_matches_timestamp() {
    assert_eq!(format_unix_secs(0), "1970-01-01T00:00:00Z");
    assert_eq!(format_unix_secs(59), "1970-01-01T00:00:59Z");
    assert_eq!(format_unix_secs(3_661), "1970-01-01T01:01:01Z");
}

#[test]
fn session_records_breaks_with_increasing_seq() {
    let mut s = NativeDebugSession::from_parts("conn-1".to_string());
    assert_eq!(s.session_id(), "conn-1");
    let loc = Location {
        file: "a.al".to_string(),
        line: 3,
        column: 1,
        procedure: None,
    };
    s.record_break(loc.clone(), "t0".to_string());
    s.record_break(loc, "t1".to_string());
    let all = s.history(None);
    assert_eq!(all.len(), 2);
    assert_eq!(all[0].seq, 1);
    assert_eq!(all[1].seq, 2);
    assert_eq!(all[1].timestamp, "t1");
}

#[test]
fn history_filter_matches_variable_names_ignoring_case() {
    let mut s = NativeDebugSession::from_parts("c".to_string());
    let mut with_var = hit(1);
    with_var.variables.push(Variable {
        name: "Customer".to_string(),
        value: "10000".to_string(),
        var_type: "Record".to_string(),
        fields: Vec::new(),
    });
    s.seed_history(vec![with_var, hit(2)]);
    assert_eq!(s.history(Some("customer")).len(), 1);
    assert_eq!(s.history(Some("CUSTOMER"))[0].seq, 1);
    assert_eq!(s.history(Some("vendor")).len(), 0);
    assert_eq!(s.history(None).len(), 2);
}

#[test]
fn stored_breakpoints_are_taken_once() {
    let mut s = NativeDebugSession::from_parts("c".to_string());
    s.store_breakpoints("a.al", vec![1, 2]);
    s.store_breakpoints("b.al", Vec::new());
    assert_eq!(s.take_breakpoints("a.al"), Some(vec![1, 2]));
    assert_eq!(s.take_breakpoints("a.al"), None);
    assert_eq!(s.take_breakpoints("b.al"), None);
}

fn node(pairs: &[(&str, &str)]) -> Option<JsonMembers> {
    Some(pairs.iter().map(|(k, v)| (k.to_string(), JsonScalar::Str(v.to_string()))).collect())
}

#[test]
fn parses_pascal_case_local_nodes() {
    let json = Some(vec![node(&[("Name", "Customer"), ("Value", "10000"), ("TypeName", "Record")])]);
    let vars = parse_bc_variables(&json);
    assert_eq!(vars.len(), 1);
    assert_eq!(vars[0].name, "Customer");
    assert_eq!(vars[0].value, "10000");
    assert_eq!(vars[0].var_type, "Record");
    assert!(vars[0].fields.is_empty());
}

#[test]
fn parses_camel_case_keys() {
    let json = Some(vec![node(&[("name", "i"), ("value", "5"), ("typeName", "Integer")])]);
    let vars = parse_bc_variables(&json);
    assert_eq!(vars.len(), 1);
    assert_eq!(vars[0].name, "i");
    assert_eq!(vars[0].value, "5");
    assert_eq!(vars[0].var_type, "Integer");
}

#[test]
fn type_falls_back_to_bare_type_key() {
    let json = Some(vec![node(&[("Name", "amt"), ("Value", "1.0"), ("Type", "Decimal")])]);
    let vars = parse_bc_variables(&json);
    assert_eq!(vars[0].var_type, "Decimal");
}

#[test]
fn node_without_name_is_skipped() {
    let json = Some(vec![node(&[("Value", "orphan")]), node(&[("Name", "keep"), ("Value", "v")])]);
    let vars = parse_bc_variables(&json);
    assert_eq!(vars.len(), 1);
    assert_eq!(vars[0].name, "keep");
}

#[test]
fn missing_value_and_type_default_to_empty() {
    let json = Some(vec![node(&[("Name", "flag")])]);
    let vars = parse_bc_variables(&json);
    assert_eq!(vars.len(), 1);
    assert_eq!(vars[0].name, "flag");
    assert_eq!(vars[0].value, "");
    assert_eq!(vars[0].var_type, "");
}

#[test]
fn non_array_json_yields_empty() {
    // null, an object and a string are all "not an array".
    assert!(parse_bc_variables(&None).is_empty());
    assert!(parse_bc_variables(&None).is_empty());
    assert!(parse_bc_variables(&None).is_empty());
}

#[test]
fn empty_array_yields_no_variables() {
    assert!(parse_bc_variables(&Some(Vec::new())).is_empty());
}

#[test]
fn entry_that_is_not_an_object_is_skipped() {
    let json = Some(vec![None, node(&[("Name", "x")])]);
    let vars = parse_bc_variables(&json);
    assert_eq!(vars.len(), 1);
    assert_eq!(vars[0].name, "x");
}

#[test]
fn name_that_is_not_a_string_skips_the_entry() {
    let json = Some(vec![Some(vec![
        ("Name".to_string(), JsonScalar::Int(3)),
        ("name".to_string(), JsonScalar::Str("lower".to_string())),
    ])]);
    // The first present key decides: `Name` is there but not a string.
    assert!(parse_bc_variables(&json).is_empty());
}

#[test]
fn eval_extracts_value_and_type_name() {
    let reply = node(&[("Value", "10000"), ("TypeName", "Code[20]")]).unwrap();
    assert_eq!(eval_fields(&reply), ("10000".to_string(), "Code[20]".to_string()));
}

#[test]
fn eval_type_name_falls_back_camel_then_bare_type() {
    let reply = node(&[("value", "5"), ("typeName", "Integer")]).unwrap();
    assert_eq!(eval_fields(&reply), ("5".to_string(), "Integer".to_string()));
    let reply = node(&[("Value", "2.5"), ("Type", "Decimal")]).unwrap();
    assert_eq!(eval_fields(&reply), ("2.5".to_string(), "Decimal".to_string()));
}

#[test]
fn eval_missing_fields_default_to_empty() {
    assert_eq!(eval_fields(&Vec::new()), (String::new(), String::new()));
}

fn reply(pairs: Vec<(&str, JsonScalar)>) -> Option<JsonMembers> {
    Some(pairs.into_iter().map(|(k, v)| (k.to_string(), v)).collect())
}

#[test]
fn set_breakpoints_adds_and_parses_pascalcase_response() {
    let r = reply(vec![("Id", JsonScalar::Int(77)), ("Verified", JsonScalar::Bool(true))]);
    let (info, id) = breakpoint_outcome("src/Foo.al", 10, None, &r);
    assert_eq!(info.id, 77);
    assert!(info.verified);
    assert_eq!(info.line, 10);
    assert_eq!(info.file, "src/Foo.al");
    assert_eq!(info.condition, None);
    assert_eq!(id, Some(77));
}

#[test]
fn set_breakpoints_parses_camelcase_response() {
    let r = reply(vec![("id", JsonScalar::Int(5)), ("verified", JsonScalar::Bool(false))]);
    let (info, _) = breakpoint_outcome("src/A.al", 3, None, &r);
    assert_eq!(info.id, 5, "camelCase id parsed");
    assert!(!info.verified, "camelCase verified parsed");
}

#[test]
fn set_breakpoints_normalizes_conditions_and_forwards_them() {
    let r1 = reply(vec![("Id", JsonScalar::Int(1)), ("Verified", JsonScalar::Bool(true))]);
    let r2 = reply(vec![("Id", JsonScalar::Int(2)), ("Verified", JsonScalar::Bool(true))]);
    let (first, _) = breakpoint_outcome("src/B.al", 1, Some("x > 5"), &r1);
    let (second, _) = breakpoint_outcome("src/B.al", 2, Some(""), &r2);
    assert_eq!(first.condition.as_deref(), Some("x > 5"));
    assert_eq!(second.condition, None, "empty condition -> None");
}

#[test]
fn set_breakpoints_removes_prior_ids_for_same_file() {
    let mut nds = NativeDebugSession::from_parts("c1".to_string());
    nds.store_breakpoints("src/C.al", vec![100, 101]);
    // Setting breakpoints again for the file first takes the prior ids to remove.
    assert_eq!(nds.take_breakpoints("src/C.al"), Some(vec![100, 101]));
    nds.store_breakpoints("src/C.al", vec![200]);
    assert_eq!(nds.take_breakpoints("src/C.al"), Some(vec![200]));
}

#[test]
fn set_breakpoints_partial_failure_marks_failed_unverified() {
    let ok = reply(vec![("Id", JsonScalar::Int(11)), ("Verified", JsonScalar::Bool(true))]);
    let (first, id1) = breakpoint_outcome("src/D.al", 1, None, &ok);
    let (second, id2) = breakpoint_outcome("src/D.al", 2, None, &None);
    assert_eq!(first.id, 11);
    assert!(first.verified);
    assert_eq!(id1, Some(11));
    assert_eq!(second.id, 0, "failed add -> id 0");
    assert!(!second.verified, "failed add -> unverified");
    assert_eq!(id2, None);
}

#[test]
fn reply_without_usable_fields_defaults() {
    // `Id` present but not an integer: no fallback to `id`, the id is 0.
    let r = reply(vec![("Id", JsonScalar::Str("7".to_string())), ("id", JsonScalar::Int(9))]);
    let (info, id) = breakpoint_outcome("f.al", 4, Some("c"), &r);
    assert_eq!(info.id, 0);
    assert!(info.verified);
    assert_eq!(info.condition.as_deref(), Some("c"));
    assert_eq!(id, Some(0));
}

#[test]
fn step_dispatches_exit_reason_by_type() {
    for (kind, expected) in [("over", 1), ("in", 2), ("out", 3)] {
        assert_eq!(step_exit_reason(kind), expected, "step {kind} exit reason");
    }
}

#[test]
fn step_unknown_type_defaults_to_step_over() {
    assert_eq!(step_exit_reason("bogus"), 1, "unknown step type -> step-over (1)");
}
