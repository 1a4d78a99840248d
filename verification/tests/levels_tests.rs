use tc_manager::levels::{
    apply_updates_to_text, count_records, parse_bool, parse_levels, unquote, update_pairs, LevelUpdate,
};

#[test]
fn parse_bool_basic() {
    assert_eq!(parse_bool("true"), Some(true));
    assert_eq!(parse_bool("false"), Some(false));
    assert_eq!(parse_bool("True"), Some(true));
    assert_eq!(parse_bool("FALSE"), Some(false));
    assert_eq!(parse_bool("  true  "), Some(true));
    assert_eq!(parse_bool("yes"), None);
    assert_eq!(parse_bool(""), None);
}

#[test]
fn unquote_basic() {
    assert_eq!(unquote("\"foo\""), "foo");
    assert_eq!(unquote("foo"), "foo");
    assert_eq!(unquote("\"foo"), "\"foo");
    assert_eq!(unquote("foo\""), "foo\"");
    assert_eq!(unquote("\"\""), "");
}

#[test]
fn records_count_logic() {
    assert_eq!(count_records("1&2&1|2&2&1"), 2);
    assert_eq!(count_records("1&2&1|"), 1);
    assert_eq!(count_records(""), 0);
    assert_eq!(count_records("|"), 0);
}

#[test]
fn apply_replaces_only_second_column() {
    let raw = "\"introduction\",true,\"Default\",\n\"byte_adder\",false,\"LCA\",\"56&32&1\"\n";
    let updates = vec![(1usize, true)];
    let out = apply_updates_to_text(raw, &updates);
    let lines: Vec<&str> = out.split('\n').collect();
    assert_eq!(lines[0], "\"introduction\",true,\"Default\",");
    assert_eq!(lines[1], "\"byte_adder\",true,\"LCA\",\"56&32&1\"");
}

#[test]
fn parse_levels_reads_every_column() {
    let raw = "\"intro\",true,\"Default\"\n\
               \"byte_adder\",false,\"LCA\",\"56&32&1|86&17&1\"\n\
               \"empty\",false,\"\",\"\"\n";
    let rows = parse_levels(raw).unwrap();
    assert_eq!(rows.len(), 3);
    assert_eq!(rows[0].id, "intro");
    assert!(rows[0].completed);
    assert_eq!(rows[0].solution, "Default");
    assert_eq!(rows[0].records, 0);
    assert_eq!(rows[1].id, "byte_adder");
    assert!(!rows[1].completed);
    assert_eq!(rows[1].records, 2);
    assert_eq!(rows[1].line_index, 1);
    assert_eq!(rows[2].id, "empty");
    assert_eq!(rows[2].records, 0);
}

#[test]
fn parse_levels_skips_blank_lines_and_keeps_line_numbers() {
    let raw = "\r\n  \n\"a\",TRUE,\"s\"\r\n";
    let rows = parse_levels(raw).unwrap();
    assert_eq!(rows.len(), 1);
    assert_eq!(rows[0].line_index, 2);
    assert_eq!(rows[0].solution, "s");
}

#[test]
fn parse_levels_reports_short_rows() {
    let err = parse_levels("\"a\",true,\"s\"\n\"b\",true\n").unwrap_err();
    assert_eq!(err, "LEVELS_ROW_FORMAT|2");
}

#[test]
fn parse_levels_reports_bad_flags() {
    let err = parse_levels("\"a\",maybe,\"s\"\n").unwrap_err();
    assert_eq!(err, "LEVELS_BAD_BOOL|1");
}

#[test]
fn updates_apply_in_order_and_skip_missing_lines() {
    let raw = "\"a\",true,\"x\"\n\"b\",true,\"y\"";
    let out = apply_updates_to_text(raw, &[(0, false), (7, false), (0, true), (1, false)]);
    assert_eq!(out, "\"a\",true,\"x\"\n\"b\",false,\"y\"");
}

#[test]
fn line_without_two_commas_is_kept() {
    let out = apply_updates_to_text("only,one", &[(0, true)]);
    assert_eq!(out, "only,one");
}

#[test]
fn empty_update_list_is_refused() {
    assert_eq!(update_pairs(&[]).unwrap_err(), "NO_LEVEL_CHANGES");
    let pairs = update_pairs(&[LevelUpdate { line_index: 3, completed: true }]).unwrap();
    assert_eq!(pairs, vec![(3, true)]);
}

#[test]
fn line_endings_and_final_newline_are_kept() {
    let raw = "\"a\",true,\"x\"\r\n\"b\",false,\"y\",\"1&2|\"\r\n";
    assert_eq!(apply_updates_to_text(raw, &[]), raw);
    let out = apply_updates_to_text(raw, &[(1, true)]);
    assert_eq!(out, "\"a\",true,\"x\"\r\n\"b\",true,\"y\",\"1&2|\"\r\n");
    assert_eq!(apply_updates_to_text("x\n", &[(1, true)]), "x\n");
}
