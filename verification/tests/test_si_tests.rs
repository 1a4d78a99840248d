use tc_manager::test_si::parse;

const AND_GATE_SI: &str = "const #CORRECT_OUTPUT = [U1 0,0,0,1]\r\n\r\n\
def get_input(cycle: Int) Input {\r\n    return Input {input: U2 cycle}\r\n}\r\n\r\n\
def check_output(cycle: Int, input: Input, output: Output) TestResult {\r\n\
    if output.output != #CORRECT_OUTPUT[cycle] {\r\n\
        set_error((31337_123, `Wrong (bit) value`))\r\n\
        return fail\r\n\
    }\r\n\
    if output.output_is_z { return fail }\r\n\
}\r\n";

#[test]
fn switched_harness_rejected() {
    let err = parse(
        "var min = 0\ndef get_input_switched() Int {\n    return .min\n}",
        "binary_search",
    )
    .unwrap_err();
    assert!(err.contains("UNSUPPORTED_HARNESS"), "{err}");
}

#[test]
fn cycle_harness_template() {
    let t = parse(AND_GATE_SI, "and_gate").expect("parse");
    assert_eq!(t.input_struct, "type Input {\n    input: U2,\n}");
    assert_eq!(t.output_struct, "type Output {\n    output: U1,\n    output_is_z: Bool,\n}");
    assert_eq!(t.input_fields, vec![("input".to_string(), "U2".to_string())]);
    assert_eq!(t.output_fields, vec![("output".to_string(), "U1".to_string())]);
    assert_eq!(t.output_z_fields, vec!["output_is_z".to_string()]);
    assert!(t.test_defs.ends_with("    return pass\n}"), "{}", t.test_defs);
    assert!(!t.test_defs.contains("\n\n"));
    assert!(!t.test_defs.contains('\r'));
    assert!(t.test_defs.starts_with("const #CORRECT_OUTPUT = [U1 0,0,0,1]\ndef get_input"));
}

#[test]
fn localized_tuples_keep_their_text() {
    let t = parse(AND_GATE_SI, "and_gate").unwrap();
    assert!(t.test_defs.contains("set_error(`Wrong (bit) value`)"), "{}", t.test_defs);
    assert!(!t.test_defs.contains("31337_"));
}

#[test]
fn helpers_precede_get_input_and_types_default_to_one_bit() {
    let si = "def get_binary_repr(x: Int) String {\n    return \"}\"\n}\n\
def get_input(cycle: Int) Input {\n    var a = cycle\n    return Input {\n        input: U8 a,\n        shift: U3 (a >> 8),\n    }\n}\n\
def check_output(cycle: Int, input: Input, output: Output) TestResult {\n    if output.result != 0 { return fail }\n    return pass\n}";
    let t = parse(si, "byte_asr").unwrap();
    assert_eq!(
        t.input_fields,
        vec![("input".to_string(), "U8".to_string()), ("shift".to_string(), "U3".to_string())]
    );
    assert_eq!(t.output_fields, vec![("result".to_string(), "U1".to_string())]);
    assert!(t.output_z_fields.is_empty());
    let helper = t.test_defs.find("def get_binary_repr").unwrap();
    let get_in = t.test_defs.find("def get_input").unwrap();
    assert!(helper < get_in);
    assert!(t.test_defs.ends_with("    return pass\n}"));
    assert!(!t.test_defs.ends_with("    return pass\n}    return pass\n}"));
}

#[test]
fn blank_content_is_empty() {
    assert_eq!(parse("  \r\n\n\t\n", "lvl").unwrap_err(), "EMPTY_TEST_SI|lvl");
}

#[test]
fn missing_check_output_is_reported() {
    let err = parse("def get_input(cycle: Int) Input {\n    return Input {}\n}", "lvl").unwrap_err();
    assert_eq!(err, "NO_CHECK_OUTPUT|lvl");
}

#[test]
fn missing_get_input_is_reported() {
    let err = parse("var note = \"def get_input(cycle\"\ndef check_output() TestResult {\n}", "lvl").unwrap_err();
    assert_eq!(err, "NO_GET_INPUT|lvl");
}
