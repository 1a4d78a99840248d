use tc_manager::gen::{generate, LevelTemplate};
use tc_manager::model::{Circuit, Component, Wire};
use tc_manager::test_si::{build_output_struct, build_struct};

fn and_gate_circuit() -> Circuit {
    let mut c = Circuit::default();
    c.components.push(Component {
        kind: 63,
        position: (0, 0),
        permanent_id: 1,
        user_label: "Input".to_string(),
        ..Component::default()
    });
    c.components.push(Component {
        kind: 6,
        position: (5, 0),
        permanent_id: 2,
        ..Component::default()
    });
    c.components.push(Component {
        kind: 3,
        position: (10, 0),
        permanent_id: 3,
        ..Component::default()
    });
    c.components.push(Component {
        kind: 68,
        position: (15, 0),
        permanent_id: 4,
        user_label: "Output".to_string(),
        ..Component::default()
    });
    for (start, len) in [((0, -1), 4u16), ((0, 1), 4), ((7, 0), 2), ((12, 0), 2)] {
        c.wires.push(Wire {
            start,
            segments: vec![(0, len)],
            ..Wire::default()
        });
    }
    c
}

fn and_gate_template() -> LevelTemplate {
    let input_fields = vec![("input".to_string(), "U2".to_string())];
    let output_fields = vec![("output".to_string(), "U8".to_string())];
    let z = vec!["output_is_z".to_string()];
    LevelTemplate {
        input_struct: build_struct("Input", &input_fields),
        output_struct: build_output_struct(&output_fields, &z),
        test_defs: "def get_input(cycle: Int) Input {\n    return Input {input: U2 cycle}\n}".to_string(),
        input_fields,
        output_fields,
        output_z_fields: z,
    }
}

#[test]
fn generated_and_gate_dsl_matches_spike_structure() {
    let dsl = generate(&and_gate_circuit(), &and_gate_template()).expect("generate");
    assert!(dsl.contains("var vid0 = U1 (.level_input.input >> 0 & 1)"), "{dsl}");
    assert!(dsl.contains("var vid1 = U1 (.level_input.input >> 1 & 1)"));
    assert!(dsl.contains("var vid2 = U1 (U1 ~((U1 vid0) & (U1 vid1)))"), "{dsl}");
    assert!(dsl.contains("var vid3 = U1 (U1 ~(U1 vid2))"));
    assert!(dsl.contains(".level_output.output = U1 vid3"));
    assert!(dsl.contains(".level_output.output_is_z = false"));
    assert!(!dsl.contains("\n\n"));
}

#[test]
fn generated_dsl_has_no_leftover_markers() {
    let dsl = generate(&and_gate_circuit(), &and_gate_template()).expect("generate");
    assert!(!dsl.contains("__"));
    assert!(dsl.contains("def get_gate_score() Int { return 2}"));
    assert!(dsl.contains("def get_component_count() Int { return 4 }"));
    assert!(dsl.contains("type Output {\n    output: U1,\n    output_is_z: Bool,\n}"));
}

#[test]
fn counts_list_every_component_type() {
    let dsl = generate(&and_gate_circuit(), &and_gate_template()).unwrap();
    let mut counts = vec!["0"; 101];
    counts[2] = "1";
    counts[5] = "1";
    counts[59] = "1";
    let want = format!("const #COUNTS = [{}]", counts.join(", "));
    assert!(dsl.contains(&want), "{dsl}");
}

#[test]
fn sim_lines_are_indented_in_component_order() {
    let dsl = generate(&and_gate_circuit(), &and_gate_template()).unwrap();
    assert!(dsl.contains("            // 0 com_level_input_2_pin 1 1 Input\n            var vid0"));
    assert!(dsl.contains("            // 3 com_level_output_1_pin 1 4 Output\n            .level_output.output"));
}

#[test]
fn field_count_mismatch_is_reported() {
    let mut tpl = and_gate_template();
    tpl.output_fields.push(("extra".to_string(), "U1".to_string()));
    let err = generate(&and_gate_circuit(), &tpl).unwrap_err();
    assert_eq!(err, "OUTPUT_FIELD_COUNT_MISMATCH|value circuit=1 tpl=2");
}

#[test]
fn missing_input_field_is_reported() {
    let mut tpl = and_gate_template();
    tpl.input_fields.clear();
    let err = generate(&and_gate_circuit(), &tpl).unwrap_err();
    assert_eq!(err, "MISSING_INPUT_FIELD");
}

#[test]
fn unsimulated_gate_kind_is_reported() {
    let mut c = and_gate_circuit();
    c.components.push(Component {
        kind: 25,
        position: (40, 40),
        ..Component::default()
    });
    let err = generate(&c, &and_gate_template()).unwrap_err();
    assert_eq!(err, "UNSUPPORTED_GATE_KIND|25");
}

#[test]
fn undriven_output_reads_zero() {
    let mut c = and_gate_circuit();
    c.wires.pop();
    let dsl = generate(&c, &and_gate_template()).unwrap();
    assert!(dsl.contains(".level_output.output = U1 0x0"), "{dsl}");
}

#[test]
fn blank_test_defs_are_refused() {
    let mut tpl = and_gate_template();
    tpl.test_defs = "var a = 1\n\nvar b = 2".to_string();
    let err = generate(&and_gate_circuit(), &tpl).unwrap_err();
    assert_eq!(err, "GENERATED_DIALECT_VIOLATION|blank line");
}
