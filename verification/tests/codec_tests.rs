use tc_manager::codec::{decode_circuit, decode_v15, encode_v15, FORMAT_VERSION};
use tc_manager::legacy::{decode_v13, decode_v14, decode_v7};
use tc_manager::model::{Circuit, Component, Wire};
use tc_manager::snappy::{compress, decompress};

fn sample_circuit() -> Circuit {
    let mut c = Circuit::default();
    c.gate = 2;
    c.delay = 2;
    c.description = "round-trip".to_string();
    c.components.push(Component {
        kind: 63,
        position: (-13, 0),
        rotation: 0,
        permanent_id: 1,
        user_label: "Input".to_string(),
        immutable: true,
        cost_gate: 0,
        ..Component::default()
    });
    c.components.push(Component {
        kind: 68,
        position: (13, 0),
        rotation: 0,
        permanent_id: 2,
        user_label: "Output".to_string(),
        immutable: true,
        cost_gate: 0,
        ..Component::default()
    });
    c.components.push(Component {
        kind: 6,
        position: (-7, 0),
        rotation: 0,
        permanent_id: 3,
        cost_gate: 1,
        ..Component::default()
    });
    c.wires.push(Wire {
        color: 0,
        start: (1, 0),
        segments: vec![(0, 12), (3, 6)],
        ..Wire::default()
    });
    c.wires.push(Wire {
        color: 0,
        start: (2, 0),
        segments: vec![(0, 5)],
        ..Wire::default()
    });
    c.wires.push(Wire {
        color: 0,
        start: (3, 0),
        segments: vec![(0, 14)],
        ..Wire::default()
    });
    c
}

#[test]
fn round_trip_synthetic_circuit() {
    let c = sample_circuit();
    let bytes = encode_v15(&c).unwrap();
    assert_eq!(bytes[0], FORMAT_VERSION);
    let back = decode_v15(&bytes).unwrap();
    assert_eq!(back, c);
}

#[test]
fn codec_rejects_wrong_version() {
    let mut bytes = encode_v15(&sample_circuit()).unwrap();
    bytes[0] = 14;
    let err = decode_v15(&bytes).unwrap_err();
    assert!(err.starts_with("CIRCUIT_BAD_VERSION|"), "got: {err}");
}

#[test]
fn rejects_empty() {
    let err = decode_v15(&[]).unwrap_err();
    assert!(err.starts_with("CIRCUIT_TOO_SHORT|"), "got: {err}");
}

#[test]
fn rejects_bad_design_size() {
    let mut c = sample_circuit();
    c.custom_id = 1;
    c.design = vec![0u8; 100];
    let err = encode_v15(&c).unwrap_err();
    assert!(err.starts_with("CIRCUIT_BAD_DESIGN_SIZE|"), "got: {err}");
}

#[test]
fn rejects_non_custom_with_design() {
    let mut c = sample_circuit();
    c.design = vec![0u8; 16];
    let err = encode_v15(&c).unwrap_err();
    assert!(err.starts_with("CIRCUIT_BAD_DESIGN_SIZE|"), "got: {err}");
}

#[test]
fn dispatch_routes_legacy_via_decoder() {
    let err = decode_circuit(&[7u8, 0, 0]).unwrap_err();
    assert!(err.starts_with("CIRCUIT_") || err.starts_with("LEVELS_"), "got: {err}");
}

#[test]
fn dispatch_rejects_unsupported() {
    let err = decode_circuit(&[99u8]).unwrap_err();
    assert!(err.starts_with("CIRCUIT_UNSUPPORTED|"), "got: {err}");
}

#[test]
fn bad_wire_direction_errors() {
    let c = Circuit {
        wires: vec![Wire {
            color: 0,
            start: (0, 0),
            segments: vec![(7u8, 5u16)],
            ..Wire::default()
        }],
        ..Circuit::default()
    };
    let bytes = encode_v15(&c).unwrap();
    let back = decode_v15(&bytes).unwrap();
    assert_eq!(back, c);
}

#[test]
fn dispatch_round_trips_current_version() {
    let c = sample_circuit();
    let bytes = encode_v15(&c).unwrap();
    assert_eq!(decode_circuit(&bytes).unwrap(), c);
}

#[test]
fn dispatch_empty_is_too_short() {
    let err = decode_circuit(&[]).unwrap_err();
    assert!(err.starts_with("CIRCUIT_TOO_SHORT|"), "got: {err}");
}

#[test]
fn custom_design_round_trips() {
    let mut c = sample_circuit();
    c.custom_id = 7;
    c.design = (0..512).map(|i| (i % 251) as u8).collect();
    let bytes = encode_v15(&c).unwrap();
    assert_eq!(decode_v15(&bytes).unwrap(), c);
}

#[test]
fn trailing_garbage_after_body_fails() {
    let mut bytes = encode_v15(&sample_circuit()).unwrap();
    bytes.push(0);
    assert!(decode_v15(&bytes).is_err());
}

#[test]
fn legacy_rejects_wrong_version() {
    let err = decode_v7(&[15u8, 0, 0]).unwrap_err();
    assert!(err.starts_with("CIRCUIT_BAD_VERSION|"), "got: {err}");
}

#[test]
fn rejects_empty_input() {
    let err = decode_v13(&[]).unwrap_err();
    assert!(err.starts_with("CIRCUIT_TOO_SHORT|"), "got: {err}");
}

#[test]
fn rejects_unsupported_version_in_dispatch() {
    let err = decode_v14(&[13u8]).unwrap_err();
    assert!(err.starts_with("CIRCUIT_BAD_VERSION|"), "got: {err}");
}

#[test]
fn round_trip_literal_payload() {
    let original = b"hello world hello world hello world".to_vec();
    let compressed = compress(&original).unwrap();
    let decompressed = decompress(&compressed).unwrap();
    assert_eq!(decompressed, original);
}

#[test]
fn round_trip_copy_block_payload() {
    let original: Vec<u8> = (0..1024).map(|i| b'a' + (i % 26) as u8).collect();
    let compressed = compress(&original).unwrap();
    let decompressed = decompress(&compressed).unwrap();
    assert_eq!(decompressed, original);
}

#[test]
fn decompress_truncated_input_errors() {
    let err = decompress(&[0xff, 0xff, 0xff]).unwrap_err();
    assert!(err.starts_with("CIRCUIT_SNAPPY|"), "got: {err}");
}

#[test]
fn decompress_empty_input_errors() {
    let err = decompress(&[]).unwrap_err();
    assert!(err.starts_with("CIRCUIT_SNAPPY|"), "got: {err}");
}

#[test]
fn compress_changes_repetitive_input() {
    let original: Vec<u8> = vec![b'z'; 256];
    let compressed = compress(&original).unwrap();
    assert_ne!(compressed, original);
    assert!(compressed.len() < original.len());
}

#[test]
fn outside_decoder_messages_are_passed_on_whole() {
    assert_eq!(tc_manager::snappy::decompress(&[]).unwrap_err(), "CIRCUIT_SNAPPY|snappy: corrupt input (empty)");
    let data = [1u8, 0, 0xff];
    let mut r = tc_manager::binary::Reader::new(&data);
    assert_eq!(r.string().unwrap_err(), "CIRCUIT_UTF8|invalid utf-8 sequence of 1 bytes from index 0");
}
