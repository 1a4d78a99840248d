use tc_manager::model::{Circuit, Component, Wire};
use tc_manager::pins::{coordinates_fit, positioned_pins, resolve, wire_points, PinDir};

#[test]
fn wire_direction_4_is_west() {
    let wire = Wire {
        start: (-3, 0),
        segments: vec![(4, 2)],
        ..Wire::default()
    };
    let pts = wire_points(&wire);
    assert_eq!(*pts.last().unwrap(), (-5, 0));
    assert_eq!(pts.len(), 3);
}

#[test]
fn energy_is_gate_times_delay() {
    let c = Circuit {
        gate: 3,
        delay: 4,
        ..Circuit::default()
    };
    assert_eq!(c.energy(), 12);
}

#[test]
fn wire_points_follow_every_segment() {
    let wire = Wire {
        start: (0, 0),
        segments: vec![(0, 2), (2, 1)],
        ..Wire::default()
    };
    let pts = wire_points(&wire);
    assert_eq!(pts, vec![(0, 0), (1, 0), (2, 0), (2, 1)]);
}

fn chain_circuit() -> Circuit {
    let mut c = Circuit::default();
    c.components.push(Component {
        kind: 60,
        position: (0, 0),
        permanent_id: 1,
        ..Component::default()
    });
    c.components.push(Component {
        kind: 3,
        position: (5, 0),
        permanent_id: 2,
        ..Component::default()
    });
    c.components.push(Component {
        kind: 68,
        position: (12, 0),
        permanent_id: 3,
        ..Component::default()
    });
    c.wires.push(Wire {
        start: (1, 0),
        segments: vec![(0, 3)],
        ..Wire::default()
    });
    c.wires.push(Wire {
        start: (7, 0),
        segments: vec![(0, 4)],
        ..Wire::default()
    });
    c
}

#[test]
fn rotated_gate_pins_turn_with_it() {
    let comp = Component {
        kind: 3,
        position: (5, 5),
        rotation: 1,
        ..Component::default()
    };
    let pins = positioned_pins(&comp, 4);
    assert_eq!(pins.len(), 2);
    assert_eq!(pins[0].direction, PinDir::Input);
    assert_eq!(pins[0].position, (5, 4));
    assert_eq!(pins[1].position, (5, 7));
    assert_eq!(pins[1].component_index, 4);
}

#[test]
fn resolve_orders_a_simple_chain() {
    let c = chain_circuit();
    let conn = resolve(&c).unwrap();
    assert_eq!(conn.edges, vec![(0, 1), (1, 2)]);
    assert_eq!(conn.topo_order, vec![0, 1, 2]);
    assert_eq!(conn.unit_logic_depth, 1);
    assert_eq!(conn.networks.len(), 2);
    assert_eq!(conn.connected_pin_count, 4);
    assert!(conn.unconnected_pins.is_empty());
    let driver = conn.networks[0].driver.as_ref().unwrap();
    assert_eq!(driver.component_index, 0);
}

#[test]
fn resolve_reports_unknown_kinds() {
    let mut c = chain_circuit();
    c.components.push(Component {
        kind: 9999,
        ..Component::default()
    });
    c.components.push(Component {
        kind: 8888,
        ..Component::default()
    });
    let err = resolve(&c).unwrap_err();
    assert_eq!(err, "UNSUPPORTED_COMPONENT_KINDS|9999,8888");
}

#[test]
fn coordinates_fit_rejects_far_wires_and_pins() {
    let c = chain_circuit();
    assert!(coordinates_fit(&c));
    let mut far_wire = chain_circuit();
    far_wire.wires.push(Wire {
        start: (32766, 0),
        segments: vec![(0, 3)],
        ..Wire::default()
    });
    assert!(!coordinates_fit(&far_wire));
    let mut far_pin = chain_circuit();
    far_pin.components.push(Component {
        kind: 3,
        position: (32767, 0),
        permanent_id: 9,
        ..Component::default()
    });
    assert!(!coordinates_fit(&far_pin));
}

#[test]
fn evaluation_order_starts_from_components_without_inputs() {
    let mut c = chain_circuit();
    c.components.swap(0, 1);
    let conn = resolve(&c).unwrap();
    assert_eq!(conn.edges, vec![(0, 2), (1, 0)]);
    assert_eq!(conn.topo_order, vec![1, 0, 2]);
}
